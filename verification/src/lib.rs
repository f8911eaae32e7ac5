//! An arena-backed syntax tree for a small arithmetic language, a traversal
//! framework over it, and three passes built on the framework: name
//! resolution, constant folding and printing.
//!
//! - [`ast`] is the store that owns the nodes, and the keys that refer to them.
//! - [`shape`] says which keys lead to a finite expression, and what a pass may do to
//!   the store.
//! - [`visit`] is the traversal that the passes share.
//! - [`resolve`], [`fold`] and [`print`] are the passes.
//! - [`error`] is what ends a pass.

pub mod ast;
pub mod error;
pub mod fold;
pub mod print;
pub mod resolve;
pub mod shape;
pub mod visit;
