//! The store that owns every node of a program, and the keys that refer to them.

use slotmap::{DefaultKey, Key, KeyData, SlotMap};
use std::collections::HashMap;
use vstd::prelude::*;

verus! {

/// Refers to an [`Expression`] in an [`Ast`].
///
/// A key holds the number that stands for the key that the slot map gave the node when
/// it was inserted. Keys are made by insertion only.
#[derive(Clone, Copy, Debug, PartialEq, Eq, Hash, Structural)]
pub struct ExpressionKey {
    raw: u64,
}

/// Refers to a [`Declaration`] in an [`Ast`].
#[derive(Clone, Copy, Debug, PartialEq, Eq, Hash, Structural)]
pub struct DeclarationKey {
    raw: u64,
}

/// Refers to a [`Statement`] in an [`Ast`].
#[derive(Clone, Copy, Debug, PartialEq, Eq, Hash, Structural)]
pub struct StatementKey {
    raw: u64,
}

/// A key of any kind, tagged with the kind of node it refers to.
#[derive(Clone, Copy, Debug, PartialEq, Eq, Hash, Structural)]
pub enum NodeKey {
    Expression(ExpressionKey),
    Declaration(DeclarationKey),
    Statement(StatementKey),
}

/// The four binary operators of the language.
#[derive(Clone, Copy, Debug, PartialEq, Eq, Structural)]
pub enum Operator {
    Plus,
    Minus,
    Times,
    Div,
}

/// An expression node. Operands are referred to by key, never embedded.
#[derive(Debug, PartialEq, Eq)]
pub enum Expression {
    Plus(ExpressionKey, ExpressionKey),
    Minus(ExpressionKey, ExpressionKey),
    Times(ExpressionKey, ExpressionKey),
    Div(ExpressionKey, ExpressionKey),
    Literal(u32),
    Var(String),
}

/// A name binding `id = val;`.
#[derive(Debug, PartialEq, Eq)]
pub struct Declaration {
    pub id: String,
    pub val: ExpressionKey,
}

/// A statement: a declaration, or `print` of an expression.
#[derive(Debug, PartialEq, Eq)]
pub enum Statement {
    Decl(DeclarationKey),
    Print(ExpressionKey),
}

impl Expression {
    /// The operator of a binary expression.
    pub open spec fn operator(&self) -> Option<Operator> {
        match *self {
            Expression::Plus(_, _) => Some(Operator::Plus),
            Expression::Minus(_, _) => Some(Operator::Minus),
            Expression::Times(_, _) => Some(Operator::Times),
            Expression::Div(_, _) => Some(Operator::Div),
            _ => None,
        }
    }

    /// The left and right operand of a binary expression.
    pub open spec fn operands(&self) -> Option<(ExpressionKey, ExpressionKey)> {
        match *self {
            Expression::Plus(l, r) => Some((l, r)),
            Expression::Minus(l, r) => Some((l, r)),
            Expression::Times(l, r) => Some((l, r)),
            Expression::Div(l, r) => Some((l, r)),
            _ => None,
        }
    }

    /// The number of a literal.
    pub open spec fn literal(&self) -> Option<u32> {
        match *self {
            Expression::Literal(value) => Some(value),
            _ => None,
        }
    }

    /// The name of a variable.
    pub open spec fn variable(&self) -> Option<Seq<char>> {
        match *self {
            Expression::Var(name) => Some(name@),
            _ => None,
        }
    }

    /// The number of a literal; `None` for any other expression.
    pub fn value(&self) -> (value: Option<u32>)
        ensures
            value == self.literal(),
    {
        match self {
            Expression::Literal(value) => Some(*value),
            _ => None,
        }
    }

    /// Takes a binary expression apart; `None` for a literal or a variable.
    pub fn split(&self) -> (parts: Option<(Operator, ExpressionKey, ExpressionKey)>)
        ensures
            parts is Some <==> self.operands() is Some,
            parts matches Some((op, l, r)) ==> self.operator() == Some(op) && self.operands()
                == Some((l, r)),
    {
        match self {
            Expression::Plus(l, r) => Some((Operator::Plus, *l, *r)),
            Expression::Minus(l, r) => Some((Operator::Minus, *l, *r)),
            Expression::Times(l, r) => Some((Operator::Times, *l, *r)),
            Expression::Div(l, r) => Some((Operator::Div, *l, *r)),
            _ => None,
        }
    }
}

/// A `SlotMap` of the `slotmap` crate, which hands out a key for each value it takes in.
///
/// Verus does not look inside. A key leaves this type as the number that
/// `KeyData::as_ffi` gives for it, and comes back through `KeyData::from_ffi`, which
/// returns the key that such a number was made from.
#[verifier::external_body]
#[verifier::reject_recursive_types(V)]
#[derive(Debug)]
pub struct Arena<V> {
    slots: SlotMap<DefaultKey, V>,
}

/// The most nodes of one kind that a store can hold.
pub const SLOT_LIMIT: usize = 0xFFFF_FFFE;

/// The expressions that a slot map holds, each under the key that `insert` returned for it.
pub uninterp spec fn expression_slots(arena: Arena<Expression>) -> Map<ExpressionKey, Expression>;

/// The declarations that a slot map holds, each under the key that `insert` returned for it.
pub uninterp spec fn declaration_slots(arena: Arena<Declaration>) -> Map<
    DeclarationKey,
    Declaration,
>;

/// The statements that a slot map holds, each under the key that `insert` returned for it.
pub uninterp spec fn statement_slots(arena: Arena<Statement>) -> Map<StatementKey, Statement>;

/// `SlotMap::with_key`: the new slot map holds nothing.
#[verifier::external_body]
fn new_expression_slots() -> (arena: Arena<Expression>)
    ensures
        expression_slots(arena) == (Map::<ExpressionKey, Expression>::empty()),
{
    Arena { slots: SlotMap::with_key() }
}

/// `SlotMap::with_key`: the new slot map holds nothing.
#[verifier::external_body]
fn new_declaration_slots() -> (arena: Arena<Declaration>)
    ensures
        declaration_slots(arena) == (Map::<DeclarationKey, Declaration>::empty()),
{
    Arena { slots: SlotMap::with_key() }
}

/// `SlotMap::with_key`: the new slot map holds nothing.
#[verifier::external_body]
fn new_statement_slots() -> (arena: Arena<Statement>)
    ensures
        statement_slots(arena) == (Map::<StatementKey, Statement>::empty()),
{
    Arena { slots: SlotMap::with_key() }
}

/// `SlotMap::insert`, which panics only when the slot map is full: the value is stored
/// under a key that was not in use, there is one key more in use, and nothing else
/// changes. The key is handed out as the number that `KeyData::as_ffi` gives for it.
#[verifier::external_body]
fn insert_expression_slot(arena: &mut Arena<Expression>, value: Expression) -> (key: ExpressionKey)
    requires
        expression_slots(*old(arena)).len() < SLOT_LIMIT,
    ensures
        !expression_slots(*old(arena)).dom().contains(key),
        expression_slots(*final(arena)) == expression_slots(*old(arena)).insert(key, value),
        expression_slots(*final(arena)).len() == expression_slots(*old(arena)).len() + 1,
{
    ExpressionKey { raw: arena.slots.insert(value).data().as_ffi() }
}

/// `SlotMap::insert`, as for expressions.
#[verifier::external_body]
fn insert_declaration_slot(arena: &mut Arena<Declaration>, value: Declaration) -> (key:
    DeclarationKey)
    requires
        declaration_slots(*old(arena)).len() < SLOT_LIMIT,
    ensures
        !declaration_slots(*old(arena)).dom().contains(key),
        declaration_slots(*final(arena)) == declaration_slots(*old(arena)).insert(key, value),
        declaration_slots(*final(arena)).len() == declaration_slots(*old(arena)).len() + 1,
{
    DeclarationKey { raw: arena.slots.insert(value).data().as_ffi() }
}

/// `SlotMap::insert`, as for expressions.
#[verifier::external_body]
fn insert_statement_slot(arena: &mut Arena<Statement>, value: Statement) -> (key: StatementKey)
    requires
        statement_slots(*old(arena)).len() < SLOT_LIMIT,
    ensures
        !statement_slots(*old(arena)).dom().contains(key),
        statement_slots(*final(arena)) == statement_slots(*old(arena)).insert(key, value),
        statement_slots(*final(arena)).len() == statement_slots(*old(arena)).len() + 1,
{
    StatementKey { raw: arena.slots.insert(value).data().as_ffi() }
}

/// `SlotMap::get`: the value under the key if the key is in use, and `None` if not. The
/// key is rebuilt by `KeyData::from_ffi` from the number that `as_ffi` gave when it was
/// handed out.
#[verifier::external_body]
fn find_expression_slot(arena: &Arena<Expression>, key: ExpressionKey) -> (found: Option<
    &Expression,
>)
    ensures
        found == if expression_slots(*arena).dom().contains(key) {
            Some(&expression_slots(*arena)[key])
        } else {
            None
        },
{
    arena.slots.get(DefaultKey::from(KeyData::from_ffi(key.raw)))
}

/// `SlotMap::get`, as for expressions.
#[verifier::external_body]
fn find_declaration_slot(arena: &Arena<Declaration>, key: DeclarationKey) -> (found: Option<
    &Declaration,
>)
    ensures
        found == if declaration_slots(*arena).dom().contains(key) {
            Some(&declaration_slots(*arena)[key])
        } else {
            None
        },
{
    arena.slots.get(DefaultKey::from(KeyData::from_ffi(key.raw)))
}

/// `SlotMap::get`, as for expressions.
#[verifier::external_body]
fn find_statement_slot(arena: &Arena<Statement>, key: StatementKey) -> (found: Option<&Statement>)
    ensures
        found == if statement_slots(*arena).dom().contains(key) {
            Some(&statement_slots(*arena)[key])
        } else {
            None
        },
{
    arena.slots.get(DefaultKey::from(KeyData::from_ffi(key.raw)))
}

/// `IndexMut::index_mut` of `SlotMap`, which panics on a key that is not in use: the
/// value under the key is replaced by an assignment, and nothing else changes.
#[verifier::external_body]
fn replace_expression_slot(arena: &mut Arena<Expression>, key: ExpressionKey, value: Expression)
    requires
        expression_slots(*old(arena)).dom().contains(key),
    ensures
        expression_slots(*final(arena)) == expression_slots(*old(arena)).insert(key, value),
{
    arena.slots[DefaultKey::from(KeyData::from_ffi(key.raw))] = value;
}

/// `SlotMap::len`: the number of keys in use.
#[verifier::external_body]
fn count_expression_slots(arena: &Arena<Expression>) -> (n: usize)
    ensures
        n == expression_slots(*arena).len(),
{
    arena.slots.len()
}

/// `SlotMap::len`: the number of keys in use.
#[verifier::external_body]
fn count_declaration_slots(arena: &Arena<Declaration>) -> (n: usize)
    ensures
        n == declaration_slots(*arena).len(),
{
    arena.slots.len()
}

/// `SlotMap::len`: the number of keys in use.
#[verifier::external_body]
fn count_statement_slots(arena: &Arena<Statement>) -> (n: usize)
    ensures
        n == statement_slots(*arena).len(),
{
    arena.slots.len()
}

impl NodeKey {
    /// A number that tells the keys of all kinds apart: the table of resolutions is keyed by it.
    pub closed spec fn code(self) -> u128 {
        match self {
            NodeKey::Expression(k) => k.raw as u128,
            NodeKey::Declaration(k) => (0x1_0000_0000_0000_0000u128 + k.raw) as u128,
            NodeKey::Statement(k) => (0x2_0000_0000_0000_0000u128 + k.raw) as u128,
        }
    }

    fn encode(&self) -> (code: u128)
        ensures
            code == self.code(),
    {
        match self {
            NodeKey::Expression(k) => k.raw as u128,
            NodeKey::Declaration(k) => 0x1_0000_0000_0000_0000u128 + k.raw as u128,
            NodeKey::Statement(k) => 0x2_0000_0000_0000_0000u128 + k.raw as u128,
        }
    }

    /// Keys that differ have codes that differ.
    proof fn lemma_code_injective(a: NodeKey, b: NodeKey)
        requires
            a.code() == b.code(),
        ensures
            a == b,
    {
    }
}

/// Owns every node of a program, and the table of name resolutions.
///
/// Nodes are inserted and never removed, so a key stays valid for as long as the store
/// lives. An expression can be replaced in place, under its key.
#[derive(Debug)]
pub struct Ast {
    exprs: Arena<Expression>,
    decls: Arena<Declaration>,
    stmts: Arena<Statement>,
    name_resolution: HashMap<u128, DeclarationKey>,
}

impl Ast {
    /// The expressions in the store.
    pub closed spec fn exprs(&self) -> Map<ExpressionKey, Expression> {
        expression_slots(self.exprs)
    }

    /// The declarations in the store.
    pub closed spec fn decls(&self) -> Map<DeclarationKey, Declaration> {
        declaration_slots(self.decls)
    }

    /// The statements in the store.
    pub closed spec fn stmts(&self) -> Map<StatementKey, Statement> {
        statement_slots(self.stmts)
    }

    /// The table of name resolutions: for a reference site, the declaration it reads from.
    pub closed spec fn resolutions(&self) -> Map<NodeKey, DeclarationKey> {
        Map::new(
            |site: NodeKey| self.name_resolution@.dom().contains(site.code()),
            |site: NodeKey| self.name_resolution@[site.code()],
        )
    }

    /// An empty store.
    pub fn new() -> (ast: Ast)
        ensures
            ast.exprs() == (Map::<ExpressionKey, Expression>::empty()),
            ast.decls() == (Map::<DeclarationKey, Declaration>::empty()),
            ast.stmts() == (Map::<StatementKey, Statement>::empty()),
            ast.resolutions() == (Map::<NodeKey, DeclarationKey>::empty()),
    {
        let ast = Ast {
            exprs: new_expression_slots(),
            decls: new_declaration_slots(),
            stmts: new_statement_slots(),
            name_resolution: HashMap::new(),
        };
        assert(ast.resolutions() =~= Map::<NodeKey, DeclarationKey>::empty());
        ast
    }

    /// Stores an expression under a key that was not in use.
    pub fn insert_expr(&mut self, e: Expression) -> (key: ExpressionKey)
        requires
            old(self).exprs().len() < SLOT_LIMIT,
        ensures
            !old(self).exprs().dom().contains(key),
            final(self).exprs() == old(self).exprs().insert(key, e),
            final(self).exprs().len() == old(self).exprs().len() + 1,
            final(self).decls() == old(self).decls(),
            final(self).stmts() == old(self).stmts(),
            final(self).resolutions() == old(self).resolutions(),
    {
        insert_expression_slot(&mut self.exprs, e)
    }

    /// Stores a declaration under a key that was not in use.
    pub fn insert_decl(&mut self, d: Declaration) -> (key: DeclarationKey)
        requires
            old(self).decls().len() < SLOT_LIMIT,
        ensures
            !old(self).decls().dom().contains(key),
            final(self).decls() == old(self).decls().insert(key, d),
            final(self).decls().len() == old(self).decls().len() + 1,
            final(self).exprs() == old(self).exprs(),
            final(self).stmts() == old(self).stmts(),
            final(self).resolutions() == old(self).resolutions(),
    {
        insert_declaration_slot(&mut self.decls, d)
    }

    /// Stores a statement under a key that was not in use.
    pub fn insert_stmt(&mut self, s: Statement) -> (key: StatementKey)
        requires
            old(self).stmts().len() < SLOT_LIMIT,
        ensures
            !old(self).stmts().dom().contains(key),
            final(self).stmts() == old(self).stmts().insert(key, s),
            final(self).stmts().len() == old(self).stmts().len() + 1,
            final(self).exprs() == old(self).exprs(),
            final(self).decls() == old(self).decls(),
            final(self).resolutions() == old(self).resolutions(),
    {
        insert_statement_slot(&mut self.stmts, s)
    }

    /// The number of expressions in the store.
    pub fn expr_count(&self) -> (n: usize)
        ensures
            n == self.exprs().len(),
    {
        count_expression_slots(&self.exprs)
    }

    /// The number of declarations in the store.
    pub fn decl_count(&self) -> (n: usize)
        ensures
            n == self.decls().len(),
    {
        count_declaration_slots(&self.decls)
    }

    /// The number of statements in the store.
    pub fn stmt_count(&self) -> (n: usize)
        ensures
            n == self.stmts().len(),
    {
        count_statement_slots(&self.stmts)
    }

    /// The expression under a key, if the store holds one.
    pub fn get_expr(&self, e: ExpressionKey) -> (found: Option<&Expression>)
        ensures
            found == if self.exprs().dom().contains(e) {
                Some(&self.exprs()[e])
            } else {
                None
            },
    {
        find_expression_slot(&self.exprs, e)
    }

    /// The declaration under a key, if the store holds one.
    pub fn get_decl(&self, d: DeclarationKey) -> (found: Option<&Declaration>)
        ensures
            found == if self.decls().dom().contains(d) {
                Some(&self.decls()[d])
            } else {
                None
            },
    {
        find_declaration_slot(&self.decls, d)
    }

    /// The statement under a key, if the store holds one.
    pub fn get_stmt(&self, s: StatementKey) -> (found: Option<&Statement>)
        ensures
            found == if self.stmts().dom().contains(s) {
                Some(&self.stmts()[s])
            } else {
                None
            },
    {
        find_statement_slot(&self.stmts, s)
    }

    /// The expression under a key of the store.
    pub fn expr(&self, e: ExpressionKey) -> (node: &Expression)
        requires
            self.exprs().dom().contains(e),
        ensures
            *node == self.exprs()[e],
    {
        match find_expression_slot(&self.exprs, e) {
            Some(node) => node,
            None => vstd::pervasive::unreached(),
        }
    }

    /// The declaration under a key of the store.
    pub fn decl(&self, d: DeclarationKey) -> (node: &Declaration)
        requires
            self.decls().dom().contains(d),
        ensures
            *node == self.decls()[d],
    {
        match find_declaration_slot(&self.decls, d) {
            Some(node) => node,
            None => vstd::pervasive::unreached(),
        }
    }

    /// The statement under a key of the store.
    pub fn stmt(&self, s: StatementKey) -> (node: &Statement)
        requires
            self.stmts().dom().contains(s),
        ensures
            *node == self.stmts()[s],
    {
        match find_statement_slot(&self.stmts, s) {
            Some(node) => node,
            None => vstd::pervasive::unreached(),
        }
    }

    /// Replaces the expression under a key of the store. The key goes on referring to
    /// the node, which now holds `node`.
    pub fn set_expr(&mut self, e: ExpressionKey, node: Expression)
        requires
            old(self).exprs().dom().contains(e),
        ensures
            final(self).exprs() == old(self).exprs().insert(e, node),
            final(self).decls() == old(self).decls(),
            final(self).stmts() == old(self).stmts(),
            final(self).resolutions() == old(self).resolutions(),
    {
        replace_expression_slot(&mut self.exprs, e, node)
    }

    /// Records that the reference at `site` reads from `decl`, in place of what was
    /// recorded for the site before.
    pub fn resolve(&mut self, site: NodeKey, decl: DeclarationKey)
        ensures
            final(self).resolutions() == old(self).resolutions().insert(site, decl),
            final(self).exprs() == old(self).exprs(),
            final(self).decls() == old(self).decls(),
            final(self).stmts() == old(self).stmts(),
    {
        broadcast use vstd::std_specs::hash::group_hash_axioms;

        let code: u128 = site.encode();
        self.name_resolution.insert(code, decl);
        proof {
            assert forall|other: NodeKey| other.code() == site.code() implies other == site by {
                NodeKey::lemma_code_injective(other, site);
            }
            assert(self.resolutions() =~= old(self).resolutions().insert(site, decl));
        }
    }

    /// The declaration recorded for the reference at `site`, if one is.
    pub fn resolution(&self, site: NodeKey) -> (decl: Option<DeclarationKey>)
        ensures
            decl == if self.resolutions().dom().contains(site) {
                Some(self.resolutions()[site])
            } else {
                None
            },
    {
        broadcast use vstd::std_specs::hash::group_hash_axioms;

        let code: u128 = site.encode();
        match self.name_resolution.get(&code) {
            Some(decl) => Some(*decl),
            None => None,
        }
    }
}

} // verus!
