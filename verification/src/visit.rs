//! The traversal that every pass shares.
//!
//! A pass is a [`Visitor`]: it says what it does at a node, and the `walk_` functions
//! carry it through a program. They are the only place where the tree is descended:
//! a walk calls the pass when it enters a node and when it leaves it (and, for a binary
//! expression, between the two operands), and descends in between. The first error that
//! the pass returns ends the walk.
//!
//! A pass also states what each of these calls does and what a whole walk amounts to,
//! and proves that the second follows from the first. The walks hand that statement on
//! to their callers.

use crate::ast::{Ast, DeclarationKey, ExpressionKey, Statement, StatementKey};
use crate::shape::{
    evolves,
    height,
    lemma_evolves_declaration,
    lemma_evolves_expression,
    lemma_evolves_program,
    lemma_evolves_reflexive,
    lemma_evolves_statement,
    lemma_evolves_transitive,
    lemma_height,
    lemma_operands,
};
use vstd::prelude::*;

verus! {

/// When, on its way through a node, a walk calls the pass.
#[derive(Clone, Copy, Debug, PartialEq, Eq, Structural)]
pub enum Moment {
    /// Before anything below the node.
    Enter,
    /// After the left operand of a binary expression and before the right one.
    Between,
    /// After everything below the node.
    Leave,
}

/// A pass and the store it works on, as they are at one moment of a traversal.
pub struct Stage<V> {
    pub pass: V,
    pub ast: Ast,
}

/// The stage made of a pass and a store.
pub open spec fn stage<V>(pass: V, ast: Ast) -> Stage<V> {
    Stage { pass, ast }
}

/// How one step of a walk follows what came before it: after a success the step is
/// taken, and may only let the store evolve; after an error nothing more happens.
pub open spec fn follows<V, T, E>(
    earlier: Result<T, E>,
    before: Stage<V>,
    after: Stage<V>,
    result: Result<T, E>,
    step: bool,
) -> bool {
    if earlier is Ok {
        evolves(before.ast, after.ast) && step
    } else {
        after == before && result == earlier
    }
}

/// The error of a result, if it is one.
pub open spec fn failure<T, E>(result: Result<T, E>) -> Option<E> {
    match result {
        Ok(_) => None,
        Err(error) => Some(error),
    }
}

/// A pass over a program.
///
/// The three `visit_` operations are what the pass does at a node of each kind. The
/// `_visited` predicates say what one such call does, the `_walked` predicates what a
/// whole walk from a node does, and the lemmas derive the second from the first.
pub trait Visitor<T: Default, E>: Sized {
    /// What `visit_expression` does.
    spec fn expression_visited(
        before: Stage<Self>,
        e: ExpressionKey,
        at: Moment,
        after: Stage<Self>,
        result: Result<T, E>,
    ) -> bool;

    /// What `visit_declaration` does.
    spec fn declaration_visited(
        before: Stage<Self>,
        d: DeclarationKey,
        at: Moment,
        after: Stage<Self>,
        result: Result<T, E>,
    ) -> bool;

    /// What `visit_statement` does.
    spec fn statement_visited(
        before: Stage<Self>,
        s: StatementKey,
        at: Moment,
        after: Stage<Self>,
        result: Result<T, E>,
    ) -> bool;

    /// What a walk of the expression `e` does.
    spec fn expression_walked(
        before: Stage<Self>,
        e: ExpressionKey,
        after: Stage<Self>,
        result: Result<T, E>,
    ) -> bool;

    /// What a walk of the declaration `d` does.
    spec fn declaration_walked(
        before: Stage<Self>,
        d: DeclarationKey,
        after: Stage<Self>,
        result: Result<T, E>,
    ) -> bool;

    /// What a walk of the statement `s` does.
    spec fn statement_walked(
        before: Stage<Self>,
        s: StatementKey,
        after: Stage<Self>,
        result: Result<T, E>,
    ) -> bool;

    /// What a walk of the statements of `program`, in their order, does, and the error
    /// that ended it.
    spec fn program_walked(
        before: Stage<Self>,
        program: Seq<StatementKey>,
        after: Stage<Self>,
        failed: Option<E>,
    ) -> bool;

    /// Called on the way through an expression: on entering it, between the operands
    /// of a binary one, and on leaving it.
    fn visit_expression(&mut self, ast: &mut Ast, e: ExpressionKey, at: Moment) -> (result: Result<
        T,
        E,
    >)
        requires
            old(ast).holds_expression(e),
        ensures
            evolves(*old(ast), *final(ast)),
            Self::expression_visited(
                stage(*old(self), *old(ast)),
                e,
                at,
                stage(*final(self), *final(ast)),
                result,
            ),
    ;

    /// Called on entering a declaration, and on leaving it.
    fn visit_declaration(&mut self, ast: &mut Ast, d: DeclarationKey, at: Moment) -> (result:
        Result<T, E>)
        requires
            old(ast).holds_declaration(d),
            at != Moment::Between,
        ensures
            evolves(*old(ast), *final(ast)),
            Self::declaration_visited(
                stage(*old(self), *old(ast)),
                d,
                at,
                stage(*final(self), *final(ast)),
                result,
            ),
    ;

    /// Called on entering a statement, and on leaving it.
    fn visit_statement(&mut self, ast: &mut Ast, s: StatementKey, at: Moment) -> (result: Result<
        T,
        E,
    >)
        requires
            old(ast).holds_statement(s),
            at != Moment::Between,
        ensures
            evolves(*old(ast), *final(ast)),
            Self::statement_visited(
                stage(*old(self), *old(ast)),
                s,
                at,
                stage(*final(self), *final(ast)),
                result,
            ),
    ;

    /// A literal or a variable is walked by entering and leaving it.
    proof fn lemma_leaf_walked(
        e: ExpressionKey,
        s0: Stage<Self>,
        s1: Stage<Self>,
        r1: Result<T, E>,
        s2: Stage<Self>,
        r2: Result<T, E>,
    )
        requires
            s0.ast.holds_expression(e),
            evolves(s0.ast, s1.ast),
            Self::expression_visited(s0, e, Moment::Enter, s1, r1),
            r1 is Ok ==> s1.ast.exprs()[e].operands() is None,
            follows(r1, s1, s2, r2, Self::expression_visited(s1, e, Moment::Leave, s2, r2)),
        ensures
            Self::expression_walked(s0, e, s2, r2),
    ;

    /// A binary expression is walked by entering it, walking the left operand, the call
    /// between the operands, walking the right operand, and leaving it.
    proof fn lemma_binary_walked(
        e: ExpressionKey,
        l: ExpressionKey,
        r: ExpressionKey,
        s0: Stage<Self>,
        s1: Stage<Self>,
        r1: Result<T, E>,
        s2: Stage<Self>,
        r2: Result<T, E>,
        s3: Stage<Self>,
        r3: Result<T, E>,
        s4: Stage<Self>,
        r4: Result<T, E>,
        s5: Stage<Self>,
        r5: Result<T, E>,
    )
        requires
            s0.ast.holds_expression(e),
            evolves(s0.ast, s1.ast),
            Self::expression_visited(s0, e, Moment::Enter, s1, r1),
            r1 is Ok ==> s1.ast.exprs()[e].operands() == Some((l, r)),
            follows(r1, s1, s2, r2, Self::expression_walked(s1, l, s2, r2)),
            follows(r2, s2, s3, r3, Self::expression_visited(s2, e, Moment::Between, s3, r3)),
            follows(r3, s3, s4, r4, Self::expression_walked(s3, r, s4, r4)),
            follows(r4, s4, s5, r5, Self::expression_visited(s4, e, Moment::Leave, s5, r5)),
        ensures
            Self::expression_walked(s0, e, s5, r5),
    ;

    /// A declaration is walked by entering it, walking its initializer, and leaving it.
    proof fn lemma_declaration_walked(
        d: DeclarationKey,
        s0: Stage<Self>,
        s1: Stage<Self>,
        r1: Result<T, E>,
        s2: Stage<Self>,
        r2: Result<T, E>,
        s3: Stage<Self>,
        r3: Result<T, E>,
    )
        requires
            s0.ast.holds_declaration(d),
            evolves(s0.ast, s1.ast),
            Self::declaration_visited(s0, d, Moment::Enter, s1, r1),
            follows(r1, s1, s2, r2, Self::expression_walked(s1, s0.ast.decls()[d].val, s2, r2)),
            follows(r2, s2, s3, r3, Self::declaration_visited(s2, d, Moment::Leave, s3, r3)),
        ensures
            Self::declaration_walked(s0, d, s3, r3),
    ;

    /// A statement is walked by entering it, walking the declaration or the expression
    /// that it holds, and leaving it.
    proof fn lemma_statement_walked(
        s: StatementKey,
        s0: Stage<Self>,
        s1: Stage<Self>,
        r1: Result<T, E>,
        s2: Stage<Self>,
        r2: Result<T, E>,
        s3: Stage<Self>,
        r3: Result<T, E>,
    )
        requires
            s0.ast.holds_statement(s),
            evolves(s0.ast, s1.ast),
            Self::statement_visited(s0, s, Moment::Enter, s1, r1),
            follows(
                r1,
                s1,
                s2,
                r2,
                match s0.ast.stmts()[s] {
                    Statement::Decl(d) => Self::declaration_walked(s1, d, s2, r2),
                    Statement::Print(e) => Self::expression_walked(s1, e, s2, r2),
                },
            ),
            follows(r2, s2, s3, r3, Self::statement_visited(s2, s, Moment::Leave, s3, r3)),
        ensures
            Self::statement_walked(s0, s, s3, r3),
    ;

    /// A walk of no statements does nothing.
    proof fn lemma_nothing_walked(s0: Stage<Self>)
        ensures
            Self::program_walked(s0, Seq::<StatementKey>::empty(), s0, None),
    ;

    /// A walk of statements goes on with the next statement, unless it has failed.
    proof fn lemma_more_walked(
        program: Seq<StatementKey>,
        s: StatementKey,
        s0: Stage<Self>,
        s1: Stage<Self>,
        failed: Option<E>,
        s2: Stage<Self>,
        r2: Result<T, E>,
    )
        requires
            s0.ast.holds_program(program.push(s)),
            evolves(s0.ast, s1.ast),
            Self::program_walked(s0, program, s1, failed),
            if failed is None {
                evolves(s1.ast, s2.ast) && Self::statement_walked(s1, s, s2, r2)
            } else {
                s2 == s1
            },
        ensures
            Self::program_walked(
                s0,
                program.push(s),
                s2,
                if failed is None {
                    failure(r2)
                } else {
                    failed
                },
            ),
    ;
}

/// Walks the expression `e`: the pass is called on entering it; if it is binary, the
/// left operand is walked, the pass is called between the operands, and the right
/// operand is walked; then the pass is called on leaving it. The first error ends the
/// walk and is returned; otherwise the result is that of the last call.
pub fn walk_expression<T: Default, E, V: Visitor<T, E>>(
    visitor: &mut V,
    ast: &mut Ast,
    e: ExpressionKey,
) -> (result: Result<T, E>)
    requires
        old(ast).holds_expression(e),
    ensures
        evolves(*old(ast), *final(ast)),
        V::expression_walked(
            stage(*old(visitor), *old(ast)),
            e,
            stage(*final(visitor), *final(ast)),
            result,
        ),
    decreases height(old(ast).exprs(), e),
{
    let ghost s0 = stage(*visitor, *ast);
    let r1 = visitor.visit_expression(ast, e, Moment::Enter);
    let ghost s1 = stage(*visitor, *ast);
    if r1.is_err() {
        proof {
            V::lemma_leaf_walked(e, s0, s1, r1, s1, r1);
        }
        return r1;
    }
    proof {
        lemma_evolves_expression(s0.ast, s1.ast, e);
        lemma_height(s1.ast.exprs(), e);
    }
    match ast.expr(e).split() {
        None => {
            let r2 = visitor.visit_expression(ast, e, Moment::Leave);
            proof {
                let s2 = stage(*visitor, *ast);
                lemma_evolves_transitive(s0.ast, s1.ast, s2.ast);
                V::lemma_leaf_walked(e, s0, s1, r1, s2, r2);
            }
            r2
        },
        Some((_, l, r)) => {
            proof {
                lemma_operands(s1.ast.exprs(), e, l, r);
            }
            let r2 = walk_expression(visitor, ast, l);
            let ghost s2 = stage(*visitor, *ast);
            proof {
                lemma_evolves_transitive(s0.ast, s1.ast, s2.ast);
            }
            if r2.is_err() {
                proof {
                    V::lemma_binary_walked(e, l, r, s0, s1, r1, s2, r2, s2, r2, s2, r2, s2, r2);
                }
                return r2;
            }
            proof {
                lemma_evolves_expression(s1.ast, s2.ast, e);
            }
            let r3 = visitor.visit_expression(ast, e, Moment::Between);
            let ghost s3 = stage(*visitor, *ast);
            proof {
                lemma_evolves_transitive(s0.ast, s2.ast, s3.ast);
            }
            if r3.is_err() {
                proof {
                    V::lemma_binary_walked(e, l, r, s0, s1, r1, s2, r2, s3, r3, s3, r3, s3, r3);
                }
                return r3;
            }
            proof {
                lemma_evolves_transitive(s1.ast, s2.ast, s3.ast);
                lemma_evolves_expression(s1.ast, s3.ast, r);
                lemma_evolves_expression(s1.ast, s3.ast, e);
            }
            let r4 = walk_expression(visitor, ast, r);
            let ghost s4 = stage(*visitor, *ast);
            proof {
                lemma_evolves_transitive(s0.ast, s3.ast, s4.ast);
            }
            if r4.is_err() {
                proof {
                    V::lemma_binary_walked(e, l, r, s0, s1, r1, s2, r2, s3, r3, s4, r4, s4, r4);
                }
                return r4;
            }
            proof {
                lemma_evolves_transitive(s1.ast, s3.ast, s4.ast);
                lemma_evolves_expression(s1.ast, s4.ast, e);
            }
            let r5 = visitor.visit_expression(ast, e, Moment::Leave);
            proof {
                let s5 = stage(*visitor, *ast);
                lemma_evolves_transitive(s0.ast, s4.ast, s5.ast);
                V::lemma_binary_walked(e, l, r, s0, s1, r1, s2, r2, s3, r3, s4, r4, s5, r5);
            }
            r5
        },
    }
}

/// Walks the declaration `d`: the pass is called on entering it, its initializer is
/// walked, and the pass is called on leaving it.
pub fn walk_declaration<T: Default, E, V: Visitor<T, E>>(
    visitor: &mut V,
    ast: &mut Ast,
    d: DeclarationKey,
) -> (result: Result<T, E>)
    requires
        old(ast).holds_declaration(d),
    ensures
        evolves(*old(ast), *final(ast)),
        V::declaration_walked(
            stage(*old(visitor), *old(ast)),
            d,
            stage(*final(visitor), *final(ast)),
            result,
        ),
{
    let ghost s0 = stage(*visitor, *ast);
    let r1 = visitor.visit_declaration(ast, d, Moment::Enter);
    let ghost s1 = stage(*visitor, *ast);
    if r1.is_err() {
        proof {
            V::lemma_declaration_walked(d, s0, s1, r1, s1, r1, s1, r1);
        }
        return r1;
    }
    proof {
        lemma_evolves_declaration(s0.ast, s1.ast, d);
    }
    let init = ast.decl(d).val;
    let r2 = walk_expression(visitor, ast, init);
    let ghost s2 = stage(*visitor, *ast);
    proof {
        lemma_evolves_transitive(s0.ast, s1.ast, s2.ast);
    }
    if r2.is_err() {
        proof {
            V::lemma_declaration_walked(d, s0, s1, r1, s2, r2, s2, r2);
        }
        return r2;
    }
    proof {
        lemma_evolves_declaration(s0.ast, s2.ast, d);
    }
    let r3 = visitor.visit_declaration(ast, d, Moment::Leave);
    proof {
        let s3 = stage(*visitor, *ast);
        lemma_evolves_transitive(s0.ast, s2.ast, s3.ast);
        V::lemma_declaration_walked(d, s0, s1, r1, s2, r2, s3, r3);
    }
    r3
}

/// Walks the statement `s`: the pass is called on entering it, the declaration or the
/// expression that it holds is walked, and the pass is called on leaving it.
pub fn walk_statement<T: Default, E, V: Visitor<T, E>>(
    visitor: &mut V,
    ast: &mut Ast,
    s: StatementKey,
) -> (result: Result<T, E>)
    requires
        old(ast).holds_statement(s),
    ensures
        evolves(*old(ast), *final(ast)),
        V::statement_walked(
            stage(*old(visitor), *old(ast)),
            s,
            stage(*final(visitor), *final(ast)),
            result,
        ),
{
    let ghost s0 = stage(*visitor, *ast);
    let r1 = visitor.visit_statement(ast, s, Moment::Enter);
    let ghost s1 = stage(*visitor, *ast);
    if r1.is_err() {
        proof {
            V::lemma_statement_walked(s, s0, s1, r1, s1, r1, s1, r1);
        }
        return r1;
    }
    proof {
        lemma_evolves_statement(s0.ast, s1.ast, s);
    }
    let r2 = match ast.stmt(s) {
        Statement::Decl(d) => {
            let d = *d;
            walk_declaration(visitor, ast, d)
        },
        Statement::Print(e) => {
            let e = *e;
            walk_expression(visitor, ast, e)
        },
    };
    let ghost s2 = stage(*visitor, *ast);
    proof {
        lemma_evolves_transitive(s0.ast, s1.ast, s2.ast);
    }
    if r2.is_err() {
        proof {
            V::lemma_statement_walked(s, s0, s1, r1, s2, r2, s2, r2);
        }
        return r2;
    }
    proof {
        lemma_evolves_statement(s0.ast, s2.ast, s);
    }
    let r3 = visitor.visit_statement(ast, s, Moment::Leave);
    proof {
        let s3 = stage(*visitor, *ast);
        lemma_evolves_transitive(s0.ast, s2.ast, s3.ast);
        V::lemma_statement_walked(s, s0, s1, r1, s2, r2, s3, r3);
    }
    r3
}

/// Once a walk of statements has failed, the statements that follow change nothing.
proof fn lemma_rest_skipped<T: Default, E, V: Visitor<T, E>>(
    program: Seq<StatementKey>,
    done: int,
    s0: Stage<V>,
    s1: Stage<V>,
    error: E,
)
    requires
        0 <= done <= program.len(),
        s0.ast.holds_program(program),
        evolves(s0.ast, s1.ast),
        V::program_walked(s0, program.take(done), s1, Some(error)),
    ensures
        V::program_walked(s0, program, s1, Some(error)),
    decreases program.len() - done,
{
    if done == program.len() {
        assert(program.take(done) =~= program);
    } else {
        assert(program.take(done).push(program[done]) =~= program.take(done + 1));
        assert forall|i: int| 0 <= i < program.take(done + 1).len() implies s0.ast.holds_statement(
            #[trigger] program.take(done + 1)[i],
        ) by {
            assert(program.take(done + 1)[i] == program[i]);
        }
        V::lemma_more_walked(
            program.take(done),
            program[done],
            s0,
            s1,
            Some(error),
            s1,
            Err(error),
        );
        lemma_rest_skipped::<T, E, V>(program, done + 1, s0, s1, error);
    }
}

/// Walks the statements of `p` in their order. The first error ends the walk and is
/// returned; a walk that fails nowhere returns the default value.
pub fn walk_program<T: Default, E, V: Visitor<T, E>>(
    visitor: &mut V,
    ast: &mut Ast,
    p: &Vec<StatementKey>,
) -> (result: Result<T, E>)
    requires
        old(ast).holds_program(p@),
    ensures
        evolves(*old(ast), *final(ast)),
        V::program_walked(
            stage(*old(visitor), *old(ast)),
            p@,
            stage(*final(visitor), *final(ast)),
            failure(result),
        ),
        result matches Ok(value) ==> call_ensures(T::default, (), value),
{
    let ghost s0 = stage(*visitor, *ast);
    proof {
        lemma_evolves_reflexive(s0.ast);
        V::lemma_nothing_walked(s0);
        assert(p@.take(0) =~= Seq::<StatementKey>::empty());
    }
    let mut i: usize = 0;
    while i < p.len()
        invariant
            i <= p.len(),
            s0 == stage(*old(visitor), *old(ast)),
            s0.ast.holds_program(p@),
            evolves(s0.ast, *ast),
            V::program_walked(s0, p@.take(i as int), stage(*visitor, *ast), None),
        decreases p.len() - i,
    {
        let ghost s1 = stage(*visitor, *ast);
        proof {
            lemma_evolves_program(s0.ast, s1.ast, p@);
        }
        let r2 = walk_statement(visitor, ast, p[i]);
        proof {
            let s2 = stage(*visitor, *ast);
            lemma_evolves_transitive(s0.ast, s1.ast, s2.ast);
            assert(p@.take(i as int).push(p@[i as int]) =~= p@.take(i + 1));
            assert forall|j: int| 0 <= j < p@.take(i + 1).len() implies s0.ast.holds_statement(
                #[trigger] p@.take(i + 1)[j],
            ) by {
                assert(p@.take(i + 1)[j] == p@[j]);
            }
            V::lemma_more_walked(p@.take(i as int), p@[i as int], s0, s1, None, s2, r2);
        }
        match r2 {
            Ok(_) => {},
            Err(error) => {
                proof {
                    lemma_rest_skipped::<T, E, V>(p@, i + 1, s0, stage(*visitor, *ast), error);
                }
                return Err(error);
            },
        }
        i = i + 1;
    }
    proof {
        assert(p@.take(i as int) =~= p@);
    }
    Ok(T::default())
}

} // verus!
