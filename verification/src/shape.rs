//! The shape of the expressions in a store: which keys lead to a finite tree, how high
//! that tree is, and which nodes it holds.

use crate::ast::{Ast, DeclarationKey, Expression, ExpressionKey, Statement, StatementKey};
use vstd::prelude::*;

verus! {

/// The expressions of a store, by key.
pub type Nodes = Map<ExpressionKey, Expression>;

/// Every path down from `e` ends in a literal or a variable after at most `depth`
/// steps, and every key on the way is in `nodes`.
pub open spec fn bounded(nodes: Nodes, e: ExpressionKey, depth: nat) -> bool
    decreases depth,
{
    &&& nodes.dom().contains(e)
    &&& match nodes[e].operands() {
        Some((l, r)) => depth > 0 && bounded(nodes, l, (depth - 1) as nat) && bounded(
            nodes,
            r,
            (depth - 1) as nat,
        ),
        None => true,
    }
}

/// `e` is the root of a finite expression: no key below it dangles, and no path from it
/// comes back to a node it has passed.
#[verifier::opaque]
pub open spec fn rooted(nodes: Nodes, e: ExpressionKey) -> bool {
    exists|depth: nat| bounded(nodes, e, depth)
}

/// The length of the longest path down from `e`.
#[verifier::opaque]
pub open spec fn height(nodes: Nodes, e: ExpressionKey) -> nat {
    choose|h: nat| bounded(nodes, e, h) && forall|d: nat| bounded(nodes, e, d) ==> h <= d
}

proof fn lemma_least_bound(nodes: Nodes, e: ExpressionKey, depth: nat)
    requires
        bounded(nodes, e, depth),
    ensures
        exists|h: nat| bounded(nodes, e, h) && forall|d: nat| bounded(nodes, e, d) ==> h <= d,
    decreases depth,
{
    if exists|d: nat| d < depth && bounded(nodes, e, d) {
        let d = choose|d: nat| d < depth && bounded(nodes, e, d);
        lemma_least_bound(nodes, e, d);
    } else {
        assert(forall|d: nat| bounded(nodes, e, d) ==> depth <= d);
    }
}

/// An expression with a bound on its depth is rooted.
pub proof fn lemma_rooted(nodes: Nodes, e: ExpressionKey, depth: nat)
    requires
        bounded(nodes, e, depth),
    ensures
        rooted(nodes, e),
{
    reveal(rooted);
}

/// The height of a rooted expression is the least bound on its depth.
pub proof fn lemma_height(nodes: Nodes, e: ExpressionKey)
    requires
        rooted(nodes, e),
    ensures
        bounded(nodes, e, height(nodes, e)),
        forall|d: nat| bounded(nodes, e, d) ==> height(nodes, e) <= d,
        nodes.dom().contains(e),
{
    reveal(rooted);
    reveal(height);
    let depth = choose|depth: nat| bounded(nodes, e, depth);
    lemma_least_bound(nodes, e, depth);
}

/// The operands of a rooted expression are rooted, and lower than it.
pub proof fn lemma_operands(nodes: Nodes, e: ExpressionKey, l: ExpressionKey, r: ExpressionKey)
    requires
        rooted(nodes, e),
        nodes[e].operands() == Some((l, r)),
    ensures
        rooted(nodes, l),
        rooted(nodes, r),
        height(nodes, l) < height(nodes, e),
        height(nodes, r) < height(nodes, e),
{
    lemma_height(nodes, e);
    let h = height(nodes, e);
    assert(bounded(nodes, l, (h - 1) as nat));
    assert(bounded(nodes, r, (h - 1) as nat));
    lemma_rooted(nodes, l, (h - 1) as nat);
    lemma_rooted(nodes, r, (h - 1) as nat);
    lemma_height(nodes, l);
    lemma_height(nodes, r);
}

/// `k` is `e` or a node below it.
pub open spec fn reaches(nodes: Nodes, e: ExpressionKey, k: ExpressionKey) -> bool
    decreases height(nodes, e),
    when rooted(nodes, e)
    via reaches_decreases
{
    e == k || match nodes[e].operands() {
        Some((l, r)) => reaches(nodes, l, k) || reaches(nodes, r, k),
        None => false,
    }
}

#[via_fn]
proof fn reaches_decreases(nodes: Nodes, e: ExpressionKey, k: ExpressionKey) {
    if let Some((l, r)) = nodes[e].operands() {
        lemma_operands(nodes, e, l, r);
    }
}

/// What an expression reaches is rooted, and no higher than it.
pub proof fn lemma_reaches(nodes: Nodes, e: ExpressionKey, k: ExpressionKey)
    requires
        rooted(nodes, e),
        reaches(nodes, e, k),
    ensures
        rooted(nodes, k),
        height(nodes, k) <= height(nodes, e),
    decreases height(nodes, e),
{
    if e != k {
        match nodes[e].operands() {
            Some((l, r)) => {
                lemma_operands(nodes, e, l, r);
                if reaches(nodes, l, k) {
                    lemma_reaches(nodes, l, k);
                } else {
                    lemma_reaches(nodes, r, k);
                }
            },
            None => {},
        }
    }
}

/// An expression reaches the operands of every node that it reaches.
pub proof fn lemma_reaches_operands(
    nodes: Nodes,
    e: ExpressionKey,
    k: ExpressionKey,
    l: ExpressionKey,
    r: ExpressionKey,
)
    requires
        rooted(nodes, e),
        reaches(nodes, e, k),
        nodes[k].operands() == Some((l, r)),
    ensures
        reaches(nodes, e, l),
        reaches(nodes, e, r),
    decreases height(nodes, e),
{
    if e == k {
        lemma_operands(nodes, e, l, r);
        assert(reaches(nodes, l, l));
        assert(reaches(nodes, r, r));
    } else {
        match nodes[e].operands() {
            Some((a, b)) => {
                lemma_operands(nodes, e, a, b);
                if reaches(nodes, a, k) {
                    lemma_reaches_operands(nodes, a, k, l, r);
                } else {
                    lemma_reaches_operands(nodes, b, k, l, r);
                }
            },
            None => {},
        }
    }
}

/// Every expression that was rooted in `before` is rooted in `after`, and no higher.
#[verifier::opaque]
pub open spec fn keeps_shape(before: Nodes, after: Nodes) -> bool {
    forall|e: ExpressionKey, depth: nat| #[trigger]
        bounded(before, e, depth) ==> bounded(after, e, depth)
}

/// What `keeps_shape` says of one expression.
pub proof fn lemma_keeps_shape(before: Nodes, after: Nodes, e: ExpressionKey)
    requires
        keeps_shape(before, after),
        rooted(before, e),
    ensures
        rooted(after, e),
        height(after, e) <= height(before, e),
{
    reveal(keeps_shape);
    lemma_height(before, e);
    assert(bounded(after, e, height(before, e)));
    lemma_rooted(after, e, height(before, e));
    lemma_height(after, e);
}

proof fn lemma_leaf_keeps_bound(
    nodes: Nodes,
    at: ExpressionKey,
    leaf: Expression,
    e: ExpressionKey,
    depth: nat,
)
    requires
        nodes.dom().contains(at),
        leaf.operands() is None,
        bounded(nodes, e, depth),
    ensures
        bounded(nodes.insert(at, leaf), e, depth),
    decreases depth,
{
    if e != at {
        if let Some((l, r)) = nodes[e].operands() {
            lemma_leaf_keeps_bound(nodes, at, leaf, l, (depth - 1) as nat);
            lemma_leaf_keeps_bound(nodes, at, leaf, r, (depth - 1) as nat);
        }
    }
}

/// Replacing a node by a literal or a variable keeps the shape.
pub proof fn lemma_leaf_keeps_shape(nodes: Nodes, at: ExpressionKey, leaf: Expression)
    requires
        nodes.dom().contains(at),
        leaf.operands() is None,
    ensures
        keeps_shape(nodes, nodes.insert(at, leaf)),
{
    reveal(keeps_shape);
    assert forall|e: ExpressionKey, depth: nat| #[trigger]
        bounded(nodes, e, depth) implies bounded(nodes.insert(at, leaf), e, depth) by {
        lemma_leaf_keeps_bound(nodes, at, leaf, e, depth);
    }
}

impl Ast {
    /// `e` is the root of a finite expression of this store.
    pub open spec fn holds_expression(&self, e: ExpressionKey) -> bool {
        rooted(self.exprs(), e)
    }

    /// `d` is a declaration of this store, and so is all of its initializer.
    pub open spec fn holds_declaration(&self, d: DeclarationKey) -> bool {
        self.decls().dom().contains(d) && self.holds_expression(self.decls()[d].val)
    }

    /// `s` is a statement of this store, and so is all that it refers to.
    pub open spec fn holds_statement(&self, s: StatementKey) -> bool {
        self.stmts().dom().contains(s) && match self.stmts()[s] {
            Statement::Decl(d) => self.holds_declaration(d),
            Statement::Print(e) => self.holds_expression(e),
        }
    }

    /// Every statement of `program` is one of this store, and so is all that it refers to.
    pub open spec fn holds_program(&self, program: Seq<StatementKey>) -> bool {
        forall|i: int| 0 <= i < program.len() ==> self.holds_statement(#[trigger] program[i])
    }

    /// The expression that a statement evaluates: the initializer of its declaration, or
    /// what it prints.
    pub open spec fn subject(&self, s: StatementKey) -> ExpressionKey {
        match self.stmts()[s] {
            Statement::Decl(d) => self.decls()[d].val,
            Statement::Print(e) => e,
        }
    }

    /// The statement at `s` is one of this store, and what it evaluates is an expression
    /// of this store that is nowhere deeper than `depth`.
    pub open spec fn statement_within(&self, s: StatementKey, depth: nat) -> bool {
        self.stmts().dom().contains(s) && match self.stmts()[s] {
            Statement::Decl(d) => self.decls().dom().contains(d) && bounded(
                self.exprs(),
                self.decls()[d].val,
                depth,
            ),
            Statement::Print(e) => bounded(self.exprs(), e, depth),
        }
    }

    /// Every statement of `program` is within `depth`.
    pub open spec fn program_within(&self, program: Seq<StatementKey>, depth: nat) -> bool {
        forall|i: int|
            0 <= i < program.len() ==> self.statement_within(#[trigger] program[i], depth)
    }

    /// Tests whether `e` is the root of an expression of this store that is nowhere
    /// deeper than `depth`: no key in it dangles, and every path down from `e` ends
    /// within `depth` steps.
    pub fn check_expression(&self, e: ExpressionKey, depth: usize) -> (ok: bool)
        ensures
            ok == bounded(self.exprs(), e, depth as nat),
            ok ==> self.holds_expression(e),
        decreases depth,
    {
        let ok = match self.get_expr(e) {
            None => false,
            Some(node) => match node.split() {
                None => true,
                Some((_, l, r)) => depth > 0 && self.check_expression(l, depth - 1)
                    && self.check_expression(r, depth - 1),
            },
        };
        proof {
            if ok {
                lemma_rooted(self.exprs(), e, depth as nat);
            }
        }
        ok
    }

    /// Tests whether `s` is a statement of this store that is within `depth`.
    pub fn check_statement(&self, s: StatementKey, depth: usize) -> (ok: bool)
        ensures
            ok == self.statement_within(s, depth as nat),
            ok ==> self.holds_statement(s),
    {
        match self.get_stmt(s) {
            None => false,
            Some(Statement::Decl(d)) => match self.get_decl(*d) {
                None => false,
                Some(decl) => self.check_expression(decl.val, depth),
            },
            Some(Statement::Print(e)) => self.check_expression(*e, depth),
        }
    }

    /// Tests whether every statement of `program` is a statement of this store that is
    /// within `depth`. A program that passes can be walked.
    pub fn check_program(&self, program: &Vec<StatementKey>, depth: usize) -> (ok: bool)
        ensures
            ok == self.program_within(program@, depth as nat),
            ok ==> self.holds_program(program@),
    {
        let mut i: usize = 0;
        while i < program.len()
            invariant
                i <= program.len(),
                forall|j: int|
                    0 <= j < i ==> self.statement_within(#[trigger] program@[j], depth as nat),
                forall|j: int| 0 <= j < i ==> self.holds_statement(#[trigger] program@[j]),
            decreases program.len() - i,
        {
            if !self.check_statement(program[i], depth) {
                return false;
            }
            i = i + 1;
        }
        true
    }
}

/// Every entry of `before` is one of `after`.
pub open spec fn kept<K, V>(before: Map<K, V>, after: Map<K, V>) -> bool {
    forall|k: K| #[trigger]
        before.dom().contains(k) ==> after.dom().contains(k) && after[k] == before[k]
}

/// What a traversal may do to a store: declarations and statements stay as they are
/// (more may come), and expressions keep their shape.
pub open spec fn evolves(before: Ast, after: Ast) -> bool {
    &&& keeps_shape(before.exprs(), after.exprs())
    &&& kept(before.decls(), after.decls())
    &&& kept(before.stmts(), after.stmts())
}

/// A store evolves into itself.
pub proof fn lemma_evolves_reflexive(ast: Ast)
    ensures
        evolves(ast, ast),
{
    reveal(keeps_shape);
}

/// A store whose nodes are as before has evolved.
pub proof fn lemma_evolves_same(before: Ast, after: Ast)
    requires
        after.exprs() == before.exprs(),
        after.decls() == before.decls(),
        after.stmts() == before.stmts(),
    ensures
        evolves(before, after),
{
    reveal(keeps_shape);
}

/// A store in which only the shape-keeping expressions differ has evolved.
pub proof fn lemma_evolves_shape(before: Ast, after: Ast)
    requires
        keeps_shape(before.exprs(), after.exprs()),
        after.decls() == before.decls(),
        after.stmts() == before.stmts(),
    ensures
        evolves(before, after),
{
}

/// Evolving twice is evolving.
pub proof fn lemma_evolves_transitive(first: Ast, second: Ast, third: Ast)
    requires
        evolves(first, second),
        evolves(second, third),
    ensures
        evolves(first, third),
{
    reveal(keeps_shape);
    assert forall|e: ExpressionKey, depth: nat| #[trigger]
        bounded(first.exprs(), e, depth) implies bounded(third.exprs(), e, depth) by {
        assert(bounded(second.exprs(), e, depth));
    }
}

/// An expression that a store held before it evolved, it holds after, and no higher.
pub proof fn lemma_evolves_expression(before: Ast, after: Ast, e: ExpressionKey)
    requires
        evolves(before, after),
        before.holds_expression(e),
    ensures
        after.holds_expression(e),
        height(after.exprs(), e) <= height(before.exprs(), e),
{
    lemma_keeps_shape(before.exprs(), after.exprs(), e);
}

/// A declaration that a store held before it evolved, it holds after, unchanged.
pub proof fn lemma_evolves_declaration(before: Ast, after: Ast, d: DeclarationKey)
    requires
        evolves(before, after),
        before.holds_declaration(d),
    ensures
        after.holds_declaration(d),
        after.decls()[d] == before.decls()[d],
{
    lemma_evolves_expression(before, after, before.decls()[d].val);
}

/// A statement that a store held before it evolved, it holds after, unchanged.
pub proof fn lemma_evolves_statement(before: Ast, after: Ast, s: StatementKey)
    requires
        evolves(before, after),
        before.holds_statement(s),
    ensures
        after.holds_statement(s),
        after.stmts()[s] == before.stmts()[s],
        after.subject(s) == before.subject(s),
{
    match before.stmts()[s] {
        Statement::Decl(d) => {
            lemma_evolves_declaration(before, after, d);
        },
        Statement::Print(e) => {
            lemma_evolves_expression(before, after, e);
        },
    }
}

/// A program that a store held before it evolved, it holds after.
pub proof fn lemma_evolves_program(before: Ast, after: Ast, program: Seq<StatementKey>)
    requires
        evolves(before, after),
        before.holds_program(program),
    ensures
        after.holds_program(program),
{
    assert forall|i: int| 0 <= i < program.len() implies after.holds_statement(
        #[trigger] program[i],
    ) by {
        lemma_evolves_statement(before, after, program[i]);
    }
}

} // verus!
