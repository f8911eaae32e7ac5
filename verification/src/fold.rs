//! Constant folding: a pass that replaces every operation on two literals by the
//! literal of its value, in place and from the leaves up.

use crate::ast::{Ast, DeclarationKey, Expression, ExpressionKey, Operator, StatementKey};
use crate::error::PassError;
use crate::shape::{
    bounded,
    height,
    keeps_shape,
    lemma_evolves_same,
    lemma_evolves_shape,
    lemma_height,
    lemma_keeps_shape,
    lemma_leaf_keeps_shape,
    lemma_operands,
    lemma_reaches,
    lemma_reaches_operands,
    reaches,
    rooted,
    Nodes,
};
use crate::visit::{walk_program, Moment, Stage, Visitor};
use vstd::prelude::*;

verus! {

/// What an operator gives for two numbers: nothing where the result does not fit in
/// 32 bits or falls below zero, and nothing for a division by zero.
pub open spec fn applied(op: Operator, a: u32, b: u32) -> Option<u32> {
    match op {
        Operator::Plus => if a + b <= u32::MAX {
            Some((a + b) as u32)
        } else {
            None
        },
        Operator::Minus => if a >= b {
            Some((a - b) as u32)
        } else {
            None
        },
        Operator::Times => if a * b <= u32::MAX {
            Some((a * b) as u32)
        } else {
            None
        },
        Operator::Div => if b != 0 {
            Some(a / b)
        } else {
            None
        },
    }
}

/// Computes `applied`.
pub fn apply(op: Operator, a: u32, b: u32) -> (value: Option<u32>)
    ensures
        value == applied(op, a, b),
{
    match op {
        Operator::Plus => a.checked_add(b),
        Operator::Minus => a.checked_sub(b),
        Operator::Times => a.checked_mul(b),
        Operator::Div => a.checked_div(b),
    }
}

/// What an expression comes to when its constants are folded.
pub enum Folded {
    /// All of it is constant, with this value.
    Value(u32),
    /// It reads a variable, so it has no value yet.
    Open,
    /// An operation in it has no value.
    Fault,
}

/// What a binary expression comes to, given what its operands come to.
pub open spec fn combined(op: Operator, left: Folded, right: Folded) -> Folded {
    match (left, right) {
        (Folded::Fault, _) => Folded::Fault,
        (_, Folded::Fault) => Folded::Fault,
        (Folded::Value(a), Folded::Value(b)) => match applied(op, a, b) {
            Some(value) => Folded::Value(value),
            None => Folded::Fault,
        },
        _ => Folded::Open,
    }
}

/// What the expression at `e` comes to.
pub open spec fn folded(nodes: Nodes, e: ExpressionKey) -> Folded
    decreases height(nodes, e),
    when rooted(nodes, e)
    via folded_decreases
{
    match nodes[e].operands() {
        Some((l, r)) => combined(nodes[e].operator().unwrap(), folded(nodes, l), folded(nodes, r)),
        None => match nodes[e].literal() {
            Some(value) => Folded::Value(value),
            None => Folded::Open,
        },
    }
}

#[via_fn]
proof fn folded_decreases(nodes: Nodes, e: ExpressionKey) {
    if let Some((l, r)) = nodes[e].operands() {
        lemma_operands(nodes, e, l, r);
    }
}

/// The expression at `e` has an operation without a value in it.
pub open spec fn faults(nodes: Nodes, e: ExpressionKey) -> bool {
    folded(nodes, e) is Fault
}

/// The pass, when it folds the expression at `e`, gets to leave the node `k`: `k` is a
/// node of the expression, and no operation that comes before it, from the leaves up
/// and from left to right, is without a value.
pub open spec fn leaves(nodes: Nodes, e: ExpressionKey, k: ExpressionKey) -> bool
    decreases height(nodes, e),
    when rooted(nodes, e)
    via leaves_decreases
{
    match nodes[e].operands() {
        Some((l, r)) => leaves(nodes, l, k) || (!faults(nodes, l) && (leaves(nodes, r, k) || (
        !faults(nodes, r) && e == k))),
        None => e == k,
    }
}

#[via_fn]
proof fn leaves_decreases(nodes: Nodes, e: ExpressionKey, k: ExpressionKey) {
    if let Some((l, r)) = nodes[e].operands() {
        lemma_operands(nodes, e, l, r);
    }
}

/// The nodes that the pass gets to leave when it folds the expression at `e`: all nodes
/// of the expression, unless an operation in it is without a value.
pub open spec fn done(nodes: Nodes, e: ExpressionKey) -> Set<ExpressionKey> {
    Set::new(|k: ExpressionKey| leaves(nodes, e, k))
}

/// The nodes that the pass gets to leave when it folds the expressions at `roots`, one
/// after the other, up to one that has an operation without a value in it.
pub open spec fn done_all(nodes: Nodes, roots: Seq<ExpressionKey>) -> Set<ExpressionKey>
    decreases roots.len(),
{
    if roots.len() == 0 {
        Set::empty()
    } else if faulty(nodes, roots.drop_last()) {
        done_all(nodes, roots.drop_last())
    } else {
        done_all(nodes, roots.drop_last()).union(done(nodes, roots.last()))
    }
}

/// What the node at `k` holds once it is folded: the literal of its value if it has
/// one, and what it held before if not.
pub open spec fn form(nodes: Nodes, k: ExpressionKey) -> Expression {
    if rooted(nodes, k) && folded(nodes, k) is Value {
        Expression::Literal(folded(nodes, k)->Value_0)
    } else {
        nodes[k]
    }
}

/// The store in which the nodes of `region` are folded, and all others are as before.
pub open spec fn folded_where(nodes: Nodes, region: Set<ExpressionKey>) -> Nodes {
    Map::new(
        |k: ExpressionKey| nodes.dom().contains(k),
        |k: ExpressionKey|
            if region.contains(k) {
                form(nodes, k)
            } else {
                nodes[k]
            },
    )
}

/// The nodes of the expression at `e`: `e` and all below it.
pub open spec fn below(nodes: Nodes, e: ExpressionKey) -> Set<ExpressionKey> {
    Set::new(|k: ExpressionKey| reaches(nodes, e, k))
}

/// The store after folding the expression at `e`: every node that the pass gets to
/// leave, and that has a value, holds the literal of it, and every other node of the
/// store is as before.
pub open spec fn folded_nodes(nodes: Nodes, e: ExpressionKey) -> Nodes {
    folded_where(nodes, done(nodes, e))
}

/// The store after folding the expressions at `roots`, one after the other.
pub open spec fn folded_all(nodes: Nodes, roots: Seq<ExpressionKey>) -> Nodes {
    folded_where(nodes, done_all(nodes, roots))
}

/// One of the expressions at `roots` has an operation without a value in it.
pub open spec fn faulty(nodes: Nodes, roots: Seq<ExpressionKey>) -> bool {
    exists|i: int| 0 <= i < roots.len() && faults(nodes, #[trigger] roots[i])
}

/// `after` is `before` with some of the nodes that have a value replaced by the
/// literal of it.
pub open spec fn partly_folded(before: Nodes, after: Nodes) -> bool {
    &&& after.dom() == before.dom()
    &&& forall|k: ExpressionKey| #[trigger]
        before.dom().contains(k) ==> after[k] == before[k] || after[k] == form(before, k)
}

/// `c` is an operand of the node at `k`.
pub open spec fn operand_of(nodes: Nodes, k: ExpressionKey, c: ExpressionKey) -> bool {
    match nodes[k].operands() {
        Some((l, r)) => c == l || c == r,
        None => false,
    }
}

/// With every node of `region`, the region holds the operands of the node.
pub open spec fn closed(nodes: Nodes, region: Set<ExpressionKey>) -> bool {
    forall|k: ExpressionKey, c: ExpressionKey|
        region.contains(k) && #[trigger] operand_of(nodes, k, c) ==> region.contains(c)
}

proof fn lemma_partly_keeps_bound(before: Nodes, after: Nodes, e: ExpressionKey, depth: nat)
    requires
        partly_folded(before, after),
        bounded(before, e, depth),
    ensures
        bounded(after, e, depth),
    decreases depth,
{
    assert(before.dom().contains(e));
    if after[e] == before[e] {
        if let Some((l, r)) = before[e].operands() {
            lemma_partly_keeps_bound(before, after, l, (depth - 1) as nat);
            lemma_partly_keeps_bound(before, after, r, (depth - 1) as nat);
        }
    }
}

/// Folding part of a store keeps the shape.
pub proof fn lemma_partly_keeps_shape(before: Nodes, after: Nodes)
    requires
        partly_folded(before, after),
    ensures
        keeps_shape(before, after),
{
    reveal(keeps_shape);
    assert forall|e: ExpressionKey, depth: nat| #[trigger]
        bounded(before, e, depth) implies bounded(after, e, depth) by {
        lemma_partly_keeps_bound(before, after, e, depth);
    }
}

/// Folding part of a store changes what no expression comes to.
pub proof fn lemma_partly_same_value(before: Nodes, after: Nodes, e: ExpressionKey)
    requires
        partly_folded(before, after),
        rooted(before, e),
    ensures
        rooted(after, e),
        folded(after, e) == folded(before, e),
    decreases height(before, e),
{
    lemma_partly_keeps_shape(before, after);
    lemma_keeps_shape(before, after, e);
    lemma_height(before, e);
    assert(before.dom().contains(e));
    if after[e] == before[e] {
        if let Some((l, r)) = before[e].operands() {
            lemma_operands(before, e, l, r);
            lemma_partly_same_value(before, after, l);
            lemma_partly_same_value(before, after, r);
        }
    }
}

/// A store with a region folded is partly folded.
pub proof fn lemma_folded_where_partly(nodes: Nodes, region: Set<ExpressionKey>)
    ensures
        partly_folded(nodes, folded_where(nodes, region)),
{
    assert(folded_where(nodes, region).dom() =~= nodes.dom());
}

/// The pass leaves only nodes of the expression.
pub proof fn lemma_leaves_reaches(nodes: Nodes, e: ExpressionKey, k: ExpressionKey)
    requires
        rooted(nodes, e),
        leaves(nodes, e, k),
    ensures
        reaches(nodes, e, k),
    decreases height(nodes, e),
{
    if let Some((l, r)) = nodes[e].operands() {
        lemma_operands(nodes, e, l, r);
        if leaves(nodes, l, k) {
            lemma_leaves_reaches(nodes, l, k);
        } else if leaves(nodes, r, k) {
            lemma_leaves_reaches(nodes, r, k);
        }
    }
}

/// Where every operation has a value, the pass leaves every node of the expression.
pub proof fn lemma_leaves_all(nodes: Nodes, e: ExpressionKey, k: ExpressionKey)
    requires
        rooted(nodes, e),
        !faults(nodes, e),
        reaches(nodes, e, k),
    ensures
        leaves(nodes, e, k),
    decreases height(nodes, e),
{
    if let Some((l, r)) = nodes[e].operands() {
        lemma_operands(nodes, e, l, r);
        if reaches(nodes, l, k) {
            lemma_leaves_all(nodes, l, k);
        } else if reaches(nodes, r, k) {
            lemma_leaves_all(nodes, r, k);
        }
    }
}

/// Where every operation has a value, the pass leaves the nodes of the expression,
/// which are a closed region.
pub proof fn lemma_done_is_below(nodes: Nodes, e: ExpressionKey)
    requires
        rooted(nodes, e),
        !faults(nodes, e),
    ensures
        done(nodes, e) == below(nodes, e),
        closed(nodes, done(nodes, e)),
{
    assert forall|k: ExpressionKey| leaves(nodes, e, k) <==> reaches(nodes, e, k) by {
        if leaves(nodes, e, k) {
            lemma_leaves_reaches(nodes, e, k);
        }
        if reaches(nodes, e, k) {
            lemma_leaves_all(nodes, e, k);
        }
    }
    assert(done(nodes, e) =~= below(nodes, e));
    assert forall|k: ExpressionKey, c: ExpressionKey|
        below(nodes, e).contains(k) && #[trigger] operand_of(nodes, k, c) implies below(
        nodes,
        e,
    ).contains(c) by {
        if let Some((l, r)) = nodes[k].operands() {
            lemma_reaches_operands(nodes, e, k, l, r);
        }
    }
}

/// A closed region holds all that its nodes reach.
pub proof fn lemma_closed_reaches(
    nodes: Nodes,
    region: Set<ExpressionKey>,
    e: ExpressionKey,
    k: ExpressionKey,
)
    requires
        closed(nodes, region),
        region.contains(e),
        rooted(nodes, e),
        reaches(nodes, e, k),
    ensures
        region.contains(k),
    decreases height(nodes, e),
{
    if e != k {
        match nodes[e].operands() {
            Some((l, r)) => {
                lemma_operands(nodes, e, l, r);
                assert(operand_of(nodes, e, l) && operand_of(nodes, e, r));
                if reaches(nodes, l, k) {
                    lemma_closed_reaches(nodes, region, l, k);
                } else {
                    lemma_closed_reaches(nodes, region, r, k);
                }
            },
            None => {},
        }
    }
}

/// What the pass leaves after part of the store was folded, it would have left before.
pub proof fn lemma_leaves_back(before: Nodes, after: Nodes, e: ExpressionKey, k: ExpressionKey)
    requires
        partly_folded(before, after),
        rooted(before, e),
        leaves(after, e, k),
    ensures
        leaves(before, e, k),
    decreases height(before, e),
{
    lemma_partly_same_value(before, after, e);
    lemma_height(before, e);
    assert(before.dom().contains(e));
    if let Some((l, r)) = before[e].operands() {
        lemma_operands(before, e, l, r);
        lemma_partly_same_value(before, after, l);
        lemma_partly_same_value(before, after, r);
        if after[e] == before[e] {
            lemma_operands(after, e, l, r);
            if leaves(after, l, k) {
                lemma_leaves_back(before, after, l, k);
            } else if leaves(after, r, k) {
                lemma_leaves_back(before, after, r, k);
            }
        }
    }
}

/// A node that the pass would have left before a closed region was folded, and leaves
/// no more, is in that region.
pub proof fn lemma_leave_lost(
    nodes: Nodes,
    region: Set<ExpressionKey>,
    e: ExpressionKey,
    k: ExpressionKey,
)
    requires
        closed(nodes, region),
        rooted(nodes, e),
        leaves(nodes, e, k),
        !leaves(folded_where(nodes, region), e, k),
    ensures
        region.contains(k),
    decreases height(nodes, e),
{
    let after = folded_where(nodes, region);
    lemma_folded_where_partly(nodes, region);
    lemma_partly_same_value(nodes, after, e);
    lemma_height(nodes, e);
    assert(nodes.dom().contains(e));
    if after[e] == nodes[e] {
        if let Some((l, r)) = nodes[e].operands() {
            lemma_operands(nodes, e, l, r);
            lemma_operands(after, e, l, r);
            lemma_partly_same_value(nodes, after, l);
            lemma_partly_same_value(nodes, after, r);
            if leaves(nodes, l, k) {
                lemma_leave_lost(nodes, region, l, k);
            } else if leaves(nodes, r, k) {
                lemma_leave_lost(nodes, region, r, k);
            }
        }
    } else {
        assert(region.contains(e));
        lemma_leaves_reaches(nodes, e, k);
        lemma_closed_reaches(nodes, region, e, k);
    }
}

/// Folding an expression after a closed region folds the region and what the pass
/// leaves of the expression.
pub proof fn lemma_folded_further(nodes: Nodes, region: Set<ExpressionKey>, e: ExpressionKey)
    requires
        closed(nodes, region),
        rooted(nodes, e),
    ensures
        folded_nodes(folded_where(nodes, region), e) == folded_where(
            nodes,
            region.union(done(nodes, e)),
        ),
{
    let mid = folded_where(nodes, region);
    let last = folded_nodes(mid, e);
    let goal = folded_where(nodes, region.union(done(nodes, e)));
    lemma_folded_where_partly(nodes, region);
    assert forall|k: ExpressionKey| nodes.dom().contains(k) implies #[trigger] last[k]
        == goal[k] by {
        if leaves(mid, e, k) {
            lemma_leaves_back(nodes, mid, e, k);
            lemma_leaves_reaches(nodes, e, k);
            lemma_reaches(nodes, e, k);
            lemma_partly_same_value(nodes, mid, k);
        } else if leaves(nodes, e, k) {
            lemma_leave_lost(nodes, region, e, k);
        }
    }
    assert(last =~= goal);
}

/// Where none of some expressions has an operation without a value, the pass leaves
/// the nodes of them all, which are a closed region.
pub proof fn lemma_done_all_closed(nodes: Nodes, roots: Seq<ExpressionKey>)
    requires
        forall|i: int| 0 <= i < roots.len() ==> rooted(nodes, #[trigger] roots[i]),
        !faulty(nodes, roots),
    ensures
        closed(nodes, done_all(nodes, roots)),
        forall|i: int| 0 <= i < roots.len() ==> below(nodes, #[trigger] roots[i]).subset_of(
            done_all(nodes, roots),
        ),
    decreases roots.len(),
{
    if roots.len() > 0 {
        let before = roots.drop_last();
        let last = roots.last();
        assert(roots[roots.len() - 1] == last);
        assert forall|i: int| 0 <= i < before.len() implies rooted(nodes, #[trigger] before[i])
            && !faults(nodes, before[i]) by {
            assert(before[i] == roots[i]);
        }
        lemma_done_all_closed(nodes, before);
        lemma_done_is_below(nodes, last);
        assert forall|i: int| 0 <= i < roots.len() implies below(
            nodes,
            #[trigger] roots[i],
        ).subset_of(done_all(nodes, roots)) by {
            if i < before.len() {
                assert(before[i] == roots[i]);
            }
        }
    }
}

/// The operator of the node at `e` and the numbers of its operands, if it is an
/// operation on two literals.
pub open spec fn operand_values(nodes: Nodes, e: ExpressionKey) -> Option<(Operator, u32, u32)> {
    match nodes[e].operands() {
        Some((l, r)) => match (nodes[l].literal(), nodes[r].literal()) {
            (Some(a), Some(b)) => Some((nodes[e].operator().unwrap(), a, b)),
            _ => None,
        },
        None => None,
    }
}

/// `result` is the fault if `fault` holds, and success if not.
pub open spec fn fails_if(result: Result<(), PassError>, fault: bool) -> bool {
    if fault {
        result == Err::<(), PassError>(PassError::ArithmeticFault)
    } else {
        result is Ok
    }
}

/// One step of folding, at the node `e`: an operation on two literals is replaced by
/// the literal of its value, or fails if it has none; any other node stays.
pub open spec fn folded_here(
    before: Nodes,
    e: ExpressionKey,
    after: Nodes,
    result: Result<(), PassError>,
) -> bool {
    match operand_values(before, e) {
        Some((op, a, b)) => match applied(op, a, b) {
            Some(value) => result is Ok && after == before.insert(e, Expression::Literal(value)),
            None => fails_if(result, true) && after == before,
        },
        None => result is Ok && after == before,
    }
}

/// Folding the expression at `e`, from the store `before` to the store `after`. The
/// pass fails if and only if an operation in the expression has no value. Every node
/// that the pass gets to leave, which is every node of the expression if it does not
/// fail, holds the literal of its value if it has one; every other node of the store
/// is as it was.
pub open spec fn folds(
    before: Nodes,
    e: ExpressionKey,
    after: Nodes,
    result: Result<(), PassError>,
) -> bool {
    &&& fails_if(result, faults(before, e))
    &&& after == folded_nodes(before, e)
}

/// The expressions that the statements of a program evaluate.
pub open spec fn subjects(ast: Ast, program: Seq<StatementKey>) -> Seq<ExpressionKey> {
    Seq::new(program.len(), |i: int| ast.subject(program[i]))
}

/// All of a store but its expressions is as before.
pub open spec fn rest_kept(before: Ast, after: Ast) -> bool {
    &&& after.decls() == before.decls()
    &&& after.stmts() == before.stmts()
    &&& after.resolutions() == before.resolutions()
}

/// The pass that folds constants.
pub struct ConstFolder;

impl ConstFolder {
    /// Folds the expressions of the statements of `p`, one after the other. The pass
    /// fails, and ends, at the first operation that has no value.
    pub fn visit_program(&mut self, ast: &mut Ast, p: &Vec<StatementKey>) -> (result: Result<
        (),
        PassError,
    >)
        requires
            old(ast).holds_program(p@),
        ensures
            fails_if(result, faulty(old(ast).exprs(), subjects(*old(ast), p@))),
            final(ast).exprs() == folded_all(old(ast).exprs(), subjects(*old(ast), p@)),
            rest_kept(*old(ast), *final(ast)),
    {
        walk_program(self, ast, p)
    }
}

impl Visitor<(), PassError> for ConstFolder {
    /// On leaving an expression, one step of folding is taken at it.
    open spec fn expression_visited(
        before: Stage<Self>,
        e: ExpressionKey,
        at: Moment,
        after: Stage<Self>,
        result: Result<(), PassError>,
    ) -> bool {
        &&& rest_kept(before.ast, after.ast)
        &&& if at == Moment::Leave {
            folded_here(before.ast.exprs(), e, after.ast.exprs(), result)
        } else {
            result is Ok && after.ast.exprs() == before.ast.exprs()
        }
    }

    open spec fn declaration_visited(
        before: Stage<Self>,
        d: DeclarationKey,
        at: Moment,
        after: Stage<Self>,
        result: Result<(), PassError>,
    ) -> bool {
        &&& rest_kept(before.ast, after.ast)
        &&& result is Ok
        &&& after.ast.exprs() == before.ast.exprs()
    }

    open spec fn statement_visited(
        before: Stage<Self>,
        s: StatementKey,
        at: Moment,
        after: Stage<Self>,
        result: Result<(), PassError>,
    ) -> bool {
        &&& rest_kept(before.ast, after.ast)
        &&& result is Ok
        &&& after.ast.exprs() == before.ast.exprs()
    }

    /// The expression is folded.
    open spec fn expression_walked(
        before: Stage<Self>,
        e: ExpressionKey,
        after: Stage<Self>,
        result: Result<(), PassError>,
    ) -> bool {
        &&& rest_kept(before.ast, after.ast)
        &&& folds(before.ast.exprs(), e, after.ast.exprs(), result)
    }

    /// The initializer of the declaration is folded.
    open spec fn declaration_walked(
        before: Stage<Self>,
        d: DeclarationKey,
        after: Stage<Self>,
        result: Result<(), PassError>,
    ) -> bool {
        &&& rest_kept(before.ast, after.ast)
        &&& folds(before.ast.exprs(), before.ast.decls()[d].val, after.ast.exprs(), result)
    }

    /// The expression that the statement evaluates is folded.
    open spec fn statement_walked(
        before: Stage<Self>,
        s: StatementKey,
        after: Stage<Self>,
        result: Result<(), PassError>,
    ) -> bool {
        &&& rest_kept(before.ast, after.ast)
        &&& folds(before.ast.exprs(), before.ast.subject(s), after.ast.exprs(), result)
    }

    /// The expressions that the statements evaluate are folded, one after the other.
    /// The pass fails if and only if an operation in one of them has no value, and it
    /// ends there.
    open spec fn program_walked(
        before: Stage<Self>,
        program: Seq<StatementKey>,
        after: Stage<Self>,
        failed: Option<PassError>,
    ) -> bool {
        let roots = subjects(before.ast, program);
        &&& rest_kept(before.ast, after.ast)
        &&& failed == if faulty(before.ast.exprs(), roots) {
            Some(PassError::ArithmeticFault)
        } else {
            None
        }
        &&& after.ast.exprs() == folded_all(before.ast.exprs(), roots)
    }

    fn visit_expression(&mut self, ast: &mut Ast, e: ExpressionKey, at: Moment) -> (result: Result<
        (),
        PassError,
    >) {
        proof {
            lemma_height(ast.exprs(), e);
            lemma_evolves_same(*ast, *ast);
        }
        if let Moment::Leave = at {
            if let Some((op, l, r)) = ast.expr(e).split() {
                proof {
                    lemma_operands(ast.exprs(), e, l, r);
                    lemma_height(ast.exprs(), l);
                    lemma_height(ast.exprs(), r);
                }
                if let Some(a) = ast.expr(l).value() {
                    if let Some(b) = ast.expr(r).value() {
                        match apply(op, a, b) {
                            Some(value) => {
                                ast.set_expr(e, Expression::Literal(value));
                                proof {
                                    lemma_leaf_keeps_shape(
                                        old(ast).exprs(),
                                        e,
                                        Expression::Literal(value),
                                    );
                                    lemma_evolves_shape(*old(ast), *ast);
                                }
                            },
                            None => {
                                return Err(PassError::ArithmeticFault);
                            },
                        }
                    }
                }
            }
        }
        Ok(())
    }

    fn visit_declaration(&mut self, ast: &mut Ast, d: DeclarationKey, at: Moment) -> (result:
        Result<(), PassError>) {
        proof {
            lemma_evolves_same(*ast, *ast);
        }
        Ok(())
    }

    fn visit_statement(&mut self, ast: &mut Ast, s: StatementKey, at: Moment) -> (result: Result<
        (),
        PassError,
    >) {
        proof {
            lemma_evolves_same(*ast, *ast);
        }
        Ok(())
    }

    proof fn lemma_leaf_walked(
        e: ExpressionKey,
        s0: Stage<Self>,
        s1: Stage<Self>,
        r1: Result<(), PassError>,
        s2: Stage<Self>,
        r2: Result<(), PassError>,
    ) {
        let nodes = s0.ast.exprs();
        lemma_height(nodes, e);
        assert forall|k: ExpressionKey| nodes.dom().contains(k) implies #[trigger] folded_nodes(
            nodes,
            e,
        )[k] == nodes[k] by {
            if leaves(nodes, e, k) {
                assert(k == e);
            }
        }
        assert(folded_nodes(nodes, e) =~= nodes);
    }

    proof fn lemma_binary_walked(
        e: ExpressionKey,
        l: ExpressionKey,
        r: ExpressionKey,
        s0: Stage<Self>,
        s1: Stage<Self>,
        r1: Result<(), PassError>,
        s2: Stage<Self>,
        r2: Result<(), PassError>,
        s3: Stage<Self>,
        r3: Result<(), PassError>,
        s4: Stage<Self>,
        r4: Result<(), PassError>,
        s5: Stage<Self>,
        r5: Result<(), PassError>,
    ) {
        lemma_binary_folds(
            s0.ast.exprs(),
            e,
            l,
            r,
            s2.ast.exprs(),
            r2,
            s4.ast.exprs(),
            r4,
            s5.ast.exprs(),
            r5,
        );
    }

    proof fn lemma_declaration_walked(
        d: DeclarationKey,
        s0: Stage<Self>,
        s1: Stage<Self>,
        r1: Result<(), PassError>,
        s2: Stage<Self>,
        r2: Result<(), PassError>,
        s3: Stage<Self>,
        r3: Result<(), PassError>,
    ) {
    }

    proof fn lemma_statement_walked(
        s: StatementKey,
        s0: Stage<Self>,
        s1: Stage<Self>,
        r1: Result<(), PassError>,
        s2: Stage<Self>,
        r2: Result<(), PassError>,
        s3: Stage<Self>,
        r3: Result<(), PassError>,
    ) {
    }

    proof fn lemma_nothing_walked(s0: Stage<Self>) {
        let nodes = s0.ast.exprs();
        let none = subjects(s0.ast, Seq::<StatementKey>::empty());
        assert(folded_all(nodes, none) =~= nodes);
    }

    proof fn lemma_more_walked(
        program: Seq<StatementKey>,
        s: StatementKey,
        s0: Stage<Self>,
        s1: Stage<Self>,
        failed: Option<PassError>,
        s2: Stage<Self>,
        r2: Result<(), PassError>,
    ) {
        let nodes = s0.ast.exprs();
        let roots = subjects(s0.ast, program);
        let root = s0.ast.subject(s);
        let more = subjects(s0.ast, program.push(s));
        assert(more =~= roots.push(root));
        assert(s0.ast.holds_statement(program.push(s)[program.len() as int]));
        assert(rooted(nodes, root));
        assert forall|i: int| 0 <= i < roots.len() implies rooted(nodes, #[trigger] roots[i]) by {
            assert(s0.ast.holds_statement(program.push(s)[i]));
        }
        lemma_more_folds(nodes, roots, root, s2.ast.exprs(), r2);
    }
}

/// Folding the two operands of an operation, one after the other, and then taking one
/// step at the operation, folds the operation.
proof fn lemma_binary_folds(
    n0: Nodes,
    e: ExpressionKey,
    l: ExpressionKey,
    r: ExpressionKey,
    n2: Nodes,
    r2: Result<(), PassError>,
    n4: Nodes,
    r4: Result<(), PassError>,
    n5: Nodes,
    r5: Result<(), PassError>,
)
    requires
        rooted(n0, e),
        n0[e].operands() == Some((l, r)),
        folds(n0, l, n2, r2),
        if r2 is Ok {
            folds(n2, r, n4, r4)
        } else {
            n4 == n2 && r4 == r2
        },
        if r4 is Ok {
            folded_here(n4, e, n5, r5)
        } else {
            n5 == n4 && r5 == r4
        },
    ensures
        folds(n0, e, n5, r5),
{
    lemma_operands(n0, e, l, r);
    lemma_height(n0, e);
    assert forall|k: ExpressionKey|
        leaves(n0, e, k) <==> leaves(n0, l, k) || (!faults(n0, l) && (leaves(n0, r, k) || (
        !faults(n0, r) && e == k))) by {}
    if r2 is Ok {
        lemma_done_is_below(n0, l);
        lemma_folded_where_partly(n0, done(n0, l));
        lemma_partly_same_value(n0, n2, r);
        lemma_folded_further(n0, done(n0, l), r);
        let region = done(n0, l).union(done(n0, r));
        if r4 is Ok {
            lemma_done_is_below(n0, r);
            lemma_folded_where_partly(n0, region);
            assert(!region.contains(e)) by {
                if reaches(n0, l, e) {
                    lemma_reaches(n0, l, e);
                }
                if reaches(n0, r, e) {
                    lemma_reaches(n0, r, e);
                }
            }
            assert(reaches(n0, l, l));
            assert(reaches(n0, r, r));
            lemma_height(n0, l);
            lemma_height(n0, r);
            assert(n4[e] == n0[e]);
            assert(n4[l] == form(n0, l));
            assert(n4[r] == form(n0, r));
            assert(n4[l].literal() is Some <==> folded(n0, l) is Value);
            assert(n4[r].literal() is Some <==> folded(n0, r) is Value);
            assert(done(n0, e) =~= region.insert(e));
            assert(n5 =~= folded_nodes(n0, e));
        } else {
            assert(done(n0, e) =~= region);
        }
    } else {
        assert(done(n0, e) =~= done(n0, l));
    }
}

/// Folding some expressions, and then one more if none of them failed, folds them all.
proof fn lemma_more_folds(
    n0: Nodes,
    roots: Seq<ExpressionKey>,
    root: ExpressionKey,
    n2: Nodes,
    r2: Result<(), PassError>,
)
    requires
        forall|i: int| 0 <= i < roots.len() ==> rooted(n0, #[trigger] roots[i]),
        rooted(n0, root),
        if faulty(n0, roots) {
            n2 == folded_all(n0, roots)
        } else {
            folds(folded_all(n0, roots), root, n2, r2)
        },
    ensures
        n2 == folded_all(n0, roots.push(root)),
        faulty(n0, roots.push(root)) <==> faulty(n0, roots) || faults(n0, root),
        !faulty(n0, roots) ==> fails_if(r2, faults(n0, root)),
{
    let more = roots.push(root);
    assert(more.drop_last() =~= roots);
    assert(more.last() == root);
    assert(more[roots.len() as int] == root);
    if faulty(n0, roots) {
        let i = choose|i: int| 0 <= i < roots.len() && faults(n0, #[trigger] roots[i]);
        assert(more[i] == roots[i]);
    } else {
        lemma_done_all_closed(n0, roots);
        lemma_folded_where_partly(n0, done_all(n0, roots));
        lemma_partly_same_value(n0, folded_all(n0, roots), root);
        lemma_folded_further(n0, done_all(n0, roots), root);
        if faulty(n0, more) {
            let i = choose|i: int| 0 <= i < more.len() && faults(n0, #[trigger] more[i]);
            if i < roots.len() {
                assert(roots[i] == more[i]);
            }
        }
    }
}

/// Folding is idempotent: folding an expression that has just been folded succeeds
/// and changes nothing.
pub proof fn lemma_fold_twice(
    nodes: Nodes,
    e: ExpressionKey,
    once: Nodes,
    first: Result<(), PassError>,
    twice: Nodes,
    second: Result<(), PassError>,
)
    requires
        rooted(nodes, e),
        folds(nodes, e, once, first),
        first is Ok,
        folds(once, e, twice, second),
    ensures
        second is Ok,
        twice == once,
{
    lemma_done_is_below(nodes, e);
    lemma_folded_where_partly(nodes, done(nodes, e));
    lemma_partly_same_value(nodes, once, e);
    lemma_folded_further(nodes, done(nodes, e), e);
    assert(done(nodes, e).union(done(nodes, e)) =~= done(nodes, e));
}

/// Folding some expressions of a store in which they are folded changes nothing.
proof fn lemma_folded_all_again(nodes: Nodes, roots: Seq<ExpressionKey>, count: int)
    requires
        forall|i: int| 0 <= i < roots.len() ==> rooted(nodes, #[trigger] roots[i]),
        !faulty(nodes, roots),
        0 <= count <= roots.len(),
    ensures
        !faulty(folded_all(nodes, roots), roots.take(count)),
        folded_all(folded_all(nodes, roots), roots.take(count)) == folded_all(nodes, roots),
    decreases count,
{
    let once = folded_all(nodes, roots);
    let region = done_all(nodes, roots);
    lemma_done_all_closed(nodes, roots);
    lemma_folded_where_partly(nodes, region);
    if count == 0 {
        assert(folded_all(once, roots.take(0)) =~= once);
    } else {
        lemma_folded_all_again(nodes, roots, count - 1);
        let earlier = roots.take(count - 1);
        let root = roots[count - 1];
        assert(earlier.push(root) =~= roots.take(count));
        assert forall|i: int| 0 <= i < earlier.len() implies rooted(
            once,
            #[trigger] earlier[i],
        ) by {
            assert(earlier[i] == roots[i]);
            lemma_partly_same_value(nodes, once, roots[i]);
        }
        lemma_partly_same_value(nodes, once, root);
        lemma_folded_further(nodes, region, root);
        lemma_done_is_below(nodes, root);
        assert(region.union(done(nodes, root)) =~= region);
        assert(folds(once, root, once, Ok(())));
        lemma_more_folds(once, earlier, root, once, Ok(()));
    }
}

/// Folding is idempotent for programs too: a second pass over a program that the
/// first pass folded succeeds and leaves every expression as it is. Here `once` is the
/// store that the first pass leaves of `start`.
pub proof fn lemma_fold_program_twice(start: Ast, once: Ast, program: Seq<StatementKey>)
    requires
        start.holds_program(program),
        !faulty(start.exprs(), subjects(start, program)),
        once.exprs() == folded_all(start.exprs(), subjects(start, program)),
        rest_kept(start, once),
    ensures
        !faulty(once.exprs(), subjects(once, program)),
        folded_all(once.exprs(), subjects(once, program)) == once.exprs(),
{
    let nodes = start.exprs();
    let roots = subjects(start, program);
    assert(subjects(once, program) =~= roots);
    assert forall|i: int| 0 <= i < roots.len() implies rooted(nodes, #[trigger] roots[i]) by {
        assert(start.holds_statement(program[i]));
    }
    lemma_folded_all_again(nodes, roots, roots.len() as int);
    assert(roots.take(roots.len() as int) =~= roots);
}

/// Keys are stable: folding, whether it succeeds or fails, leaves every key of the
/// store in use; and when it succeeds, the key of every node of the expression that
/// has a value, such as an operation on two literals, yields the literal of that value,
/// and the key of every node outside the expression yields what it did.
pub proof fn lemma_keys_stable(
    nodes: Nodes,
    e: ExpressionKey,
    after: Nodes,
    result: Result<(), PassError>,
    k: ExpressionKey,
)
    requires
        rooted(nodes, e),
        folds(nodes, e, after, result),
    ensures
        after.dom() == nodes.dom(),
        result is Ok && reaches(nodes, e, k) && folded(nodes, k) is Value ==> after[k]
            == Expression::Literal(folded(nodes, k)->Value_0),
        !reaches(nodes, e, k) && nodes.dom().contains(k) ==> after[k] == nodes[k],
{
    lemma_folded_where_partly(nodes, done(nodes, e));
    if reaches(nodes, e, k) {
        lemma_reaches(nodes, e, k);
        lemma_height(nodes, k);
        if result is Ok {
            lemma_leaves_all(nodes, e, k);
        }
    } else if leaves(nodes, e, k) {
        lemma_leaves_reaches(nodes, e, k);
    }
}

/// Keys are stable for programs too: folding the expressions at `roots` leaves every
/// key of the store in use; when it succeeds, the key of every node of one of the
/// expressions that has a value yields the literal of that value.
pub proof fn lemma_keys_stable_all(
    nodes: Nodes,
    roots: Seq<ExpressionKey>,
    i: int,
    k: ExpressionKey,
)
    requires
        forall|j: int| 0 <= j < roots.len() ==> rooted(nodes, #[trigger] roots[j]),
        0 <= i < roots.len(),
        reaches(nodes, roots[i], k),
    ensures
        folded_all(nodes, roots).dom() == nodes.dom(),
        !faulty(nodes, roots) && folded(nodes, k) is Value ==> folded_all(nodes, roots)[k]
            == Expression::Literal(folded(nodes, k)->Value_0),
{
    lemma_folded_where_partly(nodes, done_all(nodes, roots));
    lemma_reaches(nodes, roots[i], k);
    lemma_height(nodes, k);
    if !faulty(nodes, roots) {
        lemma_done_all_closed(nodes, roots);
        assert(below(nodes, roots[i]).contains(k));
    }
}

/// An expression that reads a variable has no value, so folding leaves its node as
/// it is: only where every leaf is a literal is an operation replaced.
pub proof fn lemma_variable_stays(nodes: Nodes, e: ExpressionKey, k: ExpressionKey)
    requires
        rooted(nodes, e),
        reaches(nodes, e, k),
        nodes[k].variable() is Some,
    ensures
        !(folded(nodes, e) is Value),
        form(nodes, e) == nodes[e],
    decreases height(nodes, e),
{
    if let Some((l, r)) = nodes[e].operands() {
        lemma_operands(nodes, e, l, r);
        if reaches(nodes, l, k) {
            lemma_variable_stays(nodes, l, k);
        } else {
            lemma_variable_stays(nodes, r, k);
        }
    }
}

} // verus!
