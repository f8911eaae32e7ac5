//! Name resolution: a pass that records, for every variable, the declaration it reads.
//!
//! The names live in one flat scope. A declaration binds its name once its
//! initializer has been resolved, in place of what the name was bound to before, so a
//! variable reads the latest declaration of its name that stands before it. A variable
//! whose name is not bound ends the pass; what was recorded before stays.

use crate::ast::{Ast, DeclarationKey, Expression, ExpressionKey, NodeKey, Statement, StatementKey};
use crate::error::PassError;
use crate::shape::{
    height,
    lemma_evolves_same,
    lemma_height,
    lemma_operands,
    reaches,
    rooted,
    Nodes,
};
use crate::visit::{walk_program, Moment, Stage, Visitor};
use vstd::hash_map::StringHashMap;
use vstd::prelude::*;

verus! {

/// The declaration that each name is bound to.
pub type Scope = Map<Seq<char>, DeclarationKey>;

/// The declaration that each reference site reads from.
pub type Table = Map<NodeKey, DeclarationKey>;

/// The name of the first variable of the expression at `e`, from left to right, that
/// `scope` does not bind.
pub open spec fn first_unbound(nodes: Nodes, e: ExpressionKey, scope: Scope) -> Option<Seq<char>>
    decreases height(nodes, e),
    when rooted(nodes, e)
    via first_unbound_decreases
{
    match nodes[e].operands() {
        Some((l, r)) => if first_unbound(nodes, l, scope) is Some {
            first_unbound(nodes, l, scope)
        } else {
            first_unbound(nodes, r, scope)
        },
        None => match nodes[e].variable() {
            Some(name) => if scope.dom().contains(name) {
                None
            } else {
                Some(name)
            },
            None => None,
        },
    }
}

#[via_fn]
proof fn first_unbound_decreases(nodes: Nodes, e: ExpressionKey, scope: Scope) {
    if let Some((l, r)) = nodes[e].operands() {
        lemma_operands(nodes, e, l, r);
    }
}

/// Resolving the expression at `e` comes to the node `k`: `k` is a node of the
/// expression, and no variable before it, from left to right, is unbound.
pub open spec fn enters(nodes: Nodes, e: ExpressionKey, scope: Scope, k: ExpressionKey) -> bool
    decreases height(nodes, e),
    when rooted(nodes, e)
    via enters_decreases
{
    e == k || match nodes[e].operands() {
        Some((l, r)) => enters(nodes, l, scope, k) || (first_unbound(nodes, l, scope) is None
            && enters(nodes, r, scope, k)),
        None => false,
    }
}

#[via_fn]
proof fn enters_decreases(nodes: Nodes, e: ExpressionKey, scope: Scope, k: ExpressionKey) {
    if let Some((l, r)) = nodes[e].operands() {
        lemma_operands(nodes, e, l, r);
    }
}

/// Resolving the expression at `e` makes a record for `site`: it is a variable that
/// the pass comes to, and `scope` binds its name.
pub open spec fn recorded(nodes: Nodes, e: ExpressionKey, scope: Scope, site: NodeKey) -> bool {
    &&& site matches NodeKey::Expression(k)
    &&& enters(nodes, e, scope, k)
    &&& nodes[k].variable() matches Some(name)
    &&& scope.dom().contains(name)
}

/// What resolving the expression at `e` records: for every variable that the pass
/// comes to, the declaration that `scope` binds its name to.
pub open spec fn records(nodes: Nodes, e: ExpressionKey, scope: Scope) -> Table {
    Map::new(
        |site: NodeKey| recorded(nodes, e, scope, site),
        |site: NodeKey| scope[nodes[site->Expression_0].variable().unwrap()],
    )
}

/// `result` is the error for `unbound`, or success where there is no unbound name.
pub open spec fn fails_for(result: Result<(), PassError>, unbound: Option<Seq<char>>) -> bool {
    match unbound {
        Some(name) => result matches Err(PassError::UnresolvedIdentifier(found)) && found@
            == name,
        None => result is Ok,
    }
}

/// What the pass does on entering the expression at `e`: a variable that `scope`
/// binds gets its record, one that it does not bind is the error, and any other
/// expression changes nothing.
pub open spec fn resolved_here(
    nodes: Nodes,
    e: ExpressionKey,
    scope: Scope,
    before: Table,
    after: Table,
    result: Result<(), PassError>,
) -> bool {
    match nodes[e].variable() {
        Some(name) => if scope.dom().contains(name) {
            result is Ok && after == before.insert(NodeKey::Expression(e), scope[name])
        } else {
            fails_for(result, Some(name)) && after == before
        },
        None => result is Ok && after == before,
    }
}

/// Resolving the expression at `e` under `scope`, from the table `before` to the table
/// `after`. The pass fails if and only if a variable of the expression has a name that
/// `scope` does not bind, and the error holds the first such name. Every variable up
/// to there, and every variable if there is none, has its record in place of what was
/// recorded for it; every other record is as it was.
pub open spec fn resolves(
    nodes: Nodes,
    e: ExpressionKey,
    scope: Scope,
    before: Table,
    after: Table,
    result: Result<(), PassError>,
) -> bool {
    &&& fails_for(result, first_unbound(nodes, e, scope))
    &&& after == before.union_prefer_right(records(nodes, e, scope))
}

/// The scope after a statement: a declaration binds its name to itself.
pub open spec fn bound_after(ast: Ast, scope: Scope, s: StatementKey) -> Scope {
    match ast.stmts()[s] {
        Statement::Decl(d) => scope.insert(ast.decls()[d].id@, d),
        Statement::Print(_) => scope,
    }
}

/// The name that resolving `program` fails for: the first unbound name of the first
/// statement that has one, under the scope that the statements before it leave.
pub open spec fn first_failure(ast: Ast, scope: Scope, program: Seq<StatementKey>) -> Option<
    Seq<char>,
>
    decreases program.len(), 0nat,
{
    if program.len() == 0 {
        None
    } else if first_failure(ast, scope, program.drop_last()) is Some {
        first_failure(ast, scope, program.drop_last())
    } else {
        first_unbound(
            ast.exprs(),
            ast.subject(program.last()),
            scope_after(ast, scope, program.drop_last()),
        )
    }
}

/// The scope after resolving `program`: every declaration binds its name, up to the
/// statement that the pass fails in.
pub open spec fn scope_after(ast: Ast, scope: Scope, program: Seq<StatementKey>) -> Scope
    decreases program.len(), 1nat,
{
    if program.len() == 0 {
        scope
    } else if first_failure(ast, scope, program) is Some {
        scope_after(ast, scope, program.drop_last())
    } else {
        bound_after(ast, scope_after(ast, scope, program.drop_last()), program.last())
    }
}

/// The table after resolving `program`: each statement adds its records, under the
/// scope that the statements before it leave, up to the statement that the pass fails
/// in.
pub open spec fn table_after(
    ast: Ast,
    scope: Scope,
    table: Table,
    program: Seq<StatementKey>,
) -> Table
    decreases program.len(),
{
    if program.len() == 0 {
        table
    } else if first_failure(ast, scope, program.drop_last()) is Some {
        table_after(ast, scope, table, program.drop_last())
    } else {
        table_after(ast, scope, table, program.drop_last()).union_prefer_right(
            records(
                ast.exprs(),
                ast.subject(program.last()),
                scope_after(ast, scope, program.drop_last()),
            ),
        )
    }
}

/// The nodes of a store are as before.
pub open spec fn nodes_kept(before: Ast, after: Ast) -> bool {
    &&& after.exprs() == before.exprs()
    &&& after.decls() == before.decls()
    &&& after.stmts() == before.stmts()
}

/// The pass that resolves names. It holds the scope: the declaration that each name
/// is bound to at the point that the pass has reached.
pub struct NameResolver {
    names: StringHashMap<DeclarationKey>,
}

impl NameResolver {
    /// The scope.
    pub closed spec fn scope(&self) -> Scope {
        self.names@
    }

    /// A resolver with an empty scope.
    pub fn new() -> (resolver: NameResolver)
        ensures
            resolver.scope() == Scope::empty(),
    {
        NameResolver { names: StringHashMap::new() }
    }

    /// The declaration that a name is bound to, if it is bound.
    pub fn lookup(&self, name: &str) -> (decl: Option<DeclarationKey>)
        ensures
            decl == if self.scope().dom().contains(name@) {
                Some(self.scope()[name@])
            } else {
                None
            },
    {
        match self.names.get(name) {
            Some(decl) => Some(*decl),
            None => None,
        }
    }

    /// Resolves the statements of `p` in their order. The pass fails, and ends, at the
    /// first variable whose name no declaration before its statement binds.
    pub fn visit_program(&mut self, ast: &mut Ast, p: &Vec<StatementKey>) -> (result: Result<
        (),
        PassError,
    >)
        requires
            old(ast).holds_program(p@),
        ensures
            fails_for(result, first_failure(*old(ast), old(self).scope(), p@)),
            final(self).scope() == scope_after(*old(ast), old(self).scope(), p@),
            final(ast).resolutions() == table_after(
                *old(ast),
                old(self).scope(),
                old(ast).resolutions(),
                p@,
            ),
            nodes_kept(*old(ast), *final(ast)),
    {
        walk_program(self, ast, p)
    }
}

/// What the pass does at a statement: the variables of the statement are resolved
/// under the scope, and then, if that did not fail, a declaration binds its name.
pub open spec fn statement_resolved(
    before: Stage<NameResolver>,
    s: StatementKey,
    after: Stage<NameResolver>,
    result: Result<(), PassError>,
) -> bool {
    let scope = before.pass.scope();
    &&& nodes_kept(before.ast, after.ast)
    &&& resolves(
        before.ast.exprs(),
        before.ast.subject(s),
        scope,
        before.ast.resolutions(),
        after.ast.resolutions(),
        result,
    )
    &&& after.pass.scope() == if result is Ok {
        bound_after(before.ast, scope, s)
    } else {
        scope
    }
}

impl Visitor<(), PassError> for NameResolver {
    /// On entering a variable, the declaration that its name is bound to is recorded.
    open spec fn expression_visited(
        before: Stage<Self>,
        e: ExpressionKey,
        at: Moment,
        after: Stage<Self>,
        result: Result<(), PassError>,
    ) -> bool {
        &&& nodes_kept(before.ast, after.ast)
        &&& after.pass.scope() == before.pass.scope()
        &&& if at == Moment::Enter {
            resolved_here(
                before.ast.exprs(),
                e,
                before.pass.scope(),
                before.ast.resolutions(),
                after.ast.resolutions(),
                result,
            )
        } else {
            result is Ok && after.ast.resolutions() == before.ast.resolutions()
        }
    }

    /// On leaving a declaration, its name is bound to it.
    open spec fn declaration_visited(
        before: Stage<Self>,
        d: DeclarationKey,
        at: Moment,
        after: Stage<Self>,
        result: Result<(), PassError>,
    ) -> bool {
        &&& nodes_kept(before.ast, after.ast)
        &&& after.ast.resolutions() == before.ast.resolutions()
        &&& result is Ok
        &&& after.pass.scope() == if at == Moment::Leave {
            before.pass.scope().insert(before.ast.decls()[d].id@, d)
        } else {
            before.pass.scope()
        }
    }

    open spec fn statement_visited(
        before: Stage<Self>,
        s: StatementKey,
        at: Moment,
        after: Stage<Self>,
        result: Result<(), PassError>,
    ) -> bool {
        &&& nodes_kept(before.ast, after.ast)
        &&& after.ast.resolutions() == before.ast.resolutions()
        &&& result is Ok
        &&& after.pass.scope() == before.pass.scope()
    }

    /// The variables of the expression are resolved under the scope, which stays.
    open spec fn expression_walked(
        before: Stage<Self>,
        e: ExpressionKey,
        after: Stage<Self>,
        result: Result<(), PassError>,
    ) -> bool {
        &&& nodes_kept(before.ast, after.ast)
        &&& after.pass.scope() == before.pass.scope()
        &&& resolves(
            before.ast.exprs(),
            e,
            before.pass.scope(),
            before.ast.resolutions(),
            after.ast.resolutions(),
            result,
        )
    }

    /// The variables of the initializer are resolved under the scope, and then, if
    /// that did not fail, the declaration binds its name.
    open spec fn declaration_walked(
        before: Stage<Self>,
        d: DeclarationKey,
        after: Stage<Self>,
        result: Result<(), PassError>,
    ) -> bool {
        let scope = before.pass.scope();
        &&& nodes_kept(before.ast, after.ast)
        &&& resolves(
            before.ast.exprs(),
            before.ast.decls()[d].val,
            scope,
            before.ast.resolutions(),
            after.ast.resolutions(),
            result,
        )
        &&& after.pass.scope() == if result is Ok {
            scope.insert(before.ast.decls()[d].id@, d)
        } else {
            scope
        }
    }

    /// See [`statement_resolved`].
    open spec fn statement_walked(
        before: Stage<Self>,
        s: StatementKey,
        after: Stage<Self>,
        result: Result<(), PassError>,
    ) -> bool {
        statement_resolved(before, s, after, result)
    }

    /// The statements are resolved in their order. The pass fails if and only if a
    /// variable has a name that no declaration before its statement binds, and the
    /// error holds the first such name. The scope and the table are what the
    /// statements up to there leave.
    open spec fn program_walked(
        before: Stage<Self>,
        program: Seq<StatementKey>,
        after: Stage<Self>,
        failed: Option<PassError>,
    ) -> bool {
        let scope = before.pass.scope();
        &&& nodes_kept(before.ast, after.ast)
        &&& match first_failure(before.ast, scope, program) {
            Some(name) => failed matches Some(PassError::UnresolvedIdentifier(found)) && found@
                == name,
            None => failed is None,
        }
        &&& after.pass.scope() == scope_after(before.ast, scope, program)
        &&& after.ast.resolutions() == table_after(
            before.ast,
            scope,
            before.ast.resolutions(),
            program,
        )
    }

    fn visit_expression(&mut self, ast: &mut Ast, e: ExpressionKey, at: Moment) -> (result: Result<
        (),
        PassError,
    >) {
        proof {
            lemma_height(ast.exprs(), e);
            lemma_evolves_same(*ast, *ast);
        }
        if let Moment::Enter = at {
            if let Expression::Var(id) = ast.expr(e) {
                match self.names.get(id.as_str()) {
                    Some(decl) => {
                        let decl = *decl;
                        ast.resolve(NodeKey::Expression(e), decl);
                        proof {
                            lemma_evolves_same(*old(ast), *ast);
                        }
                    },
                    None => {
                        return Err(PassError::UnresolvedIdentifier(id.clone()));
                    },
                }
            }
        }
        Ok(())
    }

    fn visit_declaration(&mut self, ast: &mut Ast, d: DeclarationKey, at: Moment) -> (result:
        Result<(), PassError>) {
        proof {
            lemma_evolves_same(*ast, *ast);
        }
        if let Moment::Leave = at {
            self.names.insert(ast.decl(d).id.clone(), d);
        }
        Ok(())
    }

    fn visit_statement(&mut self, ast: &mut Ast, s: StatementKey, at: Moment) -> (result: Result<
        (),
        PassError,
    >) {
        proof {
            lemma_evolves_same(*ast, *ast);
        }
        Ok(())
    }

    proof fn lemma_leaf_walked(
        e: ExpressionKey,
        s0: Stage<Self>,
        s1: Stage<Self>,
        r1: Result<(), PassError>,
        s2: Stage<Self>,
        r2: Result<(), PassError>,
    ) {
        let nodes = s0.ast.exprs();
        let scope = s0.pass.scope();
        let table = s0.ast.resolutions();
        lemma_height(nodes, e);
        let added = records(nodes, e, scope);
        if nodes[e].operands() is None {
            assert forall|site: NodeKey| added.dom().contains(site) implies site
                == NodeKey::Expression(e) by {
                assert(enters(nodes, e, scope, site->Expression_0));
            }
            assert(enters(nodes, e, scope, e));
            assert(s2.ast.resolutions() =~= table.union_prefer_right(added));
        }
    }

    proof fn lemma_binary_walked(
        e: ExpressionKey,
        l: ExpressionKey,
        r: ExpressionKey,
        s0: Stage<Self>,
        s1: Stage<Self>,
        r1: Result<(), PassError>,
        s2: Stage<Self>,
        r2: Result<(), PassError>,
        s3: Stage<Self>,
        r3: Result<(), PassError>,
        s4: Stage<Self>,
        r4: Result<(), PassError>,
        s5: Stage<Self>,
        r5: Result<(), PassError>,
    ) {
        let nodes = s0.ast.exprs();
        let scope = s0.pass.scope();
        lemma_height(nodes, e);
        if r1 is Ok {
            lemma_operands(nodes, e, l, r);
            let left = records(nodes, l, scope);
            let right = records(nodes, r, scope);
            let all = records(nodes, e, scope);
            assert forall|k: ExpressionKey|
                enters(nodes, e, scope, k) <==> k == e || enters(nodes, l, scope, k) || (
                first_unbound(nodes, l, scope) is None && enters(nodes, r, scope, k)) by {}
            if r2 is Ok {
                assert(all =~= left.union_prefer_right(right));
                assert(s5.ast.resolutions() =~= s0.ast.resolutions().union_prefer_right(all));
            } else {
                assert(all =~= left);
            }
        } else {
            Self::lemma_leaf_walked(e, s0, s1, r1, s1, r1);
        }
    }

    proof fn lemma_declaration_walked(
        d: DeclarationKey,
        s0: Stage<Self>,
        s1: Stage<Self>,
        r1: Result<(), PassError>,
        s2: Stage<Self>,
        r2: Result<(), PassError>,
        s3: Stage<Self>,
        r3: Result<(), PassError>,
    ) {
    }

    proof fn lemma_statement_walked(
        s: StatementKey,
        s0: Stage<Self>,
        s1: Stage<Self>,
        r1: Result<(), PassError>,
        s2: Stage<Self>,
        r2: Result<(), PassError>,
        s3: Stage<Self>,
        r3: Result<(), PassError>,
    ) {
    }

    proof fn lemma_nothing_walked(s0: Stage<Self>) {
    }

    proof fn lemma_more_walked(
        program: Seq<StatementKey>,
        s: StatementKey,
        s0: Stage<Self>,
        s1: Stage<Self>,
        failed: Option<PassError>,
        s2: Stage<Self>,
        r2: Result<(), PassError>,
    ) {
        let more = program.push(s);
        assert(more.drop_last() =~= program);
        assert(more.last() == s);
    }
}

/// The name that `first_unbound` gives is not bound.
pub proof fn lemma_first_unbound(nodes: Nodes, e: ExpressionKey, scope: Scope)
    requires
        rooted(nodes, e),
        first_unbound(nodes, e, scope) is Some,
    ensures
        !scope.dom().contains(first_unbound(nodes, e, scope).unwrap()),
    decreases height(nodes, e),
{
    if let Some((l, r)) = nodes[e].operands() {
        lemma_operands(nodes, e, l, r);
        if first_unbound(nodes, l, scope) is Some {
            lemma_first_unbound(nodes, l, scope);
        } else {
            lemma_first_unbound(nodes, r, scope);
        }
    }
}

/// Where resolving an expression does not fail, the pass comes to every node of the
/// expression, and the scope binds the name of every variable of it.
pub proof fn lemma_all_bound(nodes: Nodes, e: ExpressionKey, scope: Scope, k: ExpressionKey)
    requires
        rooted(nodes, e),
        first_unbound(nodes, e, scope) is None,
        reaches(nodes, e, k),
    ensures
        enters(nodes, e, scope, k),
        nodes[k].variable() is Some ==> scope.dom().contains(nodes[k].variable().unwrap()),
    decreases height(nodes, e),
{
    if let Some((l, r)) = nodes[e].operands() {
        lemma_operands(nodes, e, l, r);
        if reaches(nodes, l, k) {
            lemma_all_bound(nodes, l, scope, k);
        }
        if reaches(nodes, r, k) {
            lemma_all_bound(nodes, r, scope, k);
        }
    }
}

/// The pass comes only to nodes of the expression.
pub proof fn lemma_enters_reaches(nodes: Nodes, e: ExpressionKey, scope: Scope, k: ExpressionKey)
    requires
        rooted(nodes, e),
        enters(nodes, e, scope, k),
    ensures
        reaches(nodes, e, k),
    decreases height(nodes, e),
{
    if e != k {
        if let Some((l, r)) = nodes[e].operands() {
            lemma_operands(nodes, e, l, r);
            if enters(nodes, l, scope, k) {
                lemma_enters_reaches(nodes, l, scope, k);
            } else {
                lemma_enters_reaches(nodes, r, scope, k);
            }
        }
    }
}

/// The statement at `s` declares `name`.
pub open spec fn declares(ast: Ast, s: StatementKey, name: Seq<char>) -> bool {
    ast.stmts()[s] matches Statement::Decl(d) && ast.decls()[d].id@ == name
}

/// A program that resolves without failure does so up to each of its statements.
pub proof fn lemma_no_failure_before(ast: Ast, scope: Scope, program: Seq<StatementKey>, i: int)
    requires
        first_failure(ast, scope, program) is None,
        0 <= i <= program.len(),
    ensures
        first_failure(ast, scope, program.take(i)) is None,
    decreases program.len(),
{
    if i == program.len() {
        assert(program.take(i) =~= program);
    } else {
        assert(program.drop_last().take(i) =~= program.take(i));
        lemma_no_failure_before(ast, scope, program.drop_last(), i);
    }
}

/// After a program that resolves without failure, a name is bound to the last
/// declaration of it in the program.
pub proof fn lemma_scope_is_latest(
    ast: Ast,
    scope: Scope,
    program: Seq<StatementKey>,
    name: Seq<char>,
    j: int,
)
    requires
        first_failure(ast, scope, program) is None,
        0 <= j < program.len(),
        declares(ast, program[j], name),
        forall|m: int| j < m < program.len() ==> !declares(ast, #[trigger] program[m], name),
    ensures
        scope_after(ast, scope, program).dom().contains(name),
        ast.stmts()[program[j]] == Statement::Decl(scope_after(ast, scope, program)[name]),
    decreases program.len(),
{
    if j < program.len() - 1 {
        let before = program.drop_last();
        assert(before[j] == program[j]);
        assert forall|m: int| j < m < before.len() implies !declares(
            ast,
            #[trigger] before[m],
            name,
        ) by {
            assert(before[m] == program[m]);
        }
        lemma_scope_is_latest(ast, scope, before, name, j);
        assert(!declares(ast, program[program.len() - 1], name));
    }
}

/// After a pass that does not fail, every variable of the program has a record.
pub proof fn lemma_every_variable_resolved(
    ast: Ast,
    scope: Scope,
    table: Table,
    program: Seq<StatementKey>,
    i: int,
    k: ExpressionKey,
)
    requires
        ast.holds_program(program),
        first_failure(ast, scope, program) is None,
        0 <= i < program.len(),
        reaches(ast.exprs(), ast.subject(program[i]), k),
        ast.exprs()[k].variable() is Some,
    ensures
        table_after(ast, scope, table, program).dom().contains(NodeKey::Expression(k)),
    decreases program.len(),
{
    let nodes = ast.exprs();
    let before = program.drop_last();
    let last = program.last();
    let here = scope_after(ast, scope, before);
    assert(ast.holds_statement(program[program.len() - 1]));
    if reaches(nodes, ast.subject(last), k) {
        lemma_all_bound(nodes, ast.subject(last), here, k);
        assert(recorded(nodes, ast.subject(last), here, NodeKey::Expression(k)));
    } else {
        assert(before[i] == program[i]);
        assert forall|m: int| 0 <= m < before.len() implies ast.holds_statement(
            #[trigger] before[m],
        ) by {
            assert(before[m] == program[m]);
        }
        lemma_every_variable_resolved(ast, scope, table, before, i, k);
    }
}

/// Where resolving a program does not fail, the record of a variable is what the
/// scope binds its name to at the start of its statement: for the variable at `k`, in
/// statement `i` and in no later one, the table holds what the statements before `i`
/// leave its name bound to.
pub proof fn lemma_resolves_in_scope(
    ast: Ast,
    scope: Scope,
    table: Table,
    program: Seq<StatementKey>,
    i: int,
    k: ExpressionKey,
)
    requires
        ast.holds_program(program),
        first_failure(ast, scope, program) is None,
        0 <= i < program.len(),
        reaches(ast.exprs(), ast.subject(program[i]), k),
        ast.exprs()[k].variable() is Some,
        forall|m: int|
            i < m < program.len() ==> !reaches(ast.exprs(), ast.subject(#[trigger] program[m]), k),
    ensures
        scope_after(ast, scope, program.take(i)).dom().contains(
            ast.exprs()[k].variable().unwrap(),
        ),
        table_after(ast, scope, table, program).dom().contains(NodeKey::Expression(k)),
        table_after(ast, scope, table, program)[NodeKey::Expression(k)] == scope_after(
            ast,
            scope,
            program.take(i),
        )[ast.exprs()[k].variable().unwrap()],
    decreases program.len(),
{
    let nodes = ast.exprs();
    let before = program.drop_last();
    let last = program.last();
    let here = scope_after(ast, scope, before);
    assert(ast.holds_statement(program[program.len() - 1]));
    if i == program.len() - 1 {
        assert(program.take(i) =~= before);
        lemma_all_bound(nodes, ast.subject(last), here, k);
        assert(recorded(nodes, ast.subject(last), here, NodeKey::Expression(k)));
    } else {
        assert(before[i] == program[i]);
        assert(before.take(i) =~= program.take(i));
        assert forall|m: int| 0 <= m < before.len() implies ast.holds_statement(
            #[trigger] before[m],
        ) by {
            assert(before[m] == program[m]);
        }
        assert forall|m: int| i < m < before.len() implies !reaches(
            nodes,
            ast.subject(#[trigger] before[m]),
            k,
        ) by {
            assert(before[m] == program[m]);
        }
        lemma_resolves_in_scope(ast, scope, table, before, i, k);
        assert(!reaches(nodes, ast.subject(program[program.len() - 1]), k));
        if enters(nodes, ast.subject(last), here, k) {
            lemma_enters_reaches(nodes, ast.subject(last), here, k);
        }
        assert(!recorded(nodes, ast.subject(last), here, NodeKey::Expression(k)));
    }
}

/// Resolution is correct: where resolving a program does not fail, the record of a
/// variable is the declaration of its name that stands latest before its statement.
/// For the variable at `k`, in statement `i` and in no later one, and the declaration
/// in statement `j`, the last before `i` that declares the name of the variable, the
/// table holds that declaration.
pub proof fn lemma_resolves_to_latest_declaration(
    ast: Ast,
    scope: Scope,
    table: Table,
    program: Seq<StatementKey>,
    i: int,
    k: ExpressionKey,
    j: int,
)
    requires
        ast.holds_program(program),
        first_failure(ast, scope, program) is None,
        0 <= j < i < program.len(),
        reaches(ast.exprs(), ast.subject(program[i]), k),
        ast.exprs()[k].variable() is Some,
        forall|m: int|
            i < m < program.len() ==> !reaches(ast.exprs(), ast.subject(#[trigger] program[m]), k),
        declares(ast, program[j], ast.exprs()[k].variable().unwrap()),
        forall|m: int|
            j < m < i ==> !declares(ast, #[trigger] program[m], ast.exprs()[k].variable().unwrap()),
    ensures
        table_after(ast, scope, table, program).dom().contains(NodeKey::Expression(k)),
        ast.stmts()[program[j]] == Statement::Decl(
            table_after(ast, scope, table, program)[NodeKey::Expression(k)],
        ),
{
    let name = ast.exprs()[k].variable().unwrap();
    let before = program.take(i);
    lemma_resolves_in_scope(ast, scope, table, program, i, k);
    lemma_no_failure_before(ast, scope, program, i);
    assert(before[j] == program[j]);
    assert forall|m: int| j < m < before.len() implies !declares(
        ast,
        #[trigger] before[m],
        name,
    ) by {
        assert(before[m] == program[m]);
    }
    lemma_scope_is_latest(ast, scope, before, name, j);
}

/// A name that the scope does not bind after a program was not bound during it, so no
/// record was made for a variable of that name.
pub proof fn lemma_unbound_has_no_record(
    ast: Ast,
    scope: Scope,
    table: Table,
    program: Seq<StatementKey>,
    k: ExpressionKey,
)
    requires
        ast.exprs()[k].variable() is Some,
        !scope_after(ast, scope, program).dom().contains(ast.exprs()[k].variable().unwrap()),
    ensures
        table_after(ast, scope, table, program).dom().contains(NodeKey::Expression(k))
            <==> table.dom().contains(NodeKey::Expression(k)),
        table_after(ast, scope, table, program).dom().contains(NodeKey::Expression(k))
            ==> table_after(ast, scope, table, program)[NodeKey::Expression(k)]
            == table[NodeKey::Expression(k)],
    decreases program.len(),
{
    if program.len() > 0 {
        let before = program.drop_last();
        let here = scope_after(ast, scope, before);
        assert(!recorded(
            ast.exprs(),
            ast.subject(program.last()),
            here,
            NodeKey::Expression(k),
        ));
        lemma_unbound_has_no_record(ast, scope, table, before, k);
    }
}

/// A failure leaves no record for the variable that it names: where resolving a
/// program fails, the name of the error is not bound, and a variable of that name has
/// the record that it had before the pass, or none.
pub proof fn lemma_failure_leaves_no_record(
    ast: Ast,
    scope: Scope,
    table: Table,
    program: Seq<StatementKey>,
    k: ExpressionKey,
)
    requires
        ast.holds_program(program),
        first_failure(ast, scope, program) is Some,
        ast.exprs()[k].variable() == first_failure(ast, scope, program),
    ensures
        !scope_after(ast, scope, program).dom().contains(ast.exprs()[k].variable().unwrap()),
        table_after(ast, scope, table, program).dom().contains(NodeKey::Expression(k))
            <==> table.dom().contains(NodeKey::Expression(k)),
        table_after(ast, scope, table, program).dom().contains(NodeKey::Expression(k))
            ==> table_after(ast, scope, table, program)[NodeKey::Expression(k)]
            == table[NodeKey::Expression(k)],
{
    lemma_failure_is_unbound(ast, scope, program);
    lemma_unbound_has_no_record(ast, scope, table, program, k);
}

/// The name that resolving a program fails for is not bound when the pass ends.
pub proof fn lemma_failure_is_unbound(ast: Ast, scope: Scope, program: Seq<StatementKey>)
    requires
        ast.holds_program(program),
        first_failure(ast, scope, program) is Some,
    ensures
        !scope_after(ast, scope, program).dom().contains(
            first_failure(ast, scope, program).unwrap(),
        ),
    decreases program.len(),
{
    let before = program.drop_last();
    if first_failure(ast, scope, before) is Some {
        assert forall|m: int| 0 <= m < before.len() implies ast.holds_statement(
            #[trigger] before[m],
        ) by {
            assert(before[m] == program[m]);
        }
        lemma_failure_is_unbound(ast, scope, before);
    } else {
        assert(ast.holds_statement(program[program.len() - 1]));
        lemma_first_unbound(
            ast.exprs(),
            ast.subject(program.last()),
            scope_after(ast, scope, before),
        );
    }
}

} // verus!
