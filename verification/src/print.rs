//! The printer: a pass that writes a program back as text.

use crate::ast::{Ast, DeclarationKey, Expression, ExpressionKey, Operator, Statement, StatementKey};
use crate::error::PassError;
use crate::shape::{height, lemma_evolves_reflexive, lemma_height, lemma_operands, rooted, Nodes};
use crate::visit::{walk_program, Moment, Stage, Visitor};
use vstd::prelude::*;
use vstd::string::StringExecFns;

verus! {

/// The character of a decimal digit.
pub open spec fn digit(d: nat) -> char {
    if d == 0 {
        '0'
    } else if d == 1 {
        '1'
    } else if d == 2 {
        '2'
    } else if d == 3 {
        '3'
    } else if d == 4 {
        '4'
    } else if d == 5 {
        '5'
    } else if d == 6 {
        '6'
    } else if d == 7 {
        '7'
    } else if d == 8 {
        '8'
    } else {
        '9'
    }
}

/// A number in decimal digits, without leading zeros.
pub open spec fn decimal(n: nat) -> Seq<char>
    decreases n,
{
    if n < 10 {
        seq![digit(n)]
    } else {
        decimal(n / 10).push(digit(n % 10))
    }
}

/// An operator as it stands between its operands.
pub open spec fn symbol(op: Operator) -> Seq<char> {
    match op {
        Operator::Plus => " + "@,
        Operator::Minus => " - "@,
        Operator::Times => " * "@,
        Operator::Div => " / "@,
    }
}

/// What is written on entering an expression: the bracket that opens a sum or a
/// difference, or all of a literal or a variable.
pub open spec fn opening(node: Expression) -> Seq<char> {
    match node {
        Expression::Plus(_, _) => "("@,
        Expression::Minus(_, _) => "("@,
        Expression::Times(_, _) => Seq::empty(),
        Expression::Div(_, _) => Seq::empty(),
        Expression::Literal(value) => decimal(value as nat),
        Expression::Var(name) => name@,
    }
}

/// What is written between the operands of an expression.
pub open spec fn middle(node: Expression) -> Seq<char> {
    match node.operator() {
        Some(op) => symbol(op),
        None => Seq::empty(),
    }
}

/// What is written on leaving an expression: the bracket that closes a sum or a
/// difference.
pub open spec fn closing(node: Expression) -> Seq<char> {
    match node {
        Expression::Plus(_, _) => ")"@,
        Expression::Minus(_, _) => ")"@,
        _ => Seq::empty(),
    }
}

/// What the printer writes at a moment of an expression.
pub open spec fn piece(node: Expression, at: Moment) -> Seq<char> {
    match at {
        Moment::Enter => opening(node),
        Moment::Between => middle(node),
        Moment::Leave => closing(node),
    }
}

/// The text of an expression: sums and differences in brackets, products and
/// quotients without.
pub open spec fn rendered(nodes: Nodes, e: ExpressionKey) -> Seq<char>
    decreases height(nodes, e),
    when rooted(nodes, e)
    via rendered_decreases
{
    match nodes[e].operands() {
        Some((l, r)) => opening(nodes[e]) + rendered(nodes, l) + middle(nodes[e]) + rendered(
            nodes,
            r,
        ) + closing(nodes[e]),
        None => opening(nodes[e]) + closing(nodes[e]),
    }
}

#[via_fn]
proof fn rendered_decreases(nodes: Nodes, e: ExpressionKey) {
    if let Some((l, r)) = nodes[e].operands() {
        lemma_operands(nodes, e, l, r);
    }
}

/// The text of a declaration, without the semicolon.
pub open spec fn declaration_text(ast: Ast, d: DeclarationKey) -> Seq<char> {
    ast.decls()[d].id@ + " = "@ + rendered(ast.exprs(), ast.decls()[d].val)
}

/// What is written on entering a statement.
pub open spec fn keyword(statement: Statement) -> Seq<char> {
    match statement {
        Statement::Decl(_) => Seq::empty(),
        Statement::Print(_) => "print "@,
    }
}

/// The line of a statement.
pub open spec fn statement_text(ast: Ast, s: StatementKey) -> Seq<char> {
    match ast.stmts()[s] {
        Statement::Decl(d) => declaration_text(ast, d) + ";\n"@,
        Statement::Print(e) => "print "@ + rendered(ast.exprs(), e) + ";\n"@,
    }
}

/// The lines of a program.
pub open spec fn program_text(ast: Ast, program: Seq<StatementKey>) -> Seq<char>
    decreases program.len(),
{
    if program.len() == 0 {
        Seq::empty()
    } else {
        program_text(ast, program.drop_last()) + statement_text(ast, program.last())
    }
}

/// The text of a decimal digit.
fn digit_text(d: u32) -> (text: &'static str)
    requires
        d < 10,
    ensures
        text@ == seq![digit(d as nat)],
{
    proof {
        reveal_strlit("0");
        reveal_strlit("1");
        reveal_strlit("2");
        reveal_strlit("3");
        reveal_strlit("4");
        reveal_strlit("5");
        reveal_strlit("6");
        reveal_strlit("7");
        reveal_strlit("8");
        reveal_strlit("9");
    }
    let text = if d == 0 {
        "0"
    } else if d == 1 {
        "1"
    } else if d == 2 {
        "2"
    } else if d == 3 {
        "3"
    } else if d == 4 {
        "4"
    } else if d == 5 {
        "5"
    } else if d == 6 {
        "6"
    } else if d == 7 {
        "7"
    } else if d == 8 {
        "8"
    } else {
        "9"
    };
    assert(text@ =~= seq![digit(d as nat)]);
    text
}

/// The text of an operator as it stands between its operands.
fn symbol_text(op: Operator) -> (text: &'static str)
    ensures
        text@ == symbol(op),
{
    match op {
        Operator::Plus => " + ",
        Operator::Minus => " - ",
        Operator::Times => " * ",
        Operator::Div => " / ",
    }
}

/// Appends a number in decimal digits.
fn push_decimal(out: &mut String, n: u32)
    ensures
        final(out)@ == old(out)@ + decimal(n as nat),
    decreases n,
{
    if n >= 10 {
        push_decimal(out, n / 10);
    }
    out.append(digit_text(n % 10));
    assert(out@ =~= old(out)@ + decimal(n as nat));
}

/// Writes a program as text, one statement to a line.
pub struct Printer {
    out: String,
}

impl View for Printer {
    type V = Seq<char>;

    /// The text written so far.
    closed spec fn view(&self) -> Seq<char> {
        self.out@
    }
}

impl Printer {
    /// A printer that has written nothing.
    pub fn new() -> (printer: Printer)
        ensures
            printer@ == Seq::<char>::empty(),
    {
        Printer { out: String::new() }
    }

    /// The text written so far.
    pub fn text(&self) -> (text: &str)
        ensures
            text@ == self@,
    {
        self.out.as_str()
    }

    /// Writes the statements of `p`, one to a line. The store stays as it is, and the
    /// printer never fails.
    pub fn visit_program(&mut self, ast: &mut Ast, p: &Vec<StatementKey>) -> (result: Result<
        (),
        PassError,
    >)
        requires
            old(ast).holds_program(p@),
        ensures
            result is Ok,
            final(self)@ == old(self)@ + program_text(*old(ast), p@),
            *final(ast) == *old(ast),
    {
        walk_program(self, ast, p)
    }
}

impl Visitor<(), PassError> for Printer {
    open spec fn expression_visited(
        before: Stage<Self>,
        e: ExpressionKey,
        at: Moment,
        after: Stage<Self>,
        result: Result<(), PassError>,
    ) -> bool {
        &&& result is Ok
        &&& after.ast == before.ast
        &&& after.pass@ == before.pass@ + piece(before.ast.exprs()[e], at)
    }

    open spec fn declaration_visited(
        before: Stage<Self>,
        d: DeclarationKey,
        at: Moment,
        after: Stage<Self>,
        result: Result<(), PassError>,
    ) -> bool {
        &&& result is Ok
        &&& after.ast == before.ast
        &&& after.pass@ == if at == Moment::Enter {
            before.pass@ + before.ast.decls()[d].id@ + " = "@
        } else {
            before.pass@
        }
    }

    open spec fn statement_visited(
        before: Stage<Self>,
        s: StatementKey,
        at: Moment,
        after: Stage<Self>,
        result: Result<(), PassError>,
    ) -> bool {
        &&& result is Ok
        &&& after.ast == before.ast
        &&& after.pass@ == if at == Moment::Enter {
            before.pass@ + keyword(before.ast.stmts()[s])
        } else {
            before.pass@ + ";\n"@
        }
    }

    /// The text of the expression is appended; the store stays as it is.
    open spec fn expression_walked(
        before: Stage<Self>,
        e: ExpressionKey,
        after: Stage<Self>,
        result: Result<(), PassError>,
    ) -> bool {
        &&& result is Ok
        &&& after.ast == before.ast
        &&& after.pass@ == before.pass@ + rendered(before.ast.exprs(), e)
    }

    /// The text of the declaration is appended; the store stays as it is.
    open spec fn declaration_walked(
        before: Stage<Self>,
        d: DeclarationKey,
        after: Stage<Self>,
        result: Result<(), PassError>,
    ) -> bool {
        &&& result is Ok
        &&& after.ast == before.ast
        &&& after.pass@ == before.pass@ + declaration_text(before.ast, d)
    }

    /// The line of the statement is appended; the store stays as it is.
    open spec fn statement_walked(
        before: Stage<Self>,
        s: StatementKey,
        after: Stage<Self>,
        result: Result<(), PassError>,
    ) -> bool {
        &&& result is Ok
        &&& after.ast == before.ast
        &&& after.pass@ == before.pass@ + statement_text(before.ast, s)
    }

    /// The lines of the program are appended; the store stays as it is. The printer
    /// never fails.
    open spec fn program_walked(
        before: Stage<Self>,
        program: Seq<StatementKey>,
        after: Stage<Self>,
        failed: Option<PassError>,
    ) -> bool {
        &&& failed is None
        &&& after.ast == before.ast
        &&& after.pass@ == before.pass@ + program_text(before.ast, program)
    }

    fn visit_expression(&mut self, ast: &mut Ast, e: ExpressionKey, at: Moment) -> (result: Result<
        (),
        PassError,
    >) {
        proof {
            lemma_height(ast.exprs(), e);
            lemma_evolves_reflexive(*ast);
        }
        let node = ast.expr(e);
        match at {
            Moment::Enter => {
                match node {
                    Expression::Plus(_, _) => {
                        self.out.append("(");
                    },
                    Expression::Minus(_, _) => {
                        self.out.append("(");
                    },
                    Expression::Times(_, _) => {},
                    Expression::Div(_, _) => {},
                    Expression::Literal(value) => {
                        push_decimal(&mut self.out, *value);
                    },
                    Expression::Var(name) => {
                        self.out.append(name.as_str());
                    },
                }
            },
            Moment::Between => {
                if let Some((op, _, _)) = node.split() {
                    self.out.append(symbol_text(op));
                }
            },
            Moment::Leave => {
                match node {
                    Expression::Plus(_, _) => {
                        self.out.append(")");
                    },
                    Expression::Minus(_, _) => {
                        self.out.append(")");
                    },
                    _ => {},
                }
            },
        }
        assert(self@ =~= old(self)@ + piece(ast.exprs()[e], at));
        Ok(())
    }

    fn visit_declaration(&mut self, ast: &mut Ast, d: DeclarationKey, at: Moment) -> (result:
        Result<(), PassError>) {
        proof {
            lemma_evolves_reflexive(*ast);
        }
        if let Moment::Enter = at {
            self.out.append(ast.decl(d).id.as_str());
            self.out.append(" = ");
        }
        Ok(())
    }

    fn visit_statement(&mut self, ast: &mut Ast, s: StatementKey, at: Moment) -> (result: Result<
        (),
        PassError,
    >) {
        proof {
            lemma_evolves_reflexive(*ast);
        }
        match at {
            Moment::Enter => {
                if let Statement::Print(_) = ast.stmt(s) {
                    self.out.append("print ");
                }
                assert(self@ =~= old(self)@ + keyword(ast.stmts()[s]));
            },
            _ => {
                self.out.append(";\n");
            },
        }
        Ok(())
    }

    proof fn lemma_leaf_walked(
        e: ExpressionKey,
        s0: Stage<Self>,
        s1: Stage<Self>,
        r1: Result<(), PassError>,
        s2: Stage<Self>,
        r2: Result<(), PassError>,
    ) {
        assert(s2.pass@ =~= s0.pass@ + rendered(s0.ast.exprs(), e));
    }

    proof fn lemma_binary_walked(
        e: ExpressionKey,
        l: ExpressionKey,
        r: ExpressionKey,
        s0: Stage<Self>,
        s1: Stage<Self>,
        r1: Result<(), PassError>,
        s2: Stage<Self>,
        r2: Result<(), PassError>,
        s3: Stage<Self>,
        r3: Result<(), PassError>,
        s4: Stage<Self>,
        r4: Result<(), PassError>,
        s5: Stage<Self>,
        r5: Result<(), PassError>,
    ) {
        let nodes = s0.ast.exprs();
        assert(rooted(nodes, e));
        assert(s1.pass@ == s0.pass@ + opening(nodes[e]));
        assert(nodes[e].operands() == Some((l, r)));
        lemma_operands(nodes, e, l, r);
        assert(s2.pass@ == s1.pass@ + rendered(nodes, l));
        assert(s3.pass@ == s2.pass@ + middle(nodes[e]));
        assert(s4.pass@ == s3.pass@ + rendered(nodes, r));
        assert(s5.pass@ == s4.pass@ + closing(nodes[e]));
        assert(rendered(nodes, e) == opening(nodes[e]) + rendered(nodes, l) + middle(nodes[e])
            + rendered(nodes, r) + closing(nodes[e]));
        assert(s5.pass@ =~= s0.pass@ + rendered(nodes, e));
    }

    proof fn lemma_declaration_walked(
        d: DeclarationKey,
        s0: Stage<Self>,
        s1: Stage<Self>,
        r1: Result<(), PassError>,
        s2: Stage<Self>,
        r2: Result<(), PassError>,
        s3: Stage<Self>,
        r3: Result<(), PassError>,
    ) {
        assert(s3.pass@ =~= s0.pass@ + declaration_text(s0.ast, d));
    }

    proof fn lemma_statement_walked(
        s: StatementKey,
        s0: Stage<Self>,
        s1: Stage<Self>,
        r1: Result<(), PassError>,
        s2: Stage<Self>,
        r2: Result<(), PassError>,
        s3: Stage<Self>,
        r3: Result<(), PassError>,
    ) {
        assert(s3.pass@ =~= s0.pass@ + statement_text(s0.ast, s));
    }

    proof fn lemma_nothing_walked(s0: Stage<Self>) {
        assert(s0.pass@ =~= s0.pass@ + program_text(s0.ast, Seq::<StatementKey>::empty()));
    }

    proof fn lemma_more_walked(
        program: Seq<StatementKey>,
        s: StatementKey,
        s0: Stage<Self>,
        s1: Stage<Self>,
        failed: Option<PassError>,
        s2: Stage<Self>,
        r2: Result<(), PassError>,
    ) {
        assert(program.push(s).drop_last() =~= program);
        assert(s2.pass@ =~= s0.pass@ + program_text(s0.ast, program.push(s)));
    }
}

} // verus!
