use arena_ast::ast::{
    Ast, Declaration, DeclarationKey, Expression, ExpressionKey, Statement, StatementKey,
};
use arena_ast::visit::{
    walk_declaration, walk_expression, walk_program, walk_statement, Moment, Stage, Visitor,
};
use vstd::seq::Seq;

/// Writes down every call that a walk makes, and fails at the call numbered `fail_at`.
struct Recorder {
    calls: Vec<String>,
    fail_at: Option<usize>,
}

impl Recorder {
    fn new() -> Recorder {
        Recorder { calls: Vec::new(), fail_at: None }
    }

    fn failing_at(call: usize) -> Recorder {
        Recorder { calls: Vec::new(), fail_at: Some(call) }
    }

    fn record(&mut self, what: String) -> Result<u32, String> {
        self.calls.push(what);
        if self.fail_at == Some(self.calls.len()) {
            Err(format!("failed at call {}", self.calls.len()))
        } else {
            Ok(self.calls.len() as u32)
        }
    }
}

fn moment(at: Moment) -> &'static str {
    match at {
        Moment::Enter => "enter",
        Moment::Between => "between",
        Moment::Leave => "leave",
    }
}

impl Visitor<u32, String> for Recorder {
    fn visit_expression(
        &mut self,
        ast: &mut Ast,
        e: ExpressionKey,
        at: Moment,
    ) -> Result<u32, String> {
        let what = match ast.expr(e) {
            Expression::Literal(value) => format!("{}", value),
            Expression::Var(name) => name.clone(),
            Expression::Plus(_, _) => String::from("+"),
            Expression::Minus(_, _) => String::from("-"),
            Expression::Times(_, _) => String::from("*"),
            Expression::Div(_, _) => String::from("/"),
        };
        self.record(format!("{} {}", moment(at), what))
    }

    fn visit_declaration(
        &mut self,
        ast: &mut Ast,
        d: DeclarationKey,
        at: Moment,
    ) -> Result<u32, String> {
        let what = format!("{} decl {}", moment(at), ast.decl(d).id);
        self.record(what)
    }

    fn visit_statement(
        &mut self,
        _ast: &mut Ast,
        _s: StatementKey,
        at: Moment,
    ) -> Result<u32, String> {
        self.record(format!("{} stmt", moment(at)))
    }

    // What follows is never run: it is what a verified pass states and proves of itself.

    fn expression_visited(
        _: Stage<Self>,
        _: ExpressionKey,
        _: Moment,
        _: Stage<Self>,
        _: Result<u32, String>,
    ) -> bool {
        unreachable!()
    }

    fn declaration_visited(
        _: Stage<Self>,
        _: DeclarationKey,
        _: Moment,
        _: Stage<Self>,
        _: Result<u32, String>,
    ) -> bool {
        unreachable!()
    }

    fn statement_visited(
        _: Stage<Self>,
        _: StatementKey,
        _: Moment,
        _: Stage<Self>,
        _: Result<u32, String>,
    ) -> bool {
        unreachable!()
    }

    fn expression_walked(
        _: Stage<Self>,
        _: ExpressionKey,
        _: Stage<Self>,
        _: Result<u32, String>,
    ) -> bool {
        unreachable!()
    }

    fn declaration_walked(
        _: Stage<Self>,
        _: DeclarationKey,
        _: Stage<Self>,
        _: Result<u32, String>,
    ) -> bool {
        unreachable!()
    }

    fn statement_walked(
        _: Stage<Self>,
        _: StatementKey,
        _: Stage<Self>,
        _: Result<u32, String>,
    ) -> bool {
        unreachable!()
    }

    fn program_walked(
        _: Stage<Self>,
        _: Seq<StatementKey>,
        _: Stage<Self>,
        _: Option<String>,
    ) -> bool {
        unreachable!()
    }

    fn lemma_leaf_walked(
        _: ExpressionKey,
        _: Stage<Self>,
        _: Stage<Self>,
        _: Result<u32, String>,
        _: Stage<Self>,
        _: Result<u32, String>,
    ) {
    }

    fn lemma_binary_walked(
        _: ExpressionKey,
        _: ExpressionKey,
        _: ExpressionKey,
        _: Stage<Self>,
        _: Stage<Self>,
        _: Result<u32, String>,
        _: Stage<Self>,
        _: Result<u32, String>,
        _: Stage<Self>,
        _: Result<u32, String>,
        _: Stage<Self>,
        _: Result<u32, String>,
        _: Stage<Self>,
        _: Result<u32, String>,
    ) {
    }

    fn lemma_declaration_walked(
        _: DeclarationKey,
        _: Stage<Self>,
        _: Stage<Self>,
        _: Result<u32, String>,
        _: Stage<Self>,
        _: Result<u32, String>,
        _: Stage<Self>,
        _: Result<u32, String>,
    ) {
    }

    fn lemma_statement_walked(
        _: StatementKey,
        _: Stage<Self>,
        _: Stage<Self>,
        _: Result<u32, String>,
        _: Stage<Self>,
        _: Result<u32, String>,
        _: Stage<Self>,
        _: Result<u32, String>,
    ) {
    }

    fn lemma_nothing_walked(_: Stage<Self>) {
    }

    fn lemma_more_walked(
        _: Seq<StatementKey>,
        _: StatementKey,
        _: Stage<Self>,
        _: Stage<Self>,
        _: Option<String>,
        _: Stage<Self>,
        _: Result<u32, String>,
    ) {
    }
}

fn sample(ast: &mut Ast) -> (ExpressionKey, DeclarationKey, StatementKey, StatementKey) {
    // a = 1 + x; print 2;
    let one = ast.insert_expr(Expression::Literal(1));
    let x = ast.insert_expr(Expression::Var(String::from("x")));
    let sum = ast.insert_expr(Expression::Plus(one, x));
    let d = ast.insert_decl(Declaration { id: String::from("a"), val: sum });
    let first = ast.insert_stmt(Statement::Decl(d));
    let two = ast.insert_expr(Expression::Literal(2));
    let second = ast.insert_stmt(Statement::Print(two));
    (sum, d, first, second)
}

#[test]
fn leaf_is_entered_and_left() {
    let mut ast = Ast::new();
    let five = ast.insert_expr(Expression::Literal(5));
    let mut recorder = Recorder::new();
    assert_eq!(walk_expression(&mut recorder, &mut ast, five), Ok(2));
    assert_eq!(recorder.calls, vec!["enter 5", "leave 5"]);
}

#[test]
fn binary_expression_is_walked_left_then_right() {
    let mut ast = Ast::new();
    let (sum, _, _, _) = sample(&mut ast);
    let mut recorder = Recorder::new();
    assert_eq!(walk_expression(&mut recorder, &mut ast, sum), Ok(7));
    assert_eq!(
        recorder.calls,
        vec!["enter +", "enter 1", "leave 1", "between +", "enter x", "leave x", "leave +"]
    );
}

#[test]
fn declaration_is_walked_through_its_initializer() {
    let mut ast = Ast::new();
    let (_, d, _, _) = sample(&mut ast);
    let mut recorder = Recorder::new();
    assert_eq!(walk_declaration(&mut recorder, &mut ast, d), Ok(9));
    assert_eq!(
        recorder.calls,
        vec![
            "enter decl a",
            "enter +",
            "enter 1",
            "leave 1",
            "between +",
            "enter x",
            "leave x",
            "leave +",
            "leave decl a"
        ]
    );
}

#[test]
fn statement_is_walked_through_what_it_holds() {
    let mut ast = Ast::new();
    let (_, _, first, second) = sample(&mut ast);
    let mut recorder = Recorder::new();
    assert_eq!(walk_statement(&mut recorder, &mut ast, second), Ok(4));
    assert_eq!(recorder.calls, vec!["enter stmt", "enter 2", "leave 2", "leave stmt"]);
    let mut recorder = Recorder::new();
    assert_eq!(walk_statement(&mut recorder, &mut ast, first), Ok(11));
    assert_eq!(recorder.calls.first().map(String::as_str), Some("enter stmt"));
    assert_eq!(recorder.calls.get(1).map(String::as_str), Some("enter decl a"));
    assert_eq!(recorder.calls.last().map(String::as_str), Some("leave stmt"));
}

#[test]
fn program_is_walked_in_order_and_gives_the_default() {
    let mut ast = Ast::new();
    let (_, _, first, second) = sample(&mut ast);
    let mut recorder = Recorder::new();
    assert_eq!(walk_program(&mut recorder, &mut ast, &vec![first, second]), Ok(0));
    assert_eq!(recorder.calls.len(), 15);
    assert_eq!(recorder.calls[0], "enter stmt");
    assert_eq!(recorder.calls[10], "leave stmt");
    assert_eq!(recorder.calls[11], "enter stmt");
    assert_eq!(recorder.calls[12], "enter 2");
    let mut recorder = Recorder::new();
    assert_eq!(walk_program(&mut recorder, &mut ast, &vec![second, first]), Ok(0));
    assert_eq!(recorder.calls[1], "enter 2");
    assert_eq!(recorder.calls.len(), 15);
}

#[test]
fn empty_program_makes_no_call() {
    let mut ast = Ast::new();
    let mut recorder = Recorder::new();
    assert_eq!(walk_program(&mut recorder, &mut ast, &vec![]), Ok(0));
    assert!(recorder.calls.is_empty());
}

#[test]
fn first_error_ends_the_walk() {
    let mut ast = Ast::new();
    let (_, _, first, second) = sample(&mut ast);
    for call in 1..=15 {
        let mut recorder = Recorder::failing_at(call);
        assert_eq!(
            walk_program(&mut recorder, &mut ast, &vec![first, second]),
            Err(format!("failed at call {}", call))
        );
        assert_eq!(recorder.calls.len(), call);
    }
}

#[test]
fn error_between_the_operands_skips_the_right_operand() {
    let mut ast = Ast::new();
    let (sum, _, _, _) = sample(&mut ast);
    let mut recorder = Recorder::failing_at(4);
    assert_eq!(
        walk_expression(&mut recorder, &mut ast, sum),
        Err(String::from("failed at call 4"))
    );
    assert_eq!(recorder.calls, vec!["enter +", "enter 1", "leave 1", "between +"]);
}
