use arena_ast::ast::{Ast, Declaration, Expression, NodeKey, Operator, Statement, SLOT_LIMIT};

#[test]
fn new_store_is_empty() {
    let ast = Ast::new();
    assert_eq!(ast.expr_count(), 0);
    assert_eq!(ast.decl_count(), 0);
    assert_eq!(ast.stmt_count(), 0);
}

#[test]
fn inserted_expression_is_found_under_its_key() {
    let mut ast = Ast::new();
    let three = ast.insert_expr(Expression::Literal(3));
    let x = ast.insert_expr(Expression::Var(String::from("x")));
    let sum = ast.insert_expr(Expression::Plus(three, x));
    assert_eq!(ast.expr(three), &Expression::Literal(3));
    assert_eq!(ast.expr(x), &Expression::Var(String::from("x")));
    assert_eq!(ast.expr(sum), &Expression::Plus(three, x));
    assert_eq!(ast.get_expr(sum), Some(&Expression::Plus(three, x)));
    assert_eq!(ast.expr_count(), 3);
}

#[test]
fn keys_of_one_kind_differ() {
    let mut ast = Ast::new();
    let a = ast.insert_expr(Expression::Literal(1));
    let b = ast.insert_expr(Expression::Literal(1));
    let c = ast.insert_expr(Expression::Literal(1));
    assert_ne!(a, b);
    assert_ne!(b, c);
    assert_ne!(a, c);
}

#[test]
fn inserted_declaration_is_found_under_its_key() {
    let mut ast = Ast::new();
    let six = ast.insert_expr(Expression::Literal(6));
    let b = ast.insert_decl(Declaration { id: String::from("b"), val: six });
    assert_eq!(ast.decl(b).id, "b");
    assert_eq!(ast.decl(b).val, six);
    assert_eq!(ast.get_decl(b), Some(&Declaration { id: String::from("b"), val: six }));
    assert_eq!(ast.decl_count(), 1);
    assert_eq!(ast.expr_count(), 1);
}

#[test]
fn inserted_statement_is_found_under_its_key() {
    let mut ast = Ast::new();
    let six = ast.insert_expr(Expression::Literal(6));
    let b = ast.insert_decl(Declaration { id: String::from("b"), val: six });
    let first = ast.insert_stmt(Statement::Decl(b));
    let second = ast.insert_stmt(Statement::Print(six));
    assert_eq!(ast.stmt(first), &Statement::Decl(b));
    assert_eq!(ast.stmt(second), &Statement::Print(six));
    assert_eq!(ast.get_stmt(second), Some(&Statement::Print(six)));
    assert_eq!(ast.stmt_count(), 2);
}

#[test]
fn key_of_another_store_that_is_not_in_use_finds_nothing() {
    let mut big = Ast::new();
    big.insert_expr(Expression::Literal(1));
    let second = big.insert_expr(Expression::Literal(2));
    let six = big.insert_expr(Expression::Literal(6));
    let d = big.insert_decl(Declaration { id: String::from("b"), val: six });
    let s = big.insert_stmt(Statement::Decl(d));
    let mut small = Ast::new();
    small.insert_expr(Expression::Literal(9));
    assert_eq!(small.get_expr(second), None);
    assert_eq!(small.get_decl(d), None);
    assert_eq!(small.get_stmt(s), None);
}

#[test]
fn replaced_expression_keeps_its_key() {
    let mut ast = Ast::new();
    let three = ast.insert_expr(Expression::Literal(3));
    let four = ast.insert_expr(Expression::Literal(4));
    let sum = ast.insert_expr(Expression::Plus(three, four));
    ast.set_expr(sum, Expression::Literal(7));
    assert_eq!(ast.expr(sum), &Expression::Literal(7));
    assert_eq!(ast.expr(three), &Expression::Literal(3));
    assert_eq!(ast.expr(four), &Expression::Literal(4));
    assert_eq!(ast.expr_count(), 3);
}

#[test]
fn resolution_is_recorded_and_read_back() {
    let mut ast = Ast::new();
    let a = ast.insert_expr(Expression::Var(String::from("a")));
    let one = ast.insert_expr(Expression::Literal(1));
    let first = ast.insert_decl(Declaration { id: String::from("a"), val: one });
    let second = ast.insert_decl(Declaration { id: String::from("a"), val: one });
    assert_eq!(ast.resolution(NodeKey::Expression(a)), None);
    ast.resolve(NodeKey::Expression(a), first);
    assert_eq!(ast.resolution(NodeKey::Expression(a)), Some(first));
    ast.resolve(NodeKey::Expression(a), second);
    assert_eq!(ast.resolution(NodeKey::Expression(a)), Some(second));
    assert_eq!(ast.resolution(NodeKey::Expression(one)), None);
}

#[test]
fn sites_of_different_kinds_are_told_apart() {
    let mut ast = Ast::new();
    let e = ast.insert_expr(Expression::Literal(1));
    let d = ast.insert_decl(Declaration { id: String::from("a"), val: e });
    let s = ast.insert_stmt(Statement::Decl(d));
    ast.resolve(NodeKey::Expression(e), d);
    assert_eq!(ast.resolution(NodeKey::Expression(e)), Some(d));
    assert_eq!(ast.resolution(NodeKey::Declaration(d)), None);
    assert_eq!(ast.resolution(NodeKey::Statement(s)), None);
    ast.resolve(NodeKey::Statement(s), d);
    assert_eq!(ast.resolution(NodeKey::Statement(s)), Some(d));
    assert_eq!(ast.resolution(NodeKey::Declaration(d)), None);
}

#[test]
fn binary_expression_splits_into_operator_and_operands() {
    let mut ast = Ast::new();
    let l = ast.insert_expr(Expression::Literal(6));
    let r = ast.insert_expr(Expression::Literal(2));
    assert_eq!(Expression::Plus(l, r).split(), Some((Operator::Plus, l, r)));
    assert_eq!(Expression::Minus(l, r).split(), Some((Operator::Minus, l, r)));
    assert_eq!(Expression::Times(l, r).split(), Some((Operator::Times, l, r)));
    assert_eq!(Expression::Div(r, l).split(), Some((Operator::Div, r, l)));
    assert_eq!(Expression::Literal(5).split(), None);
    assert_eq!(Expression::Var(String::from("v")).split(), None);
}

#[test]
fn only_a_literal_has_a_value() {
    let mut ast = Ast::new();
    let l = ast.insert_expr(Expression::Literal(6));
    assert_eq!(Expression::Literal(41).value(), Some(41));
    assert_eq!(Expression::Var(String::from("v")).value(), None);
    assert_eq!(Expression::Times(l, l).value(), None);
}

#[test]
fn slot_limit_is_what_a_slot_map_holds() {
    assert_eq!(SLOT_LIMIT, 4294967294);
}

#[test]
fn well_formed_expression_passes_the_check() {
    let mut ast = Ast::new();
    let three = ast.insert_expr(Expression::Literal(3));
    let four = ast.insert_expr(Expression::Literal(4));
    let sum = ast.insert_expr(Expression::Plus(three, four));
    let two = ast.insert_expr(Expression::Literal(2));
    let product = ast.insert_expr(Expression::Times(sum, two));
    assert!(ast.check_expression(three, 0));
    assert!(!ast.check_expression(sum, 0));
    assert!(ast.check_expression(sum, 1));
    assert!(!ast.check_expression(product, 1));
    assert!(ast.check_expression(product, 2));
    assert!(ast.check_expression(product, 100));
}

#[test]
fn cycle_fails_the_check() {
    let mut ast = Ast::new();
    let one = ast.insert_expr(Expression::Literal(1));
    let node = ast.insert_expr(Expression::Plus(one, one));
    ast.set_expr(node, Expression::Plus(node, one));
    assert!(!ast.check_expression(node, 0));
    assert!(!ast.check_expression(node, 10));
}

#[test]
fn dangling_key_fails_the_check() {
    let mut other = Ast::new();
    other.insert_expr(Expression::Literal(1));
    let stray = other.insert_expr(Expression::Literal(2));
    let mut ast = Ast::new();
    let one = ast.insert_expr(Expression::Literal(1));
    let node = ast.insert_expr(Expression::Minus(one, stray));
    assert!(!ast.check_expression(stray, 5));
    assert!(!ast.check_expression(node, 5));
    let stmt = ast.insert_stmt(Statement::Print(node));
    assert!(!ast.check_statement(stmt, 5));
    assert!(!ast.check_program(&vec![stmt], 5));
}

#[test]
fn well_formed_program_passes_the_check() {
    let mut ast = Ast::new();
    let three = ast.insert_expr(Expression::Literal(3));
    let four = ast.insert_expr(Expression::Literal(4));
    let sum = ast.insert_expr(Expression::Plus(three, four));
    let a = ast.insert_decl(Declaration { id: String::from("a"), val: sum });
    let first = ast.insert_stmt(Statement::Decl(a));
    let var = ast.insert_expr(Expression::Var(String::from("a")));
    let second = ast.insert_stmt(Statement::Print(var));
    assert!(ast.check_statement(first, 1));
    assert!(!ast.check_statement(first, 0));
    assert!(ast.check_statement(second, 0));
    assert!(ast.check_program(&vec![first, second], 1));
    assert!(!ast.check_program(&vec![first, second], 0));
    assert!(ast.check_program(&vec![], 0));
}
