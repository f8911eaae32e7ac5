use arena_ast::ast::{
    Ast, Declaration, DeclarationKey, Expression, ExpressionKey, NodeKey, Statement, StatementKey,
};
use arena_ast::error::PassError;
use arena_ast::resolve::NameResolver;
use arena_ast::visit::{walk_declaration, walk_expression, walk_program, walk_statement};

fn literal(ast: &mut Ast, value: u32) -> ExpressionKey {
    ast.insert_expr(Expression::Literal(value))
}

fn variable(ast: &mut Ast, name: &str) -> ExpressionKey {
    ast.insert_expr(Expression::Var(String::from(name)))
}

fn declare(ast: &mut Ast, name: &str, val: ExpressionKey) -> (DeclarationKey, StatementKey) {
    let d = ast.insert_decl(Declaration { id: String::from(name), val });
    let s = ast.insert_stmt(Statement::Decl(d));
    (d, s)
}

fn site(e: ExpressionKey) -> NodeKey {
    NodeKey::Expression(e)
}

#[test]
fn every_variable_reads_the_declaration_of_its_name() {
    // a = 3 + 4; b = 6; print a + b * (a - b);
    let mut ast = Ast::new();
    let three = literal(&mut ast, 3);
    let four = literal(&mut ast, 4);
    let sum = ast.insert_expr(Expression::Plus(three, four));
    let (decl_a, first) = declare(&mut ast, "a", sum);
    let six = literal(&mut ast, 6);
    let (decl_b, second) = declare(&mut ast, "b", six);
    let a1 = variable(&mut ast, "a");
    let b1 = variable(&mut ast, "b");
    let a2 = variable(&mut ast, "a");
    let b2 = variable(&mut ast, "b");
    let difference = ast.insert_expr(Expression::Minus(a2, b2));
    let product = ast.insert_expr(Expression::Times(b1, difference));
    let top = ast.insert_expr(Expression::Plus(a1, product));
    let third = ast.insert_stmt(Statement::Print(top));
    let program = vec![first, second, third];
    let mut resolver = NameResolver::new();
    assert_eq!(walk_program(&mut resolver, &mut ast, &program), Ok(()));
    assert_eq!(ast.resolution(site(a1)), Some(decl_a));
    assert_eq!(ast.resolution(site(a2)), Some(decl_a));
    assert_eq!(ast.resolution(site(b1)), Some(decl_b));
    assert_eq!(ast.resolution(site(b2)), Some(decl_b));
    assert_ne!(decl_a, decl_b);
    assert_eq!(ast.resolution(site(top)), None);
    assert_eq!(ast.resolution(site(three)), None);
    assert_eq!(resolver.lookup("a"), Some(decl_a));
    assert_eq!(resolver.lookup("b"), Some(decl_b));
    assert_eq!(resolver.lookup("c"), None);
}

#[test]
fn later_declaration_shadows_the_earlier_one() {
    // a = 1; a = 2; print a;
    let mut ast = Ast::new();
    let one = literal(&mut ast, 1);
    let (first_a, first) = declare(&mut ast, "a", one);
    let two = literal(&mut ast, 2);
    let (second_a, second) = declare(&mut ast, "a", two);
    let a = variable(&mut ast, "a");
    let third = ast.insert_stmt(Statement::Print(a));
    let mut resolver = NameResolver::new();
    assert_eq!(walk_program(&mut resolver, &mut ast, &vec![first, second, third]), Ok(()));
    assert_ne!(first_a, second_a);
    assert_eq!(ast.resolution(site(a)), Some(second_a));
    assert_eq!(resolver.lookup("a"), Some(second_a));
}

#[test]
fn variable_between_two_declarations_reads_the_first() {
    // a = 1; print a; a = 2;
    let mut ast = Ast::new();
    let one = literal(&mut ast, 1);
    let (first_a, first) = declare(&mut ast, "a", one);
    let a = variable(&mut ast, "a");
    let second = ast.insert_stmt(Statement::Print(a));
    let two = literal(&mut ast, 2);
    let (second_a, third) = declare(&mut ast, "a", two);
    let mut resolver = NameResolver::new();
    assert_eq!(walk_program(&mut resolver, &mut ast, &vec![first, second, third]), Ok(()));
    assert_eq!(ast.resolution(site(a)), Some(first_a));
    assert_eq!(resolver.lookup("a"), Some(second_a));
}

#[test]
fn undeclared_variable_fails_and_gets_no_record() {
    // print c;
    let mut ast = Ast::new();
    let c = variable(&mut ast, "c");
    let print = ast.insert_stmt(Statement::Print(c));
    let mut resolver = NameResolver::new();
    assert_eq!(
        walk_program(&mut resolver, &mut ast, &vec![print]),
        Err(PassError::UnresolvedIdentifier(String::from("c")))
    );
    assert_eq!(ast.resolution(site(c)), None);
    assert_eq!(resolver.lookup("c"), None);
}

#[test]
fn variable_before_its_declaration_fails() {
    // print a; a = 1;
    let mut ast = Ast::new();
    let a = variable(&mut ast, "a");
    let first = ast.insert_stmt(Statement::Print(a));
    let one = literal(&mut ast, 1);
    let (_, second) = declare(&mut ast, "a", one);
    let mut resolver = NameResolver::new();
    assert_eq!(
        walk_program(&mut resolver, &mut ast, &vec![first, second]),
        Err(PassError::UnresolvedIdentifier(String::from("a")))
    );
    assert_eq!(ast.resolution(site(a)), None);
    assert_eq!(resolver.lookup("a"), None);
}

#[test]
fn initializer_is_resolved_before_its_declaration_binds() {
    // a = 1; a = a + 1; print a;
    let mut ast = Ast::new();
    let one = literal(&mut ast, 1);
    let (first_a, first) = declare(&mut ast, "a", one);
    let inner = variable(&mut ast, "a");
    let another = literal(&mut ast, 1);
    let sum = ast.insert_expr(Expression::Plus(inner, another));
    let (second_a, second) = declare(&mut ast, "a", sum);
    let outer = variable(&mut ast, "a");
    let third = ast.insert_stmt(Statement::Print(outer));
    let mut resolver = NameResolver::new();
    assert_eq!(walk_program(&mut resolver, &mut ast, &vec![first, second, third]), Ok(()));
    assert_eq!(ast.resolution(site(inner)), Some(first_a));
    assert_eq!(ast.resolution(site(outer)), Some(second_a));
}

#[test]
fn declaration_that_reads_itself_fails() {
    // a = a + 1;
    let mut ast = Ast::new();
    let a = variable(&mut ast, "a");
    let one = literal(&mut ast, 1);
    let sum = ast.insert_expr(Expression::Plus(a, one));
    let (d, _) = declare(&mut ast, "a", sum);
    let mut resolver = NameResolver::new();
    assert_eq!(
        walk_declaration(&mut resolver, &mut ast, d),
        Err(PassError::UnresolvedIdentifier(String::from("a")))
    );
    assert_eq!(ast.resolution(site(a)), None);
    assert_eq!(resolver.lookup("a"), None);
}

#[test]
fn first_unbound_variable_from_the_left_is_named() {
    // a = 1; print (x + a) * y;
    let mut ast = Ast::new();
    let one = literal(&mut ast, 1);
    let (decl_a, first) = declare(&mut ast, "a", one);
    let x = variable(&mut ast, "x");
    let a = variable(&mut ast, "a");
    let y = variable(&mut ast, "y");
    let sum = ast.insert_expr(Expression::Plus(x, a));
    let product = ast.insert_expr(Expression::Times(sum, y));
    let second = ast.insert_stmt(Statement::Print(product));
    let mut resolver = NameResolver::new();
    assert_eq!(
        walk_program(&mut resolver, &mut ast, &vec![first, second]),
        Err(PassError::UnresolvedIdentifier(String::from("x")))
    );
    assert_eq!(ast.resolution(site(x)), None);
    assert_eq!(ast.resolution(site(a)), None);
    assert_eq!(ast.resolution(site(y)), None);
    assert_eq!(resolver.lookup("a"), Some(decl_a));
}

#[test]
fn records_made_before_a_failure_remain() {
    // a = 1; print a + c; print a;
    let mut ast = Ast::new();
    let one = literal(&mut ast, 1);
    let (decl_a, first) = declare(&mut ast, "a", one);
    let a1 = variable(&mut ast, "a");
    let c = variable(&mut ast, "c");
    let sum = ast.insert_expr(Expression::Plus(a1, c));
    let second = ast.insert_stmt(Statement::Print(sum));
    let a2 = variable(&mut ast, "a");
    let third = ast.insert_stmt(Statement::Print(a2));
    let mut resolver = NameResolver::new();
    assert_eq!(
        walk_program(&mut resolver, &mut ast, &vec![first, second, third]),
        Err(PassError::UnresolvedIdentifier(String::from("c")))
    );
    assert_eq!(ast.resolution(site(a1)), Some(decl_a));
    assert_eq!(ast.resolution(site(c)), None);
    assert_eq!(ast.resolution(site(a2)), None);
}

#[test]
fn failed_declaration_does_not_bind_its_name() {
    // b = c;
    let mut ast = Ast::new();
    let c = variable(&mut ast, "c");
    let (_, s) = declare(&mut ast, "b", c);
    let mut resolver = NameResolver::new();
    assert_eq!(
        walk_statement(&mut resolver, &mut ast, s),
        Err(PassError::UnresolvedIdentifier(String::from("c")))
    );
    assert_eq!(resolver.lookup("b"), None);
}

#[test]
fn expression_is_resolved_under_the_scope_of_the_resolver() {
    let mut ast = Ast::new();
    let one = literal(&mut ast, 1);
    let (decl_a, _) = declare(&mut ast, "a", one);
    let a = variable(&mut ast, "a");
    let two = literal(&mut ast, 2);
    let product = ast.insert_expr(Expression::Times(a, two));
    let mut resolver = NameResolver::new();
    assert_eq!(walk_declaration(&mut resolver, &mut ast, decl_a), Ok(()));
    assert_eq!(walk_expression(&mut resolver, &mut ast, product), Ok(()));
    assert_eq!(ast.resolution(site(a)), Some(decl_a));
    assert_eq!(ast.resolution(site(product)), None);
}

#[test]
fn new_resolver_binds_no_name() {
    let resolver = NameResolver::new();
    assert_eq!(resolver.lookup("a"), None);
    assert_eq!(resolver.lookup(""), None);
}

#[test]
fn shared_variable_gets_the_record_of_its_last_statement() {
    // a = 1; print a; a = 2; print a;   with one node for both uses of a
    let mut ast = Ast::new();
    let one = literal(&mut ast, 1);
    let (_, first) = declare(&mut ast, "a", one);
    let a = variable(&mut ast, "a");
    let second = ast.insert_stmt(Statement::Print(a));
    let two = literal(&mut ast, 2);
    let (second_a, third) = declare(&mut ast, "a", two);
    let fourth = ast.insert_stmt(Statement::Print(a));
    let mut resolver = NameResolver::new();
    assert_eq!(
        walk_program(&mut resolver, &mut ast, &vec![first, second, third, fourth]),
        Ok(())
    );
    assert_eq!(ast.resolution(site(a)), Some(second_a));
}

#[test]
fn resolving_leaves_the_nodes_as_they_are() {
    let mut ast = Ast::new();
    let three = literal(&mut ast, 3);
    let four = literal(&mut ast, 4);
    let sum = ast.insert_expr(Expression::Plus(three, four));
    let (d, s) = declare(&mut ast, "a", sum);
    let mut resolver = NameResolver::new();
    assert_eq!(walk_program(&mut resolver, &mut ast, &vec![s]), Ok(()));
    assert_eq!(ast.expr(sum), &Expression::Plus(three, four));
    assert_eq!(ast.decl(d), &Declaration { id: String::from("a"), val: sum });
    assert_eq!(ast.stmt(s), &Statement::Decl(d));
}

#[test]
fn unresolved_identifier_says_which_name() {
    let error = PassError::UnresolvedIdentifier(String::from("c"));
    assert_eq!(error.message(), "Failed to look up name 'c'");
}

#[test]
fn arithmetic_fault_has_a_message() {
    assert_eq!(PassError::ArithmeticFault.message(), "Arithmetic fault in a constant expression");
}

#[test]
fn failure_keeps_the_records_of_the_variables_before_it() {
    // a = 1; b = 2; print (a + b) * (c + a);
    let mut ast = Ast::new();
    let one = literal(&mut ast, 1);
    let (decl_a, first) = declare(&mut ast, "a", one);
    let two = literal(&mut ast, 2);
    let (decl_b, second) = declare(&mut ast, "b", two);
    let a1 = variable(&mut ast, "a");
    let b = variable(&mut ast, "b");
    let left = ast.insert_expr(Expression::Plus(a1, b));
    let c = variable(&mut ast, "c");
    let a2 = variable(&mut ast, "a");
    let right = ast.insert_expr(Expression::Plus(c, a2));
    let product = ast.insert_expr(Expression::Times(left, right));
    let third = ast.insert_stmt(Statement::Print(product));
    let mut resolver = NameResolver::new();
    assert_eq!(
        walk_program(&mut resolver, &mut ast, &vec![first, second, third]),
        Err(PassError::UnresolvedIdentifier(String::from("c")))
    );
    assert_eq!(ast.resolution(site(a1)), Some(decl_a));
    assert_eq!(ast.resolution(site(b)), Some(decl_b));
    assert_eq!(ast.resolution(site(c)), None);
    assert_eq!(ast.resolution(site(a2)), None);
    assert_eq!(resolver.lookup("a"), Some(decl_a));
    assert_eq!(resolver.lookup("b"), Some(decl_b));
}

#[test]
fn record_from_an_earlier_pass_is_replaced() {
    let mut ast = Ast::new();
    let one = literal(&mut ast, 1);
    let (old_a, _) = declare(&mut ast, "a", one);
    let two = literal(&mut ast, 2);
    let (new_a, s) = declare(&mut ast, "a", two);
    let a = variable(&mut ast, "a");
    let print = ast.insert_stmt(Statement::Print(a));
    ast.resolve(site(a), old_a);
    let mut resolver = NameResolver::new();
    assert_eq!(walk_program(&mut resolver, &mut ast, &vec![s, print]), Ok(()));
    assert_eq!(ast.resolution(site(a)), Some(new_a));
}
