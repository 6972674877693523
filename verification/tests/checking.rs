use tinyc::ast::{Ast, Decl, Expr, FunctionDef, IdentExpr, Stmt};
use tinyc::lexer::Lexer;
use tinyc::parser::Parser;
use tinyc::semantic::{ScopeData, Semantic, SemanticError};
use tinyc::types::DataType;

fn parse(source: &str) -> Ast {
    let mut lexer = Lexer::new(source);
    lexer.tokenize();
    let mut parser = Parser::new(lexer.tokens);
    parser.parse();
    assert!(parser.errors.is_empty());
    parser.ast
}

fn check(source: &str) -> (Ast, Vec<SemanticError>) {
    let mut ast = parse(source);
    let mut sym = Semantic::new();
    sym.analyze(&mut ast);
    (ast, sym.errors)
}

fn func(ast: &Ast, k: usize) -> &FunctionDef {
    match &ast.decls[k] {
        Decl::FuncDef(f) => f,
        _ => panic!("not a function"),
    }
}

fn resolved(name: &str, id: usize) -> Expr {
    Expr::Ident(IdentExpr { name: name.to_string(), id: Some(id), data_type: Some(DataType::Int) })
}

#[test]
fn declarations_get_ids_in_order_and_uses_are_resolved() {
    let (ast, errors) = check("int x = 1; int main() { int y = x; y = 2; return y; }");
    assert!(errors.is_empty());
    match &ast.decls[0] {
        Decl::Var(v) => assert_eq!(v.id, Some(0)),
        _ => panic!(),
    }
    let f = func(&ast, 1);
    match &f.body.stmts[0] {
        Stmt::Var(v) => {
            assert_eq!(v.id, Some(1));
            assert_eq!(v.value, resolved("x", 0));
        },
        _ => panic!(),
    }
    match &f.body.stmts[1] {
        Stmt::Assign(a) => {
            assert_eq!(a.target, resolved("y", 1));
            assert_eq!(a.value, Expr::Int32(2));
        },
        _ => panic!(),
    }
    assert_eq!(f.body.stmts[2], Stmt::Return(resolved("y", 1)));
}

#[test]
fn undeclared_name() {
    let (_, errors) = check("int main() { return x; }");
    assert_eq!(errors, vec![SemanticError::UndeclaredIdentifier("x".to_string())]);
}

#[test]
fn redefinition_in_one_scope() {
    let (_, errors) = check("int x = 1; int x = 2;");
    assert_eq!(errors, vec![SemanticError::Redefinition("x".to_string())]);
}

#[test]
fn shadowing_in_a_function_is_allowed() {
    let (ast, errors) = check("int x = 1; int main() { int x = 2; return x; }");
    assert!(errors.is_empty());
    assert_eq!(func(&ast, 1).body.stmts[1], Stmt::Return(resolved("x", 1)));
}

#[test]
fn type_mismatches() {
    let (_, errors) = check("void v = 1;");
    assert_eq!(errors, vec![SemanticError::VarTypeMismatch(DataType::Void, DataType::Int)]);
    let (_, errors) = check("int main() { return; }");
    assert_eq!(errors, vec![SemanticError::ReturnTypeMismatch(DataType::Int, DataType::Void)]);
    let (_, errors) = check("int s = \"a\";");
    assert_eq!(errors, vec![SemanticError::VarTypeMismatch(DataType::Int, DataType::CharPtr)]);
    let (_, errors) = check("int a = 1 + \"s\";");
    assert_eq!(errors, vec![SemanticError::OperandTypeMismatch(DataType::Int, DataType::CharPtr)]);
}

#[test]
fn void_function_returning_nothing_is_fine() {
    let (_, errors) = check("void f() { return; }");
    assert!(errors.is_empty());
}

#[test]
fn assignment_value_is_left_unresolved() {
    let (ast, errors) = check("int x = 1; int y = 2; int main() { x = y; return x; }");
    assert!(errors.is_empty());
    match &func(&ast, 2).body.stmts[0] {
        Stmt::Assign(a) => {
            assert_eq!(a.target, resolved("x", 0));
            assert_eq!(
                a.value,
                Expr::Ident(IdentExpr { name: "y".to_string(), id: None, data_type: None })
            );
        },
        _ => panic!(),
    }
}

#[test]
fn checking_stops_at_the_first_error_of_a_function() {
    let (ast, errors) = check("int main() { return z; int a = 1; }");
    assert_eq!(errors, vec![SemanticError::UndeclaredIdentifier("z".to_string())]);
    match &func(&ast, 0).body.stmts[1] {
        Stmt::Var(v) => assert_eq!(v.id, None),
        _ => panic!(),
    }
}

#[test]
fn a_clean_program_can_be_checked_again() {
    let mut ast = parse("int x = 1;");
    let mut sym = Semantic::new();
    sym.analyze(&mut ast);
    let mut again = parse("int x = 2;");
    sym.analyze(&mut again);
    assert!(sym.errors.is_empty());
    match &again.decls[0] {
        Decl::Var(v) => assert_eq!(v.id, Some(1)),
        _ => panic!(),
    }
}

#[test]
fn scope_data_new() {
    let s = ScopeData::new(Some(3), DataType::Int);
    assert_eq!(s, ScopeData { id: Some(3), data_type: DataType::Int });
}

fn var_id(d: &Decl) -> Option<usize> {
    match d {
        Decl::Var(v) => v.id,
        _ => panic!("not a variable"),
    }
}

#[test]
fn ids_are_never_given_twice() {
    let mut sym = Semantic::new();
    let mut first = parse("int a = 1; int a = 2; int b = 3;");
    sym.analyze(&mut first);
    assert_eq!(sym.errors, vec![SemanticError::Redefinition("a".to_string())]);
    let ids: Vec<Option<usize>> = first.decls.iter().map(var_id).collect();
    assert_eq!(ids, vec![Some(0), None, Some(1)]);
    let mut second = parse("int c = 4; int main() { int d = 5; return d; }");
    sym.analyze(&mut second);
    assert_eq!(var_id(&second.decls[0]), Some(2));
    match &func(&second, 1).body.stmts[0] {
        Stmt::Var(v) => assert_eq!(v.id, Some(3)),
        _ => panic!(),
    }
}

#[test]
fn var_count_counts_global_and_local_declarations() {
    let ast = parse("int a = 1; int main() { int b = 2; b = 3; int c = 4; return c; } int d;");
    assert_eq!(tinyc::semantic::var_count(&ast), Some(4));
    assert_eq!(tinyc::semantic::var_count(&Ast { decls: vec![] }), Some(0));
}
