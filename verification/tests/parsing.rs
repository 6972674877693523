use tinyc::ast::{Ast, BinaryExpr, BinaryOp, Decl, Expr, IdentExpr, Stmt, VarStmt};
use tinyc::lexer::Lexer;
use tinyc::parser::{ParseErrorKind, Parser};
use tinyc::token::Token;
use tinyc::types::{DataType, Keyword};

fn parse(source: &str) -> Parser {
    let mut lexer = Lexer::new(source);
    lexer.tokenize();
    let mut parser = Parser::new(lexer.tokens);
    parser.parse();
    parser
}

fn var(name: &str, value: Expr) -> Decl {
    Decl::Var(VarStmt {
        data_type: DataType::Int,
        name: name.to_string(),
        value,
        id: None,
        is_global: false,
    })
}

fn bin(left: Expr, op: BinaryOp, right: Expr) -> Expr {
    Expr::BinaryExpr(Box::new(BinaryExpr { left, op, right }))
}

#[test]
fn declaration_without_value_is_empty() {
    let p = parse("int x;");
    assert_eq!(p.ast, Ast { decls: vec![var("x", Expr::Empty)] });
    assert!(p.errors.is_empty());
}

#[test]
fn subtraction_is_left_associative() {
    let p = parse("int x = 1 - 2 - 3;");
    let expected = bin(bin(Expr::Int32(1), BinaryOp::Sub, Expr::Int32(2)), BinaryOp::Sub, Expr::Int32(3));
    assert_eq!(p.ast, Ast { decls: vec![var("x", expected)] });
}

#[test]
fn modulo_binds_tighter_than_addition() {
    let p = parse("int x = y + 7 % 2;");
    let y = Expr::Ident(IdentExpr { name: "y".to_string(), id: None, data_type: None });
    let expected = bin(y, BinaryOp::Add, bin(Expr::Int32(7), BinaryOp::Modulo, Expr::Int32(2)));
    assert_eq!(p.ast, Ast { decls: vec![var("x", expected)] });
}

#[test]
fn literal_bounds_and_overflow() {
    let p = parse("int x = 2147483647; int y = 2147483648;");
    assert_eq!(p.ast, Ast { decls: vec![var("x", Expr::Int32(2147483647))] });
    assert_eq!(p.errors.len(), 2);
    assert!(matches!(&p.errors[0].kind, ParseErrorKind::IntParse(s) if s == "2147483648"));
    assert!(matches!(&p.errors[1].kind, ParseErrorKind::ExpectedProgramIdentifier(Token::SemiColon)));
}

#[test]
fn errors_are_recorded_and_parsing_goes_on() {
    let p = parse("5; return 1; foo x; int z;");
    assert_eq!(p.ast, Ast { decls: vec![var("z", Expr::Empty)] });
    let kinds: Vec<&ParseErrorKind> = p.errors.iter().map(|e| &e.kind).collect();
    assert_eq!(kinds.len(), 8);
    assert!(matches!(kinds[0], ParseErrorKind::ExpectedProgramIdentifier(Token::Number(s)) if s == "5"));
    assert!(matches!(kinds[1], ParseErrorKind::ExpectedProgramIdentifier(Token::SemiColon)));
    assert!(matches!(kinds[2], ParseErrorKind::ExpectedDataType(Keyword::Return)));
    assert!(matches!(kinds[3], ParseErrorKind::ExpectedProgramIdentifier(Token::Number(s)) if s == "1"));
    assert!(matches!(kinds[4], ParseErrorKind::ExpectedProgramIdentifier(Token::SemiColon)));
    assert!(matches!(kinds[5], ParseErrorKind::UnknownIdentifier(s) if s == "foo"));
    assert!(matches!(kinds[6], ParseErrorKind::UnknownIdentifier(s) if s == "x"));
    assert!(matches!(kinds[7], ParseErrorKind::ExpectedProgramIdentifier(Token::SemiColon)));
    assert_eq!((p.errors[0].line, p.errors[0].pos), (1, 0));
}

#[test]
fn unknown_identifier_at_the_top() {
    let p = parse("foo x;");
    assert!(matches!(&p.errors[0].kind, ParseErrorKind::UnknownIdentifier(s) if s == "foo"));
}

#[test]
fn nested_function_is_an_error() {
    let p = parse("int main() { int f() { } }");
    assert!(p.ast.decls.is_empty());
    assert!(matches!(&p.errors[0].kind, ParseErrorKind::NestedFunction(f) if f.name == "f"));
    assert_eq!(p.errors[0].pos, 13);
}

#[test]
fn missing_parenthesis_and_stray_operand() {
    let p = parse("int x = (1 + 2; int y = 1 2;");
    assert!(matches!(&p.errors[0].kind, ParseErrorKind::ExpectedRightParen(Token::SemiColon)));
    assert!(matches!(&p.errors[1].kind, ParseErrorKind::UnexpectedInExpression(Token::Number(s)) if s == "2"));
}

#[test]
fn statements_must_start_with_identifiers() {
    let p = parse("int main() { 3; }");
    assert!(matches!(&p.errors[0].kind, ParseErrorKind::ExpectedStmtIdentifier(Token::Number(s)) if s == "3"));
}

#[test]
fn return_needs_a_semicolon() {
    let p = parse("int main() { return 1 }");
    assert!(matches!(&p.errors[0].kind, ParseErrorKind::UnexpectedInExpression(Token::RightCurlyBr)));
    let p = parse("int main() { return 1");
    assert!(matches!(&p.errors[0].kind, ParseErrorKind::ExpectedReturnSemiColon(t) if t.token == Token::Eof));
}

#[test]
fn assignment_needs_equal_and_semicolon() {
    let p = parse("int main() { x 1; }");
    assert!(matches!(&p.errors[0].kind, ParseErrorKind::ExpectedAssignEqual(Token::Number(s)) if s == "1"));
    let p = parse("int main() { x = 1 )");
    assert!(matches!(&p.errors[0].kind, ParseErrorKind::ExpectedAssignSemiColon(Token::RightParen)));
}

#[test]
fn function_needs_its_brackets() {
    let p = parse("int main( {");
    assert!(matches!(&p.errors[0].kind, ParseErrorKind::ExpectedRightParen(Token::LeftCurlyBr)));
    let p = parse("int main() x");
    assert!(matches!(&p.errors[0].kind, ParseErrorKind::ExpectedLeftCurlyBr(Token::Identifier(s)) if s == "x"));
    let p = parse("int main() {");
    assert!(matches!(&p.errors[0].kind, ParseErrorKind::ExpectedRightCurlyBr(Token::Eof)));
}

#[test]
fn bad_name_or_follower() {
    let p = parse("int 5;");
    assert!(matches!(&p.errors[0].kind, ParseErrorKind::ExpectedNodeName(Token::Number(s)) if s == "5"));
    let p = parse("int x + 1;");
    assert!(matches!(&p.errors[0].kind, ParseErrorKind::InvalidTokenAfterName(n, Token::Plus) if n == "x"));
    let p = parse("int x = 1 + 2 )");
    assert!(matches!(&p.errors[0].kind, ParseErrorKind::ExpectedVarSemiColon(Token::RightParen)));
    let p = parse("int x = ?;");
    assert!(matches!(&p.errors[0].kind, ParseErrorKind::UnexpectedExprToken(Token::Question)));
}

#[test]
fn string_and_identifier_operands() {
    let p = parse("int x = \"hi\";");
    assert_eq!(p.ast, Ast { decls: vec![var("x", Expr::String("\"hi".to_string()))] });
}

#[test]
fn parsed_declarations_hold_no_id() {
    let p = parse("int x = 1; int main() { int y = x; int z; y = 3; return y; } int w;");
    assert!(p.errors.is_empty());
    assert_eq!(p.ast.decls.len(), 3);
    for d in p.ast.decls.iter() {
        match d {
            Decl::Var(v) => assert_eq!(v.id, None),
            Decl::FuncDef(f) => {
                assert_eq!(f.body.stmts.len(), 4);
                for s in f.body.stmts.iter() {
                    if let Stmt::Var(v) = s {
                        assert_eq!(v.id, None);
                    }
                }
            },
        }
    }
}

#[test]
fn missing_right_operand_is_an_error() {
    let p = parse("int x = 1 + ;");
    assert_eq!(p.errors.len(), 1);
    assert!(matches!(p.errors[0].kind, ParseErrorKind::UnexpectedExprToken(Token::SemiColon)));
    assert_eq!((p.errors[0].line, p.errors[0].pos), (1, 12));
    assert!(p.ast.decls.is_empty());
}

#[test]
fn parser_accessors_give_the_fields() {
    let p = parse("int x = 1; return;");
    assert_eq!(p.ast_ref(), &p.ast);
    assert_eq!(p.error_list().len(), 2);
    assert!(matches!(p.error_list()[0].kind, ParseErrorKind::ExpectedDataType(Keyword::Return)));
    assert!(matches!(p.error_list()[1].kind, ParseErrorKind::ExpectedProgramIdentifier(Token::SemiColon)));
}

#[test]
fn trees_can_be_cloned() {
    let p = parse("int x = 1 + 2 * y; int main() { int z = x; z = 3; return z; }");
    let copy = p.ast.clone();
    assert_eq!(copy, p.ast);
    assert_eq!(copy.decls[1].clone(), p.ast.decls[1]);
}
