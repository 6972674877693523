use tinyc::ast::{Ast, BinaryExpr, BinaryOp, Block, Decl, Expr, FunctionDef, IfStmt, Stmt, VarStmt};
use tinyc::ir::{IrError, IrGen};
use tinyc::lexer::Lexer;
use tinyc::parser::Parser;
use tinyc::semantic::Semantic;
use tinyc::types::DataType;

fn compile(source: &str) -> Result<String, IrError> {
    let mut lexer = Lexer::new(source);
    lexer.tokenize();
    let mut parser = Parser::new(lexer.tokens);
    parser.parse();
    let mut sym = Semantic::new();
    sym.analyze(&mut parser.ast);
    assert!(sym.errors.is_empty());
    let mut ir = IrGen::new(&parser.ast);
    ir.try_gen_ir()?;
    Ok(ir.get_ir())
}

#[test]
fn variables_loads_and_stores() {
    let out = compile("int x = 1; int main() { int y = x; y = 2; return y; }").unwrap();
    let expected = "    %x_0 = alloca i32\n\
                    \x20   store i32 1, ptr %x_0\n\
                    \x20   %x_0_value_0 = load i32, ptr %x_0\n\
                    define i32 @main() {\n\
                    entry:\n\
                    \x20   %y_1 = alloca i32\n\
                    \x20   store i32 %x_0_value_0, ptr %y_1\n\
                    \x20   %y_1_value_0 = load i32, ptr %y_1\n\
                    \x20   store i32 2, ptr %y_1\n\
                    \x20   %y_1_value_1 = load i32, ptr %y_1\n\
                    \x20   ret i32 %y_1_value_1\n\
                    }\n";
    assert_eq!(out, expected);
}

#[test]
fn arithmetic_uses_numbered_temporaries() {
    let out = compile("int main() { int a = 1 + 2 * 3; int b = 10 / a - 7 % 3; return b; }").unwrap();
    let expected = "define i32 @main() {\n\
                    entry:\n\
                    \x20   %a_0 = alloca i32\n\
                    \x20   %a_0_mul_0 = mul i32 2, 3\n\
                    \x20   %a_0_add_1 = add i32 1, %a_0_mul_0\n\
                    \x20   store i32 %a_0_add_1, ptr %a_0\n\
                    \x20   %a_0_value_0 = load i32, ptr %a_0\n\
                    \x20   %b_1 = alloca i32\n\
                    \x20   %b_1_sdiv_2 = sdiv i32 10, %a_0_value_0\n\
                    \x20   %b_1_srem_3 = srem i32 7, 3\n\
                    \x20   %b_1_sub_4 = sub i32 %b_1_sdiv_2, %b_1_srem_3\n\
                    \x20   store i32 %b_1_sub_4, ptr %b_1\n\
                    \x20   %b_1_value_0 = load i32, ptr %b_1\n\
                    \x20   ret i32 %b_1_value_0\n\
                    }\n";
    assert_eq!(out, expected);
}

#[test]
fn void_return() {
    let out = compile("void f() { return; }").unwrap();
    assert_eq!(out, "define void @f() {\nentry:\n    ret void\n}\n");
}

#[test]
fn declaration_without_value_has_only_its_slot() {
    let ast = Ast { decls: vec![var("x", 0, DataType::Int, Expr::Empty)] };
    let mut ir = IrGen::new(&ast);
    ir.gen_ir();
    assert_eq!(ir.get_ir(), "    %x_0 = alloca i32\n");
}

#[test]
fn negative_numbers_are_written_in_decimal() {
    let f = FunctionDef {
        return_type: DataType::Int,
        name: "m".to_string(),
        params: vec![],
        body: Block { stmts: vec![Stmt::Return(Expr::Int32(i32::MIN))] },
    };
    let ast = Ast { decls: vec![Decl::FuncDef(f)] };
    let mut ir = IrGen::new(&ast);
    ir.gen_ir();
    assert_eq!(ir.get_ir(), "define i32 @m() {\nentry:\n    ret i32 -2147483648\n}\n");
}

#[test]
fn unresolved_variable_has_no_slot() {
    let mut lexer = Lexer::new("int x = 1;");
    lexer.tokenize();
    let mut parser = Parser::new(lexer.tokens);
    parser.parse();
    let mut ir = IrGen::new(&parser.ast);
    assert_eq!(ir.try_gen_ir(), Err(IrError::MissingId("x".to_string())));
}

fn var(name: &str, id: usize, data_type: DataType, value: Expr) -> Decl {
    Decl::Var(VarStmt { data_type, name: name.to_string(), value, id: Some(id), is_global: false })
}

#[test]
fn constructs_without_code() {
    let ast = Ast { decls: vec![var("s", 0, DataType::CharPtr, Expr::String("\"a".to_string()))] };
    let mut ir = IrGen::new(&ast);
    assert_eq!(ir.try_gen_ir(), Err(IrError::StringLiteral));

    let cmp = Expr::BinaryExpr(Box::new(BinaryExpr {
        left: Expr::Int32(1),
        op: BinaryOp::Less,
        right: Expr::Int32(2),
    }));
    let ast = Ast { decls: vec![var("c", 0, DataType::Int, cmp)] };
    let mut ir = IrGen::new(&ast);
    assert_eq!(ir.try_gen_ir(), Err(IrError::UnsupportedOp(BinaryOp::Less)));

    let f = FunctionDef {
        return_type: DataType::Void,
        name: "g".to_string(),
        params: vec![],
        body: Block { stmts: vec![Stmt::IfStmt(IfStmt { branches: vec![], else_stmt: None })] },
    };
    let ast = Ast { decls: vec![Decl::FuncDef(f)] };
    let mut ir = IrGen::new(&ast);
    assert_eq!(ir.try_gen_ir(), Err(IrError::IfStatement));
    assert_eq!(ir.get_ir(), "define void @g() {\nentry:\n");
}

#[test]
fn returned_sum_is_a_local_value() {
    let out = compile("int main() { return 1 + 2 * 3; }").unwrap();
    assert_eq!(
        out,
        "define i32 @main() {\n\
         entry:\n\
         \x20   %ret_mul_0 = mul i32 2, 3\n\
         \x20   %ret_add_1 = add i32 1, %ret_mul_0\n\
         \x20   ret i32 %ret_add_1\n\
         }\n"
    );
}
