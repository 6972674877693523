use tinyc::ast::{
    AssignStmt, Ast, BinaryExpr, BinaryOp, Block, Decl, Expr, FunctionDef, IdentExpr, Stmt,
    VarStmt,
};
use tinyc::lexer::Lexer;
use tinyc::parser::Parser;
use tinyc::token::Token;
use tinyc::types::DataType;

#[test]
fn test_return_stmt() {
    let source = "
            int main() {
                return 69;
            }
        ";
    let mut lexer = Lexer::new(source);
    lexer.tokenize();

    assert!(
        lexer.tokens.len() > 0,
        "should have 10 tokens but got 0 instead"
    );

    let good_tokens: Vec<Token> = vec![
        Token::Identifier("int".to_string()),
        Token::Identifier("main".to_string()),
        Token::LeftParen,
        Token::RightParen,
        Token::LeftCurlyBr,
        Token::Identifier("return".to_string()),
        Token::Number("69".to_string()),
        Token::SemiColon,
        Token::RightCurlyBr,
        Token::Eof,
    ];

    assert_eq!(
        lexer.tokens.len(),
        good_tokens.len(),
        "should have same 10 tokens"
    );

    for i in 0..lexer.tokens.len() {
        assert_eq!(lexer.tokens[i].token, good_tokens[i]);
    }

    let mut parser = Parser::new(lexer.tokens);
    parser.parse();

    let good_ast = Ast {
        decls: vec![Decl::FuncDef(FunctionDef {
            name: String::from("main"),
            params: vec![],
            body: Block {
                stmts: vec![Stmt::Return(Expr::Int32(69))],
            },
            return_type: DataType::Int,
        })],
    };

    assert_eq!(parser.ast, good_ast);
}

#[test]
fn test_var_stmt() {
    let source = "
            int main() {
                int a = 67;
                return 69;
            }
        ";
    let mut lexer = Lexer::new(source);
    lexer.tokenize();

    assert!(
        lexer.tokens.len() > 0,
        "should have 10 tokens but got 0 instead"
    );

    let good_tokens: Vec<Token> = vec![
        Token::Identifier("int".to_string()),
        Token::Identifier("main".to_string()),
        Token::LeftParen,
        Token::RightParen,
        Token::LeftCurlyBr,
        Token::Identifier("int".to_string()),
        Token::Identifier("a".to_string()),
        Token::Equal,
        Token::Number("67".to_string()),
        Token::SemiColon,
        Token::Identifier("return".to_string()),
        Token::Number("69".to_string()),
        Token::SemiColon,
        Token::RightCurlyBr,
        Token::Eof,
    ];

    assert_eq!(
        good_tokens.len(),
        lexer.tokens.len(),
        "should have same 15 tokens"
    );

    for i in 0..lexer.tokens.len() {
        assert_eq!(good_tokens[i], lexer.tokens[i].token);
    }

    let mut parser = Parser::new(lexer.tokens);
    parser.parse();

    let good_ast = Ast {
        decls: vec![Decl::FuncDef(FunctionDef {
            name: String::from("main"),
            params: vec![],
            body: Block {
                stmts: vec![
                    Stmt::Var(VarStmt {
                        data_type: DataType::Int,
                        name: String::from("a"),
                        value: Expr::Int32(67),
                        id: None,
                        is_global: false,
                    }),
                    Stmt::Return(Expr::Int32(69)),
                ],
            },
            return_type: DataType::Int,
        })],
    };

    assert_eq!(parser.ast, good_ast);
}

#[test]
fn test_assign_stmt() {
    let source = "
          int main() {
             int x = 69;
             x = 67;              
             return x;
          }  
        ";

    let mut lexer = Lexer::new(source);
    lexer.tokenize();

    assert!(
        lexer.tokens.len() > 0,
        "should have 19 tokens but got 0 instead"
    );

    let good_tokens: Vec<Token> = vec![
        Token::Identifier("int".to_string()),
        Token::Identifier("main".to_string()),
        Token::LeftParen,
        Token::RightParen,
        Token::LeftCurlyBr,
        Token::Identifier("int".to_string()),
        Token::Identifier("x".to_string()),
        Token::Equal,
        Token::Number("69".to_string()),
        Token::SemiColon,
        Token::Identifier("x".to_string()),
        Token::Equal,
        Token::Number("67".to_string()),
        Token::SemiColon,
        Token::Identifier("return".to_string()),
        Token::Identifier("x".to_string()),
        Token::SemiColon,
        Token::RightCurlyBr,
        Token::Eof,
    ];

    assert_eq!(
        good_tokens.len(),
        lexer.tokens.len(),
        "should have same 19 tokens"
    );

    for i in 0..lexer.tokens.len() {
        assert_eq!(good_tokens[i], lexer.tokens[i].token);
    }

    let mut parser = Parser::new(lexer.tokens);
    parser.parse();

    let good_ast = Ast {
        decls: vec![Decl::FuncDef(FunctionDef {
            name: String::from("main"),
            params: vec![],
            body: Block {
                stmts: vec![
                    Stmt::Var(VarStmt {
                        data_type: DataType::Int,
                        name: String::from("x"),
                        value: Expr::Int32(69),
                        id: None,
                        is_global: false,
                    }),
                    Stmt::Assign(AssignStmt {
                        target: Expr::Ident(IdentExpr {
                            name: "x".to_string(),
                            id: None,
                            data_type: None,
                        }),
                        value: Expr::Int32(67),
                    }),
                    Stmt::Return(Expr::Ident(IdentExpr {
                        name: "x".to_string(),
                        id: None,
                        data_type: None,
                    })),
                ],
            },
            return_type: DataType::Int,
        })],
    };

    assert_eq!(parser.ast, good_ast);
}

#[test]
fn test_binary_expr() {
    let source = "
        int main() {
            int a = 1 * (2 + 3);
            int b = 1 + 2 * 3 * 4 + 5 / 6 - 7;
        }
    ";

    let mut lexer = Lexer::new(source);
    lexer.tokenize();

    let good_tokens: Vec<Token> = vec![
        Token::Identifier("int".to_string()),
        Token::Identifier("main".to_string()),
        Token::LeftParen,
        Token::RightParen,
        Token::LeftCurlyBr,
        Token::Identifier("int".to_string()),
        Token::Identifier("a".to_string()),
        Token::Equal,
        Token::Number("1".to_string()),
        Token::Star,
        Token::LeftParen,
        Token::Number("2".to_string()),
        Token::Plus,
        Token::Number("3".to_string()),
        Token::RightParen,
        Token::SemiColon,
        Token::Identifier("int".to_string()),
        Token::Identifier("b".to_string()),
        Token::Equal,
        Token::Number("1".to_string()),
        Token::Plus,
        Token::Number("2".to_string()),
        Token::Star,
        Token::Number("3".to_string()),
        Token::Star,
        Token::Number("4".to_string()),
        Token::Plus,
        Token::Number("5".to_string()),
        Token::ForwardSlash,
        Token::Number("6".to_string()),
        Token::Minus,
        Token::Number("7".to_string()),
        Token::SemiColon,
        Token::RightCurlyBr,
        Token::Eof,
    ];

    assert_eq!(
        good_tokens.len(),
        lexer.tokens.len(),
        "should have same 35 tokens"
    );

    for i in 0..lexer.tokens.len() {
        assert_eq!(good_tokens[i], lexer.tokens[i].token);
    }

    let mut parser = Parser::new(lexer.tokens);
    parser.parse();

    let good_ast = Ast {
        decls: vec![Decl::FuncDef(FunctionDef {
            name: "main".to_string(),
            params: vec![],
            body: Block {
                stmts: vec![
                    Stmt::Var(VarStmt {
                        data_type: DataType::Int,
                        name: "a".to_string(),

                        // 1 * (2 + 3)
                        value: Expr::BinaryExpr(Box::new(BinaryExpr {
                            left: Expr::Int32(1),
                            op: BinaryOp::Mul,
                            right: Expr::BinaryExpr(Box::new(BinaryExpr {
                                left: Expr::Int32(2),
                                op: BinaryOp::Add,
                                right: Expr::Int32(3),
                            })),
                        })),
                        id: None,
                        is_global: false,
                    }),
                    Stmt::Var(VarStmt {
                        data_type: DataType::Int,
                        name: "b".to_string(),
                        value: Expr::BinaryExpr(Box::new(BinaryExpr {
                            left: Expr::BinaryExpr(Box::new(BinaryExpr {
                                left: Expr::BinaryExpr(Box::new(BinaryExpr {
                                    left: Expr::Int32(1),
                                    op: BinaryOp::Add,
                                    right: Expr::BinaryExpr(Box::new(BinaryExpr {
                                        left: Expr::BinaryExpr(Box::new(BinaryExpr {
                                            left: Expr::Int32(2),
                                            op: BinaryOp::Mul,
                                            right: Expr::Int32(3),
                                        })),
                                        op: BinaryOp::Mul,
                                        right: Expr::Int32(4),
                                    })),
                                })),
                                op: BinaryOp::Add,
                                right: Expr::BinaryExpr(Box::new(BinaryExpr {
                                    left: Expr::Int32(5),
                                    op: BinaryOp::Div,
                                    right: Expr::Int32(6),
                                })),
                            })),
                            op: BinaryOp::Sub,
                            right: Expr::Int32(7),
                        })),
                        id: None,
                        is_global: false,
                    }),
                ],
            },
            return_type: DataType::Int,
        })],
    };

    assert_eq!(parser.ast, good_ast);
}
