use tinyc::lexer::Lexer;
use tinyc::token::Token;

#[test]
fn test_char() {
    let source = "+({)}[-/][*";
    let mut lexer = Lexer::new(source);
    lexer.tokenize();

    assert!(lexer.tokens.len() > 0, "should have 12 tokens but got 0");

    let good_tokens: Vec<Token> = vec![
        Token::Plus,
        Token::LeftParen,
        Token::LeftCurlyBr,
        Token::RightParen,
        Token::RightCurlyBr,
        Token::LeftBr,
        Token::Minus,
        Token::ForwardSlash,
        Token::RightBr,
        Token::LeftBr,
        Token::Star,
        Token::Eof,
    ];

    assert_eq!(
        good_tokens.len(),
        lexer.tokens.len(),
        "should have same 12 tokens"
    );

    for i in 0..lexer.tokens.len() {
        assert_eq!(lexer.tokens[i].token, good_tokens[i]);
    }
}

#[test]
fn test_func_main() {
    let source = "
            int main() {
                return 69;
            }
        ";
    let mut lexer = Lexer::new(source);
    lexer.tokenize();

    assert!(lexer.tokens.len() > 0, "should have 10 tokens but got 0");

    let good_tokens: Vec<Token> = vec![
        Token::Identifier("int".to_string()),
        Token::Identifier("main".to_string()),
        Token::LeftParen,
        Token::RightParen,
        Token::LeftCurlyBr,
        Token::Identifier("return".to_string()),
        Token::Number("69".to_string()),
        Token::SemiColon,
        Token::RightCurlyBr,
        Token::Eof,
    ];

    assert_eq!(
        good_tokens.len(),
        lexer.tokens.len(),
        "should have same 10 tokens"
    );

    for i in 0..lexer.tokens.len() {
        assert_eq!(lexer.tokens[i].token, good_tokens[i]);
    }
}
