use tinyc::error::LexerError;
use tinyc::lexer::Lexer;
use tinyc::token::{Token, TokenData};

fn lex(source: &str) -> Lexer {
    let mut lexer = Lexer::new(source);
    lexer.tokenize();
    lexer
}

fn kinds(tokens: &[TokenData]) -> Vec<Token> {
    tokens.iter().map(|t| t.token.clone()).collect()
}

#[test]
fn two_character_tokens_and_their_positions() {
    let lexer = lex("a**b&&c||d==e//f&g|h*i/j=k<l>m");
    let got: Vec<(Token, usize)> = lexer.tokens.iter().map(|t| (t.token.clone(), t.pos)).collect();
    let id = |s: &str| Token::Identifier(s.to_string());
    let expected = vec![
        (id("a"), 0),
        (Token::StarStar, 2),
        (id("b"), 3),
        (Token::And, 5),
        (id("c"), 6),
        (Token::Or, 8),
        (id("d"), 9),
        (Token::EqualEqual, 11),
        (id("e"), 12),
        (Token::DoubleForwardSlash, 14),
        (id("f"), 15),
        (Token::BitAnd, 16),
        (id("g"), 17),
        (Token::BitOr, 18),
        (id("h"), 19),
        (Token::Star, 20),
        (id("i"), 21),
        (Token::ForwardSlash, 22),
        (id("j"), 23),
        (Token::Equal, 24),
        (id("k"), 25),
        (Token::Less, 26),
        (id("l"), 27),
        (Token::Greater, 28),
        (id("m"), 29),
        (Token::Eof, 30),
    ];
    assert_eq!(got, expected);
    assert!(lexer.errors.is_empty());
}

#[test]
fn single_character_tokens() {
    let lexer = lex("?:;%");
    assert_eq!(
        kinds(&lexer.tokens),
        vec![Token::Question, Token::Colon, Token::SemiColon, Token::Modulo, Token::Eof]
    );
}

#[test]
fn bad_identifier_number_and_string_are_errors() {
    let lexer = lex("1x = 5.6.6 \"abc");
    assert_eq!(kinds(&lexer.tokens), vec![Token::Equal, Token::Eof]);
    assert_eq!(lexer.tokens[0].pos, 3);
    assert_eq!(lexer.tokens[1].pos, 15);
    assert_eq!(lexer.errors.len(), 3);
    assert_eq!(lexer.errors[0].error, LexerError::IdentStartWithNum("1x".to_string()));
    assert_eq!((lexer.errors[0].line, lexer.errors[0].pos), (1, 0));
    assert_eq!(lexer.errors[1].error, LexerError::NumHasDots("5.6.6".to_string()));
    assert_eq!(lexer.errors[1].pos, 5);
    assert_eq!(lexer.errors[2].error, LexerError::BadString("\"abc".to_string()));
    assert_eq!(lexer.errors[2].pos, 11);
}

#[test]
fn names_take_letters_underscores_and_digits() {
    let lexer = lex("x1 ab1 a_1 x_y2");
    assert_eq!(
        kinds(&lexer.tokens),
        vec![
            Token::Identifier("x1".to_string()),
            Token::Identifier("ab1".to_string()),
            Token::Identifier("a_1".to_string()),
            Token::Identifier("x_y2".to_string()),
            Token::Eof
        ]
    );
    assert!(lexer.errors.is_empty());
}

#[test]
fn names_that_start_with_a_number_are_errors() {
    let lexer = lex("1name 67work 1.5ab_2 7;");
    assert_eq!(kinds(&lexer.tokens), vec![Token::Number("7".to_string()), Token::SemiColon, Token::Eof]);
    assert_eq!(lexer.errors.len(), 3);
    assert_eq!(lexer.errors[0].error, LexerError::IdentStartWithNum("1name".to_string()));
    assert_eq!(lexer.errors[0].pos, 0);
    assert_eq!(lexer.errors[1].error, LexerError::IdentStartWithNum("67work".to_string()));
    assert_eq!(lexer.errors[1].pos, 6);
    assert_eq!(lexer.errors[2].error, LexerError::IdentStartWithNum("1.5ab_2".to_string()));
    assert_eq!(lexer.errors[2].pos, 13);
}

#[test]
fn numbers_keep_one_decimal_point() {
    let lexer = lex("3.14 42");
    assert_eq!(
        kinds(&lexer.tokens),
        vec![Token::Number("3.14".to_string()), Token::Number("42".to_string()), Token::Eof]
    );
}

#[test]
fn string_literal_keeps_opening_quote_and_spans_lines() {
    let lexer = lex("\"a\nb\" c\nd");
    assert_eq!(
        kinds(&lexer.tokens),
        vec![
            Token::String("\"a\nb".to_string()),
            Token::Identifier("c".to_string()),
            Token::Identifier("d".to_string()),
            Token::Eof
        ]
    );
    let lines: Vec<usize> = lexer.tokens.iter().map(|t| t.line).collect();
    assert_eq!(lines, vec![1, 1, 2, 2]);
}

#[test]
fn positions_are_byte_offsets_and_non_ascii_is_invalid() {
    let lexer = lex("é+ \u{2003}-");
    let got: Vec<(Token, usize)> = lexer.tokens.iter().map(|t| (t.token.clone(), t.pos)).collect();
    assert_eq!(
        got,
        vec![(Token::Invalid('é'), 0), (Token::Plus, 2), (Token::Minus, 7), (Token::Eof, 8)]
    );
}

#[test]
fn lines_count_newlines() {
    let lexer = lex("a\n\nb\n");
    let got: Vec<(Token, usize, usize)> =
        lexer.tokens.iter().map(|t| (t.token.clone(), t.line, t.pos)).collect();
    assert_eq!(
        got,
        vec![
            (Token::Identifier("a".to_string()), 1, 0),
            (Token::Identifier("b".to_string()), 3, 3),
            (Token::Eof, 4, 5)
        ]
    );
}

#[test]
fn empty_source_gives_only_eof() {
    let lexer = lex("");
    assert_eq!(lexer.tokens.len(), 1);
    assert_eq!(lexer.tokens[0].token, Token::Eof);
    assert_eq!((lexer.tokens[0].line, lexer.tokens[0].pos), (1, 0));
}

#[test]
fn tokens_come_in_order_of_position() {
    let source = "int main() {\n  int a = 1 ** 2;\n  return a;\n}\n";
    let lexer = lex(source);
    for w in lexer.tokens.windows(2) {
        assert!(w[0].pos < w[1].pos);
        assert!(w[0].line <= w[1].line);
    }
    assert_eq!(lexer.tokens.last().unwrap().pos, source.len());
}

#[test]
fn exactly_one_eof_at_the_byte_length() {
    let source = "int main() {\n  return 1 ** 2;\n}\n";
    let lexer = lex(source);
    let eofs = lexer.tokens.iter().filter(|t| t.token == Token::Eof).count();
    assert_eq!(eofs, 1);
    let last = lexer.tokens.last().unwrap();
    assert_eq!((last.token.clone(), last.pos, last.line), (Token::Eof, source.len(), 4));
    for t in lexer.tokens.iter() {
        assert!(source.is_char_boundary(t.pos));
        assert_eq!(t.line, 1 + source[..t.pos].matches('\n').count());
    }
}

#[test]
fn spacing_does_not_change_the_tokens() {
    let a = lex("int x = 1 + y;");
    let b = lex("int   x =  1 +    y ;");
    assert_eq!(kinds(&a.tokens), kinds(&b.tokens));
}

#[test]
fn accessors_give_the_fields() {
    let lexer = lex("1.2.3 x");
    assert_eq!(lexer.token_list().len(), lexer.tokens.len());
    assert_eq!(lexer.error_list().len(), 1);
}
