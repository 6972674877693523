use tinyc::lexer::Lexer;
use tinyc::parser::Parser;
use tinyc::semantic::Semantic;
use tinyc::text::{
    chars_of, i32_to_string, is_whitespace, parse_i32, push_decimal, text_eq,
    usize_to_string, utf8_width,
};
use tinyc::token::{Token, TokenData};
use tinyc::ast::BinaryOp;

#[test]
fn decimal_round_trip_on_edges() {
    for v in [0, 1, -1, 7, 10, -10, 69, i32::MAX, i32::MIN, 123456789, -987654321] {
        let s = i32_to_string(v);
        assert_eq!(s, v.to_string());
        assert_eq!(parse_i32(&s), Some(v));
    }
}

#[test]
fn parse_i32_matches_std() {
    let cases = [
        "", "+", "-", "0", "+5", "-0", "00012", "2147483647", "2147483648", "-2147483648",
        "-2147483649", "99999999999999999999", "1.5", "12a", "a12", " 1", "+-1",
    ];
    for c in cases {
        assert_eq!(parse_i32(&c.to_string()), c.parse::<i32>().ok(), "case {:?}", c);
    }
}

#[test]
fn usize_decimal() {
    assert_eq!(usize_to_string(0), "0");
    assert_eq!(usize_to_string(4096), "4096");
    assert_eq!(usize_to_string(usize::MAX), usize::MAX.to_string());
    let mut s = String::from("n=");
    push_decimal(&mut s, 305);
    assert_eq!(s, "n=305");
}

#[test]
fn whitespace_matches_std() {
    for u in 0u32..0x3100 {
        if let Some(c) = char::from_u32(u) {
            assert_eq!(is_whitespace(c), c.is_whitespace(), "U+{:04X}", u);
        }
    }
    for c in ['\u{FEFF}', '\u{10FFFF}', 'a'] {
        assert_eq!(is_whitespace(c), c.is_whitespace());
    }
}

#[test]
fn utf8_width_matches_std() {
    for c in ['a', '\u{7F}', '\u{80}', 'é', '\u{7FF}', '\u{800}', '\u{FFFF}', '\u{10000}', '\u{10FFFF}'] {
        assert_eq!(utf8_width(c), c.len_utf8());
    }
}

#[test]
fn small_text_helpers() {
    let mut s = String::from("ab");
    push_decimal(&mut s, 307);
    assert_eq!(s, "ab307");
    assert_eq!(chars_of("héllo"), vec!['h', 'é', 'l', 'l', 'o']);
    assert!(text_eq("int", "int"));
    assert!(!text_eq("int", "in"));
    assert!(!text_eq("int", "inx"));
}

#[test]
fn binding_powers() {
    assert_eq!(Token::Plus.bin_op(), Some((10, 11, BinaryOp::Add)));
    assert_eq!(Token::Minus.bin_op(), Some((10, 11, BinaryOp::Sub)));
    assert_eq!(Token::Star.bin_op(), Some((20, 21, BinaryOp::Mul)));
    assert_eq!(Token::ForwardSlash.bin_op(), Some((20, 21, BinaryOp::Div)));
    assert_eq!(Token::Modulo.bin_op(), Some((20, 21, BinaryOp::Modulo)));
    assert_eq!(Token::StarStar.bin_op(), None);
    assert_eq!(Token::Eof.bin_op(), None);
}

#[test]
fn default_token_and_copies() {
    let d = TokenData::default();
    assert_eq!((d.token, d.line, d.pos), (Token::Eof, 0, 0));
    let t = Token::Identifier("abc".to_string());
    assert_eq!(t.duplicate(), t);
    let td = TokenData { token: Token::Number("7".to_string()), line: 3, pos: 9 };
    let c = td.clone();
    assert_eq!((c.token, c.line, c.pos), (Token::Number("7".to_string()), 3, 9));
}

fn tree(source: &str, resolve: bool) -> String {
    let mut lexer = Lexer::new(source);
    lexer.tokenize();
    let mut parser = Parser::new(lexer.tokens);
    parser.parse();
    if resolve {
        let mut sym = Semantic::new();
        sym.analyze(&mut parser.ast);
    }
    parser.ast.to_string()
}

#[test]
fn tree_of_a_function() {
    let got = tree("int main() { int a = 67; return a; }", false);
    let expected = "AST\n\
└── FunctionDef\n\
\x20   ├── ReturnType: Int\n\
\x20   ├── Name: main\n\
\x20   ├── Parameters: []\n\
\x20   └── Body\n\
\x20       ├── VarDecl\n\
\x20       │   ├── Type: Int\n\
\x20       │   ├── Name: a\n\
\x20       │   ├── ID: None\n\
\x20       │   └── IsGlobal: false\n\
\x20       │   └── Value\n\
\x20       │       └── Int32: 67\n\
\x20       └── Return\n\
\x20           └── Ident: a(None) - None\n";
    assert_eq!(got, expected);
}

#[test]
fn tree_of_resolved_globals_and_assignment() {
    let got = tree("int x = 1 + 2; int main() { x = 3; }", true);
    let expected = "AST\n\
├── VarDecl\n\
│   ├── Type: Int\n\
│   ├── Name: x\n\
│   ├── ID: Some(0)\n\
│   └── IsGlobal: false\n\
│   └── Value\n\
│       └── BinaryExpr: Add\n\
│           ├── Int32: 1\n\
│           └── Int32: 2\n\
└── FunctionDef\n\
\x20   ├── ReturnType: Int\n\
\x20   ├── Name: main\n\
\x20   ├── Parameters: []\n\
\x20   └── Body\n\
\x20       └── Assign\n\
\x20           ├── Target\n\
\x20           │   └── Ident: x(Some(0)) - Some(Int)\n\
\x20           └── Value\n\
\x20               └── Int32: 3\n";
    assert_eq!(got, expected);
}

#[test]
fn tree_of_a_string_literal() {
    let got = tree("int s = \"hi\";", false);
    assert!(got.ends_with("│       └── String: \"\\\"hi\"\n") || got.ends_with("    └── String: \"\\\"hi\"\n"));
}

#[test]
fn every_line_of_a_drawing_sits_under_its_parent() {
    let mut lexer = Lexer::new("int main() { int x = 1 + y; x = 2; return x; }");
    lexer.tokenize();
    let mut parser = Parser::new(lexer.tokens);
    parser.parse();
    let text = parser.ast.to_string();
    assert!(text.ends_with('\n'));
    let lines: Vec<&str> = text.lines().collect();
    assert_eq!(lines[0], "AST");
    let body = lines.iter().position(|l| l.ends_with("└── Body")).unwrap();
    let under = &lines[body + 1..];
    assert!(under[0].ends_with("├── VarDecl"));
    assert!(under.iter().all(|l| l.starts_with("    ")));
}
