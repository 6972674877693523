use vstd::prelude::*;

use crate::ast::BinaryOp;

verus! {

#[derive(Debug, PartialEq, Eq, Clone)]
pub enum Token {
    /// `+`
    Plus,
    /// `-`
    Minus,
    /// `*`
    Star,
    /// `%`
    Modulo,
    /// `?`
    Question,
    /// `:`
    Colon,
    /// `;`
    SemiColon,
    /// `**`
    StarStar,
    /// `/`
    ForwardSlash,
    /// `//`
    DoubleForwardSlash,
    /// `=`
    Equal,
    /// `==`
    EqualEqual,
    /// `<`
    Less,
    /// `>`
    Greater,
    /// `&&`
    And,
    /// `||`
    Or,
    /// `&`
    BitAnd,
    /// `|`
    BitOr,
    /// `(`
    LeftParen,
    /// `)`
    RightParen,
    /// `{`
    LeftCurlyBr,
    /// `}`
    RightCurlyBr,
    /// `[`
    LeftBr,
    /// `]`
    RightBr,
    /// A string literal; the text keeps its opening quote.
    String(String),
    /// A number literal as written.
    Number(String),
    /// Variables, functions, data types and keywords.
    Identifier(String),
    /// A character that starts no token.
    Invalid(char),
    Eof,
}

/// The model of a token: the same variants, text as `Seq<char>`.
pub ghost enum SpecToken {
    Plus,
    Minus,
    Star,
    Modulo,
    Question,
    Colon,
    SemiColon,
    StarStar,
    ForwardSlash,
    DoubleForwardSlash,
    Equal,
    EqualEqual,
    Less,
    Greater,
    And,
    Or,
    BitAnd,
    BitOr,
    LeftParen,
    RightParen,
    LeftCurlyBr,
    RightCurlyBr,
    LeftBr,
    RightBr,
    Str(Seq<char>),
    Number(Seq<char>),
    Identifier(Seq<char>),
    Invalid(char),
    Eof,
}

impl View for Token {
    type V = SpecToken;

    open spec fn view(&self) -> SpecToken {
        match self {
            Token::Plus => SpecToken::Plus,
            Token::Minus => SpecToken::Minus,
            Token::Star => SpecToken::Star,
            Token::Modulo => SpecToken::Modulo,
            Token::Question => SpecToken::Question,
            Token::Colon => SpecToken::Colon,
            Token::SemiColon => SpecToken::SemiColon,
            Token::StarStar => SpecToken::StarStar,
            Token::ForwardSlash => SpecToken::ForwardSlash,
            Token::DoubleForwardSlash => SpecToken::DoubleForwardSlash,
            Token::Equal => SpecToken::Equal,
            Token::EqualEqual => SpecToken::EqualEqual,
            Token::Less => SpecToken::Less,
            Token::Greater => SpecToken::Greater,
            Token::And => SpecToken::And,
            Token::Or => SpecToken::Or,
            Token::BitAnd => SpecToken::BitAnd,
            Token::BitOr => SpecToken::BitOr,
            Token::LeftParen => SpecToken::LeftParen,
            Token::RightParen => SpecToken::RightParen,
            Token::LeftCurlyBr => SpecToken::LeftCurlyBr,
            Token::RightCurlyBr => SpecToken::RightCurlyBr,
            Token::LeftBr => SpecToken::LeftBr,
            Token::RightBr => SpecToken::RightBr,
            Token::String(s) => SpecToken::Str(s@),
            Token::Number(s) => SpecToken::Number(s@),
            Token::Identifier(s) => SpecToken::Identifier(s@),
            Token::Invalid(c) => SpecToken::Invalid(*c),
            Token::Eof => SpecToken::Eof,
        }
    }
}

#[derive(Debug)]
pub struct TokenData {
    pub token: Token,
    pub line: usize,
    pub pos: usize,
}

pub ghost struct SpecTokenData {
    pub token: SpecToken,
    pub line: usize,
    pub pos: usize,
}

impl View for TokenData {
    type V = SpecTokenData;

    open spec fn view(&self) -> SpecTokenData {
        SpecTokenData { token: self.token@, line: self.line, pos: self.pos }
    }
}

/// The token that stands for "no more input": `Eof` at line 0, position 0.
pub open spec fn default_token_data() -> SpecTokenData {
    SpecTokenData { token: SpecToken::Eof, line: 0, pos: 0 }
}

impl Default for TokenData {
    fn default() -> (r: Self)
        ensures
            r@ == default_token_data(),
    {
        Self { token: Token::Eof, line: 0, pos: 0 }
    }
}

impl Token {
    /// A copy of the token.
    pub fn duplicate(&self) -> (r: Token)
        ensures
            r@ == self@,
    {
        match self {
            Token::Plus => Token::Plus,
            Token::Minus => Token::Minus,
            Token::Star => Token::Star,
            Token::Modulo => Token::Modulo,
            Token::Question => Token::Question,
            Token::Colon => Token::Colon,
            Token::SemiColon => Token::SemiColon,
            Token::StarStar => Token::StarStar,
            Token::ForwardSlash => Token::ForwardSlash,
            Token::DoubleForwardSlash => Token::DoubleForwardSlash,
            Token::Equal => Token::Equal,
            Token::EqualEqual => Token::EqualEqual,
            Token::Less => Token::Less,
            Token::Greater => Token::Greater,
            Token::And => Token::And,
            Token::Or => Token::Or,
            Token::BitAnd => Token::BitAnd,
            Token::BitOr => Token::BitOr,
            Token::LeftParen => Token::LeftParen,
            Token::RightParen => Token::RightParen,
            Token::LeftCurlyBr => Token::LeftCurlyBr,
            Token::RightCurlyBr => Token::RightCurlyBr,
            Token::LeftBr => Token::LeftBr,
            Token::RightBr => Token::RightBr,
            Token::String(s) => Token::String(s.clone()),
            Token::Number(s) => Token::Number(s.clone()),
            Token::Identifier(s) => Token::Identifier(s.clone()),
            Token::Invalid(c) => Token::Invalid(*c),
            Token::Eof => Token::Eof,
        }
    }
}

impl Clone for TokenData {
    fn clone(&self) -> (r: Self)
        ensures
            r@ == self@,
    {
        TokenData { token: self.token.duplicate(), line: self.line, pos: self.pos }
    }
}

/// Binding powers of the binary operators, as (left, right, operator).
/// Additive operators bind with (10, 11), multiplicative ones with (20, 21):
/// a right power one above the left one makes each operator left-associative.
pub open spec fn spec_bin_op(t: SpecToken) -> Option<(u32, u32, BinaryOp)> {
    match t {
        SpecToken::Plus => Some((10, 11, BinaryOp::Add)),
        SpecToken::Minus => Some((10, 11, BinaryOp::Sub)),
        SpecToken::Star => Some((20, 21, BinaryOp::Mul)),
        SpecToken::ForwardSlash => Some((20, 21, BinaryOp::Div)),
        SpecToken::Modulo => Some((20, 21, BinaryOp::Modulo)),
        _ => None,
    }
}

impl Token {
    /// (left binding power, right binding power, operator) of a binary operator token.
    pub fn bin_op(&self) -> (r: Option<(u32, u32, BinaryOp)>)
        ensures
            r == spec_bin_op(self@),
    {
        match self {
            Token::Plus => Some((10, 11, BinaryOp::Add)),
            Token::Minus => Some((10, 11, BinaryOp::Sub)),
            Token::Star => Some((20, 21, BinaryOp::Mul)),
            Token::ForwardSlash => Some((20, 21, BinaryOp::Div)),
            Token::Modulo => Some((20, 21, BinaryOp::Modulo)),
            _ => None,
        }
    }
}

} // verus!
