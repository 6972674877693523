use vstd::prelude::*;

verus! {

/// What went wrong with a token, with the text that was read for it.
#[derive(Debug, PartialEq, Eq)]
pub enum LexerError {
    /// An identifier that starts with a number, e.g. `1name`, `67work`.
    IdentStartWithNum(String),
    /// A number with more than one decimal point, e.g. `5..6`, `5.6.6`.
    NumHasDots(String),
    /// A string literal without its closing quotation mark, e.g. `"Hello`.
    BadString(String),
}

pub ghost enum SpecLexerError {
    IdentStartWithNum(Seq<char>),
    NumHasDots(Seq<char>),
    BadString(Seq<char>),
}

impl View for LexerError {
    type V = SpecLexerError;

    open spec fn view(&self) -> SpecLexerError {
        match self {
            LexerError::IdentStartWithNum(s) => SpecLexerError::IdentStartWithNum(s@),
            LexerError::NumHasDots(s) => SpecLexerError::NumHasDots(s@),
            LexerError::BadString(s) => SpecLexerError::BadString(s@),
        }
    }
}

} // verus!
