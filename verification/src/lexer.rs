use vstd::prelude::*;

use crate::error::{LexerError, SpecLexerError};
use crate::text::{
    byte_offset, chars_of, is_ascii_letter, is_digit, is_white_space, is_whitespace,
    lemma_byte_offset_step, lemma_encode_utf8_concat, push_char, utf8_width,
};
use crate::token::{SpecToken, SpecTokenData, Token, TokenData};

verus! {

/// A token that could not be read, where it began.
#[derive(Debug)]
pub struct LexError {
    pub error: LexerError,
    pub line: usize,
    pub pos: usize,
}

pub ghost struct SpecLexError {
    pub error: SpecLexerError,
    pub line: usize,
    pub pos: usize,
}

impl View for LexError {
    type V = SpecLexError;

    open spec fn view(&self) -> SpecLexError {
        SpecLexError { error: self.error@, line: self.line, pos: self.pos }
    }
}

/// Turns source text into tokens. Positions are byte offsets into the
/// source; lines count from 1.
pub struct Lexer {
    pub tokens: Vec<TokenData>,
    pub errors: Vec<LexError>,
    chars: Vec<char>,
    cur: usize,
    byte: usize,
    line: usize,
    last_pos: usize,
}

// ---------------------------------------------------------------------------
// The model of lexing.
// ---------------------------------------------------------------------------
pub open spec fn is_ident_char(c: char) -> bool {
    c == '_' || is_ascii_letter(c) || is_digit(c)
}

pub open spec fn is_num_char(c: char) -> bool {
    is_digit(c) || c == '.'
}

/// End of the run of identifier characters that starts at `j`.
pub open spec fn ident_end(cs: Seq<char>, j: int) -> int
    decreases cs.len() - j,
{
    if 0 <= j < cs.len() && is_ident_char(cs[j]) {
        ident_end(cs, j + 1)
    } else {
        j
    }
}

/// End of the run of digits and dots that starts at `j`.
pub open spec fn num_end(cs: Seq<char>, j: int) -> int
    decreases cs.len() - j,
{
    if 0 <= j < cs.len() && is_num_char(cs[j]) {
        num_end(cs, j + 1)
    } else {
        j
    }
}

/// Index of the first `"` at or after `j`, or the end of the input.
pub open spec fn quote_index(cs: Seq<char>, j: int) -> int
    decreases cs.len() - j,
{
    if 0 <= j < cs.len() && cs[j] != '"' {
        quote_index(cs, j + 1)
    } else {
        j
    }
}

/// At most one decimal point.
pub open spec fn single_dot(t: Seq<char>) -> bool {
    forall|a: int, b: int| 0 <= a < b < t.len() && #[trigger] t[a] == '.' ==> #[trigger] t[b] != '.'
}

pub open spec fn tok(t: SpecToken, line: int, pos: int) -> SpecTokenData {
    SpecTokenData { token: t, line: line as usize, pos: pos as usize }
}

pub open spec fn lex_err(e: SpecLexerError, line: int, pos: int) -> SpecLexError {
    SpecLexError { error: e, line: line as usize, pos: pos as usize }
}

/// What one call of the lexer's dispatch does at character `i`: the tokens
/// it adds, the error it reports, where it stops, and the line it ends on.
pub ghost struct LexStep {
    pub toks: Seq<SpecTokenData>,
    pub err: Option<SpecLexError>,
    pub next: int,
    pub line: int,
}

pub open spec fn single(t: SpecToken, cs: Seq<char>, i: int, line: int) -> LexStep {
    LexStep { toks: seq![tok(t, line, byte_offset(cs, i) as int)], err: None, next: i + 1, line }
}

/// `c` followed by `second` is the token `both`, placed at the second
/// character; otherwise `c` alone is `one`.
pub open spec fn two_char(
    cs: Seq<char>,
    i: int,
    line: int,
    second: char,
    both: SpecToken,
    one: SpecToken,
) -> LexStep {
    if i + 1 < cs.len() && cs[i + 1] == second {
        LexStep {
            toks: seq![tok(both, line, byte_offset(cs, i + 1) as int)],
            err: None,
            next: i + 2,
            line,
        }
    } else {
        single(one, cs, i, line)
    }
}

/// A name: a letter followed by any run of letters, `_` and digits.
pub open spec fn ident_step(cs: Seq<char>, i: int, line: int) -> LexStep {
    let e = ident_end(cs, i + 1);
    let text = cs.subrange(i, e);
    let p = byte_offset(cs, i) as int;
    LexStep { toks: seq![tok(SpecToken::Identifier(text), line, p)], err: None, next: e, line }
}

/// A number: a digit followed by digits and dots, with at most one dot. A
/// number that runs straight into a letter is a name that starts with a
/// digit: it is read on to the end of the name and reported.
pub open spec fn num_step(cs: Seq<char>, i: int, line: int) -> LexStep {
    let e = num_end(cs, i + 1);
    let text = cs.subrange(i, e);
    let p = byte_offset(cs, i) as int;
    if e < cs.len() && is_ascii_letter(cs[e]) {
        let f = ident_end(cs, e);
        LexStep {
            toks: Seq::empty(),
            err: Some(lex_err(SpecLexerError::IdentStartWithNum(cs.subrange(i, f)), line, p)),
            next: f,
            line,
        }
    } else if single_dot(text) {
        LexStep { toks: seq![tok(SpecToken::Number(text), line, p)], err: None, next: e, line }
    } else {
        LexStep {
            toks: Seq::empty(),
            err: Some(lex_err(SpecLexerError::NumHasDots(text), line, p)),
            next: e,
            line,
        }
    }
}

/// A string literal keeps its opening quote and drops the closing one.
pub open spec fn str_step(cs: Seq<char>, i: int, line: int) -> LexStep {
    let q = quote_index(cs, i + 1);
    let text = seq!['"'] + cs.subrange(i + 1, q);
    let p = byte_offset(cs, i) as int;
    if q < cs.len() {
        LexStep { toks: seq![tok(SpecToken::Str(text), line, p)], err: None, next: q + 1, line }
    } else {
        LexStep {
            toks: Seq::empty(),
            err: Some(lex_err(SpecLexerError::BadString(text), line, p)),
            next: q,
            line,
        }
    }
}

/// The token of a character that is a token on its own.
pub open spec fn single_char_token(c: char) -> Option<SpecToken> {
    if c == '+' {
        Some(SpecToken::Plus)
    } else if c == '-' {
        Some(SpecToken::Minus)
    } else if c == '%' {
        Some(SpecToken::Modulo)
    } else if c == '(' {
        Some(SpecToken::LeftParen)
    } else if c == ')' {
        Some(SpecToken::RightParen)
    } else if c == '{' {
        Some(SpecToken::LeftCurlyBr)
    } else if c == '}' {
        Some(SpecToken::RightCurlyBr)
    } else if c == '[' {
        Some(SpecToken::LeftBr)
    } else if c == ']' {
        Some(SpecToken::RightBr)
    } else if c == '?' {
        Some(SpecToken::Question)
    } else if c == ':' {
        Some(SpecToken::Colon)
    } else if c == ';' {
        Some(SpecToken::SemiColon)
    } else if c == '<' {
        Some(SpecToken::Less)
    } else if c == '>' {
        Some(SpecToken::Greater)
    } else {
        None
    }
}

/// For a character that may start a two-character token: the token when it
/// is doubled, and the token when it stands alone.
pub open spec fn doubled_token(c: char) -> Option<(SpecToken, SpecToken)> {
    if c == '*' {
        Some((SpecToken::StarStar, SpecToken::Star))
    } else if c == '&' {
        Some((SpecToken::And, SpecToken::BitAnd))
    } else if c == '|' {
        Some((SpecToken::Or, SpecToken::BitOr))
    } else if c == '/' {
        Some((SpecToken::DoubleForwardSlash, SpecToken::ForwardSlash))
    } else if c == '=' {
        Some((SpecToken::EqualEqual, SpecToken::Equal))
    } else {
        None
    }
}

pub open spec fn lex_step(cs: Seq<char>, i: int, line: int) -> LexStep {
    let c = cs[i];
    if let Some(t) = single_char_token(c) {
        single(t, cs, i, line)
    } else if let Some((both, one)) = doubled_token(c) {
        two_char(cs, i, line, c, both, one)
    } else if c == '"' {
        str_step(cs, i, line)
    } else if is_ascii_letter(c) {
        ident_step(cs, i, line)
    } else if is_digit(c) {
        num_step(cs, i, line)
    } else if c == '\n' {
        LexStep { toks: Seq::empty(), err: None, next: i + 1, line: line + 1 }
    } else if is_white_space(c) {
        LexStep { toks: Seq::empty(), err: None, next: i + 1, line }
    } else {
        single(SpecToken::Invalid(c), cs, i, line)
    }
}

pub open spec fn opt_seq<A>(o: Option<A>) -> Seq<A> {
    match o {
        Some(a) => seq![a],
        None => Seq::empty(),
    }
}

/// Everything lexed from character `i` (on line `line`) to the end.
pub ghost struct LexOut {
    pub toks: Seq<SpecTokenData>,
    pub errs: Seq<SpecLexError>,
    pub line: int,
}

pub open spec fn lex_from(cs: Seq<char>, i: int, line: int) -> LexOut
    decreases cs.len() - i,
{
    if i < 0 || i >= cs.len() {
        LexOut { toks: Seq::empty(), errs: Seq::empty(), line }
    } else {
        let st = lex_step(cs, i, line);
        proof {
            lemma_step_advances(cs, i, line);
        }
        let rest = lex_from(cs, st.next, st.line);
        LexOut { toks: st.toks + rest.toks, errs: opt_seq(st.err) + rest.errs, line: rest.line }
    }
}

pub proof fn lemma_ident_end(cs: Seq<char>, j: int)
    requires
        0 <= j <= cs.len(),
    ensures
        j <= ident_end(cs, j) <= cs.len(),
        forall|m: int| j <= m < ident_end(cs, j) ==> is_ident_char(#[trigger] cs[m]),
        ident_end(cs, j) < cs.len() ==> !is_ident_char(cs[ident_end(cs, j)]),
    decreases cs.len() - j,
{
    if j < cs.len() && is_ident_char(cs[j]) {
        lemma_ident_end(cs, j + 1);
    }
}

pub proof fn lemma_num_end(cs: Seq<char>, j: int)
    requires
        0 <= j <= cs.len(),
    ensures
        j <= num_end(cs, j) <= cs.len(),
        forall|m: int| j <= m < num_end(cs, j) ==> is_num_char(#[trigger] cs[m]),
    decreases cs.len() - j,
{
    if j < cs.len() && is_num_char(cs[j]) {
        lemma_num_end(cs, j + 1);
    }
}

pub proof fn lemma_quote_index(cs: Seq<char>, j: int)
    requires
        0 <= j <= cs.len(),
    ensures
        j <= quote_index(cs, j) <= cs.len(),
        quote_index(cs, j) < cs.len() ==> cs[quote_index(cs, j)] == '"',
    decreases cs.len() - j,
{
    if j < cs.len() && cs[j] != '"' {
        lemma_quote_index(cs, j + 1);
    }
}

/// Each step of the lexer moves forward and stays within the input, and
/// raises the line by at most the characters it reads.
pub proof fn lemma_step_advances(cs: Seq<char>, i: int, line: int)
    requires
        0 <= i < cs.len(),
    ensures
        i < lex_step(cs, i, line).next <= cs.len(),
        line <= lex_step(cs, i, line).line <= line + (lex_step(cs, i, line).next - i),
{
    lemma_ident_end(cs, i + 1);
    lemma_num_end(cs, i + 1);
    lemma_ident_end(cs, num_end(cs, i + 1));
    lemma_quote_index(cs, i + 1);
}


pub open spec fn token_views(v: Seq<TokenData>) -> Seq<SpecTokenData> {
    v.map_values(|t: TokenData| t@)
}

pub open spec fn lex_error_views(v: Seq<LexError>) -> Seq<SpecLexError> {
    v.map_values(|e: LexError| e@)
}

pub open spec fn has_dot(t: Seq<char>) -> bool {
    exists|m: int| 0 <= m < t.len() && #[trigger] t[m] == '.'
}

proof fn lemma_has_dot_push(t: Seq<char>, c: char)
    ensures
        has_dot(t.push(c)) == (has_dot(t) || c == '.'),
{
    let u = t.push(c);
    if has_dot(t) {
        let m = choose|m: int| 0 <= m < t.len() && #[trigger] t[m] == '.';
        assert(u[m] == t[m]);
    }
    if c == '.' {
        assert(u[t.len() as int] == c);
    }
    if has_dot(u) {
        let m = choose|m: int| 0 <= m < u.len() && #[trigger] u[m] == '.';
        if m < t.len() {
            assert(u[m] == t[m]);
        }
    }
}

proof fn lemma_single_dot_push(t: Seq<char>, c: char)
    ensures
        single_dot(t.push(c)) == (single_dot(t) && (c == '.' ==> !has_dot(t))),
{
    let u = t.push(c);
    if single_dot(u) {
        assert forall|a: int, b: int| 0 <= a < b < t.len() && #[trigger] t[a] == '.' implies #[trigger] t[b]
            != '.' by {
            assert(u[a] == t[a]);
            assert(u[b] == t[b]);
        }
        if c == '.' && has_dot(t) {
            let m = choose|m: int| 0 <= m < t.len() && #[trigger] t[m] == '.';
            assert(u[m] == t[m]);
            assert(u[t.len() as int] == c);
        }
    }
    if single_dot(t) && (c == '.' ==> !has_dot(t)) {
        assert forall|a: int, b: int| 0 <= a < b < u.len() && #[trigger] u[a] == '.' implies #[trigger] u[b]
            != '.' by {
            assert(u[a] == t[a]);
            if b < t.len() {
                assert(u[b] == t[b]);
            } else {
                assert(t[a] == '.');
            }
        }
    }
}

pub proof fn lemma_encode_utf8_len(cs: Seq<char>)
    ensures
        vstd::utf8::encode_utf8(cs).len() >= cs.len(),
    decreases cs.len(),
{
    if cs.len() > 0 {
        lemma_encode_utf8_len(cs.drop_first());
    }
}

fn single_char_token_of(c: char) -> (r: Option<Token>)
    ensures
        match r {
            Some(t) => single_char_token(c) == Some(t@),
            None => single_char_token(c) is None,
        },
{
    match c {
        '+' => Some(Token::Plus),
        '-' => Some(Token::Minus),
        '%' => Some(Token::Modulo),
        '(' => Some(Token::LeftParen),
        ')' => Some(Token::RightParen),
        '{' => Some(Token::LeftCurlyBr),
        '}' => Some(Token::RightCurlyBr),
        '[' => Some(Token::LeftBr),
        ']' => Some(Token::RightBr),
        '?' => Some(Token::Question),
        ':' => Some(Token::Colon),
        ';' => Some(Token::SemiColon),
        '<' => Some(Token::Less),
        '>' => Some(Token::Greater),
        _ => None,
    }
}

fn doubled_token_of(c: char) -> (r: Option<(Token, Token)>)
    ensures
        match r {
            Some((both, one)) => doubled_token(c) == Some((both@, one@)),
            None => doubled_token(c) is None,
        },
{
    match c {
        '*' => Some((Token::StarStar, Token::Star)),
        '&' => Some((Token::And, Token::BitAnd)),
        '|' => Some((Token::Or, Token::BitOr)),
        '/' => Some((Token::DoubleForwardSlash, Token::ForwardSlash)),
        '=' => Some((Token::EqualEqual, Token::Equal)),
        _ => None,
    }
}

impl Lexer {
    /// The tokens read so far.
    pub closed spec fn token_seq(&self) -> Seq<SpecTokenData> {
        token_views(self.tokens@)
    }

    /// The errors met so far.
    pub closed spec fn error_seq(&self) -> Seq<SpecLexError> {
        lex_error_views(self.errors@)
    }

    /// The tokens read so far (the field `tokens`), for verified callers.
    pub fn token_list(&self) -> (r: &Vec<TokenData>)
        ensures
            token_views(r@) == self.token_seq(),
    {
        &self.tokens
    }

    /// The errors met so far (the field `errors`), for verified callers.
    pub fn error_list(&self) -> (r: &Vec<LexError>)
        ensures
            lex_error_views(r@) == self.error_seq(),
    {
        &self.errors
    }

    /// The characters of the source.
    pub closed spec fn source(&self) -> Seq<char> {
        self.chars@
    }

    /// Index of the next character to read.
    pub closed spec fn cursor(&self) -> int {
        self.cur as int
    }

    /// The current line.
    pub closed spec fn line_no(&self) -> int {
        self.line as int
    }

    /// The byte length of the source, where the final `Eof` stands.
    pub closed spec fn end_pos(&self) -> usize {
        self.last_pos
    }

    pub closed spec fn wf(&self) -> bool {
        &&& self.chars.len() < usize::MAX
        &&& self.cur <= self.chars.len()
        &&& self.byte == byte_offset(self.chars@, self.cur as int)
        &&& self.last_pos == vstd::utf8::encode_utf8(self.chars@).len()
        &&& self.line + (self.chars.len() - self.cur) <= usize::MAX
    }

    pub fn new(source: &str) -> (l: Self)
        requires
            vstd::utf8::encode_utf8(source@).len() < usize::MAX,
        ensures
            l.wf(),
            l.source() == source@,
            l.cursor() == 0,
            l.line_no() == 1,
            l.end_pos() == vstd::utf8::encode_utf8(source@).len(),
            l.token_seq() == Seq::<SpecTokenData>::empty(),
            l.error_seq() == Seq::<SpecLexError>::empty(),
    {
        let chars = chars_of(source);
        proof {
            lemma_encode_utf8_len(source@);
            assert(chars@.take(0) =~= Seq::<char>::empty());
        }
        Self {
            tokens: Vec::new(),
            errors: Vec::new(),
            chars,
            cur: 0,
            byte: 0,
            line: 1,
            last_pos: source.len(),
        }
    }

    /// Reads all that is left of the source: the tokens are appended to
    /// `tokens`, then `Eof` at the end of the source; what could not be
    /// read is appended to `errors`.
    pub fn tokenize(&mut self)
        requires
            old(self).wf(),
        ensures
            final(self).wf(),
            final(self).source() == old(self).source(),
            final(self).cursor() == final(self).source().len(),
            final(self).end_pos() == old(self).end_pos(),
            ({
                let out = lex_from(old(self).source(), old(self).cursor(), old(self).line_no());
                &&& final(self).line_no() == out.line
                &&& final(self).token_seq() == old(self).token_seq() + out.toks.push(
                    tok(SpecToken::Eof, out.line, old(self).end_pos() as int),
                )
                &&& final(self).error_seq() == old(self).error_seq() + out.errs
            }),
    {
        let ghost cs = self.chars@;
        let ghost whole = lex_from(cs, self.cur as int, self.line as int);
        let ghost toks0 = token_views(self.tokens@);
        let ghost errs0 = lex_error_views(self.errors@);
        while self.cur < self.chars.len()
            invariant
                self.wf(),
                self.chars@ == cs,
                self.last_pos == old(self).last_pos,
                ({
                    let rest = lex_from(cs, self.cur as int, self.line as int);
                    &&& rest.line == whole.line
                    &&& token_views(self.tokens@) + rest.toks == toks0 + whole.toks
                    &&& lex_error_views(self.errors@) + rest.errs == errs0 + whole.errs
                }),
            decreases self.chars.len() - self.cur,
        {
            let ghost t0 = token_views(self.tokens@);
            let ghost e0 = lex_error_views(self.errors@);
            let ghost st = lex_step(cs, self.cur as int, self.line as int);
            let ghost rest = lex_from(cs, st.next, st.line);
            proof {
                lemma_step_advances(cs, self.cur as int, self.line as int);
            }
            let r = self.match_token();
            match r {
                Err(e) => {
                    self.errors.push(e);
                },
                Ok(()) => {},
            }
            proof {
                assert(token_views(self.tokens@) =~= t0 + st.toks);
                assert(lex_error_views(self.errors@) =~= e0 + opt_seq(st.err));
                assert(t0 + (st.toks + rest.toks) =~= (t0 + st.toks) + rest.toks);
                assert(e0 + (opt_seq(st.err) + rest.errs) =~= (e0 + opt_seq(st.err)) + rest.errs);
            }
        }
        let ghost t1 = token_views(self.tokens@);
        let pos = self.last_pos;
        self.add_token(Token::Eof, pos);
        proof {
            assert(lex_from(cs, self.cur as int, self.line as int).toks =~= Seq::<SpecTokenData>::empty());
            assert(t1 =~= toks0 + whole.toks);
            assert(token_views(self.tokens@) =~= t1.push(tok(SpecToken::Eof, whole.line, pos as int)));
            assert(lex_error_views(self.errors@) =~= errs0 + whole.errs);
        }
    }

    fn add_token(&mut self, token: Token, pos: usize)
        ensures
            final(self).chars@ == old(self).chars@,
            final(self).cur == old(self).cur,
            final(self).byte == old(self).byte,
            final(self).line == old(self).line,
            final(self).last_pos == old(self).last_pos,
            final(self).errors == old(self).errors,
            token_views(final(self).tokens@) == token_views(old(self).tokens@).push(
                tok(token@, old(self).line as int, pos as int),
            ),
    {
        self.tokens.push(TokenData { token, line: self.line, pos });
        assert(token_views(self.tokens@) =~= token_views(old(self).tokens@).push(
            tok(token@, old(self).line as int, pos as int),
        ));
    }

    /// Moves past the current character.
    fn advance(&mut self)
        requires
            old(self).wf(),
            old(self).cur < old(self).chars.len(),
        ensures
            final(self).wf(),
            final(self).chars@ == old(self).chars@,
            final(self).cur == old(self).cur + 1,
            final(self).line == old(self).line,
            final(self).last_pos == old(self).last_pos,
            final(self).tokens == old(self).tokens,
            final(self).errors == old(self).errors,
    {
        proof {
            lemma_byte_offset_step(self.chars@, self.cur as int);
        }
        let w = utf8_width(self.chars[self.cur]);
        self.byte = self.byte + w;
        self.cur = self.cur + 1;
    }

    /// Reads the token that starts at the current character.
    fn match_token(&mut self) -> (r: Result<(), LexError>)
        requires
            old(self).wf(),
            old(self).cur < old(self).chars.len(),
        ensures
            final(self).wf(),
            final(self).chars@ == old(self).chars@,
            final(self).last_pos == old(self).last_pos,
            final(self).errors == old(self).errors,
            ({
                let st = lex_step(old(self).chars@, old(self).cur as int, old(self).line as int);
                &&& final(self).cur == st.next
                &&& final(self).line == st.line
                &&& token_views(final(self).tokens@) == token_views(old(self).tokens@) + st.toks
                &&& (match r {
                    Ok(()) => st.err is None,
                    Err(e) => st.err == Some(e@),
                })
            }),
    {
        let ghost cs = self.chars@;
        let ghost i = self.cur as int;
        let ghost t0 = token_views(self.tokens@);
        let c = self.chars[self.cur];
        let p = self.byte;
        self.advance();
        if let Some(t) = single_char_token_of(c) {
            self.add_token(t, p);
            assert(token_views(self.tokens@) =~= t0 + lex_step(cs, i, old(self).line as int).toks);
            Ok(())
        } else if let Some((both, one)) = doubled_token_of(c) {
            self.lex_pair(c, both, one, p);
            Ok(())
        } else if c == '"' {
            self.lex_str(p)
        } else if ('a' <= c && c <= 'z') || ('A' <= c && c <= 'Z') {
            self.lex_ident(c, p);
            Ok(())
        } else if '0' <= c && c <= '9' {
            self.lex_num(c, p)
        } else {
            self.lex_other(c, p);
            Ok(())
        }
    }

    /// A character `c` read at byte `p` that starts no literal and no
    /// operator: a newline, other white space, or an invalid character.
    fn lex_other(&mut self, c: char, p: usize)
        requires
            old(self).wf(),
            old(self).cur >= 1,
            old(self).chars@[old(self).cur - 1] == c,
            p == byte_offset(old(self).chars@, old(self).cur - 1),
            single_char_token(c) is None,
            doubled_token(c) is None,
            c != '"',
            !is_ascii_letter(c),
            !is_digit(c),
            old(self).line + (old(self).chars.len() - old(self).cur) < usize::MAX,
        ensures
            final(self).wf(),
            final(self).chars@ == old(self).chars@,
            final(self).last_pos == old(self).last_pos,
            final(self).errors == old(self).errors,
            final(self).cur == old(self).cur,
            ({
                let st = lex_step(old(self).chars@, old(self).cur - 1, old(self).line as int);
                &&& final(self).line == st.line
                &&& token_views(final(self).tokens@) == token_views(old(self).tokens@) + st.toks
            }),
    {
        let ghost t0 = token_views(self.tokens@);
        let ghost cs = self.chars@;
        let ghost i = self.cur - 1;
        if c == '\n' {
            self.line = self.line + 1;
            assert(token_views(self.tokens@) =~= t0 + lex_step(cs, i, old(self).line as int).toks);
        } else if is_whitespace(c) {
            assert(token_views(self.tokens@) =~= t0 + lex_step(cs, i, old(self).line as int).toks);
        } else {
            self.add_token(Token::Invalid(c), p);
            assert(token_views(self.tokens@) =~= t0 + lex_step(cs, i, old(self).line as int).toks);
        }
    }

    /// `first` has been read at byte `p`: with `second` right after it the
    /// token is `both`, placed at the second character; otherwise `one`.
    fn lex_pair(&mut self, second: char, both: Token, one: Token, p: usize)
        requires
            old(self).wf(),
            old(self).cur >= 1,
            p == byte_offset(old(self).chars@, old(self).cur - 1),
        ensures
            final(self).wf(),
            final(self).chars@ == old(self).chars@,
            final(self).last_pos == old(self).last_pos,
            final(self).errors == old(self).errors,
            final(self).line == old(self).line,
            ({
                let st = two_char(
                    old(self).chars@,
                    old(self).cur - 1,
                    old(self).line as int,
                    second,
                    both@,
                    one@,
                );
                &&& final(self).cur == st.next
                &&& token_views(final(self).tokens@) == token_views(old(self).tokens@) + st.toks
            }),
    {
        let ghost t0 = token_views(self.tokens@);
        if self.cur < self.chars.len() && self.chars[self.cur] == second {
            let p2 = self.byte;
            self.advance();
            self.add_token(both, p2);
        } else {
            self.add_token(one, p);
        }
        assert(token_views(self.tokens@) =~= t0 + two_char(
            old(self).chars@,
            old(self).cur - 1,
            old(self).line as int,
            second,
            both@,
            one@,
        ).toks);
    }

    /// A letter `first` has been read at byte `p`: reads the rest of the name.
    fn lex_ident(&mut self, first: char, p: usize)
        requires
            old(self).wf(),
            old(self).cur >= 1,
            old(self).chars@[old(self).cur - 1] == first,
            p == byte_offset(old(self).chars@, old(self).cur - 1),
        ensures
            final(self).wf(),
            final(self).chars@ == old(self).chars@,
            final(self).last_pos == old(self).last_pos,
            final(self).errors == old(self).errors,
            final(self).line == old(self).line,
            ({
                let st = ident_step(old(self).chars@, old(self).cur - 1, old(self).line as int);
                &&& final(self).cur == st.next
                &&& token_views(final(self).tokens@) == token_views(old(self).tokens@) + st.toks
            }),
    {
        let ghost cs = self.chars@;
        let ghost i = self.cur - 1;
        let ghost t0 = token_views(self.tokens@);
        let mut text = String::new();
        push_char(&mut text, first);
        proof {
            assert(text@ =~= cs.subrange(i, self.cur as int));
        }
        self.read_name(&mut text);
        self.add_token(Token::Identifier(text), p);
        assert(token_views(self.tokens@) =~= t0 + ident_step(cs, i, self.line as int).toks);
    }

    /// Reads on over letters, `_` and digits, appending them to `text`.
    fn read_name(&mut self, text: &mut String)
        requires
            old(self).wf(),
            old(self).cur >= 1,
            old(text)@ == old(self).chars@.subrange(old(self).cur - old(text)@.len(), old(self).cur as int),
            old(text)@.len() <= old(self).cur,
        ensures
            final(self).wf(),
            final(self).chars@ == old(self).chars@,
            final(self).last_pos == old(self).last_pos,
            final(self).errors == old(self).errors,
            final(self).line == old(self).line,
            final(self).tokens == old(self).tokens,
            final(self).cur == ident_end(old(self).chars@, old(self).cur as int),
            final(text)@ == old(self).chars@.subrange(
                old(self).cur - old(text)@.len(),
                final(self).cur as int,
            ),
    {
        let ghost cs = self.chars@;
        let ghost start = self.cur - text@.len();
        let ghost c0 = self.cur as int;
        proof {
            lemma_ident_end(cs, c0);
        }
        while self.cur < self.chars.len() && (self.chars[self.cur] == '_' || ('a' <= self.chars[self.cur]
            && self.chars[self.cur] <= 'z') || ('A' <= self.chars[self.cur] && self.chars[self.cur]
            <= 'Z') || ('0' <= self.chars[self.cur] && self.chars[self.cur] <= '9'))
            invariant
                self.wf(),
                self.chars@ == cs,
                self.line == old(self).line,
                self.last_pos == old(self).last_pos,
                self.tokens == old(self).tokens,
                self.errors == old(self).errors,
                0 <= start <= c0 <= self.cur <= cs.len(),
                text@ == cs.subrange(start, self.cur as int),
                ident_end(cs, self.cur as int) == ident_end(cs, c0),
            decreases cs.len() - self.cur,
        {
            let c = self.chars[self.cur];
            assert(c == cs[self.cur as int]);
            proof {
                assert(cs.subrange(start, self.cur + 1) =~= cs.subrange(start, self.cur as int).push(c));
            }
            push_char(text, c);
            self.advance();
        }
    }

    /// A digit `first` has been read at byte `p`: reads the rest of the number.
    fn lex_num(&mut self, first: char, p: usize) -> (r: Result<(), LexError>)
        requires
            old(self).wf(),
            old(self).cur >= 1,
            old(self).chars@[old(self).cur - 1] == first,
            is_digit(first),
            p == byte_offset(old(self).chars@, old(self).cur - 1),
        ensures
            final(self).wf(),
            final(self).chars@ == old(self).chars@,
            final(self).last_pos == old(self).last_pos,
            final(self).errors == old(self).errors,
            final(self).line == old(self).line,
            ({
                let st = num_step(old(self).chars@, old(self).cur - 1, old(self).line as int);
                &&& final(self).cur == st.next
                &&& token_views(final(self).tokens@) == token_views(old(self).tokens@) + st.toks
                &&& (match r {
                    Ok(()) => st.err is None,
                    Err(e) => st.err == Some(e@),
                })
            }),
    {
        let ghost cs = self.chars@;
        let ghost i = self.cur - 1;
        let ghost t0 = token_views(self.tokens@);
        let mut text = String::new();
        push_char(&mut text, first);
        let mut is_dot = false;
        let mut good = true;
        proof {
            assert(text@ =~= cs.subrange(i, self.cur as int));
            assert(cs.subrange(i, self.cur as int) =~= seq![first]);
        }
        while self.cur < self.chars.len() && (('0' <= self.chars[self.cur] && self.chars[self.cur]
            <= '9') || self.chars[self.cur] == '.')
            invariant
                self.wf(),
                self.chars@ == cs,
                self.line == old(self).line,
                self.last_pos == old(self).last_pos,
                self.tokens == old(self).tokens,
                self.errors == old(self).errors,
                0 <= i,
                i + 1 <= self.cur <= cs.len(),
                i == old(self).cur - 1,
                is_digit(cs[i]),
                text@ == cs.subrange(i, self.cur as int),
                num_end(cs, self.cur as int) == num_end(cs, i + 1),
                is_dot == has_dot(cs.subrange(i, self.cur as int)),
                good == single_dot(cs.subrange(i, self.cur as int)),
            decreases cs.len() - self.cur,
        {
            let c = self.chars[self.cur];
            assert(c == cs[self.cur as int]);
            let ghost t = cs.subrange(i, self.cur as int);
            proof {
                assert(cs.subrange(i, self.cur + 1) =~= t.push(c));
                lemma_single_dot_push(t, c);
                lemma_has_dot_push(t, c);
            }
            if c == '.' {
                if is_dot {
                    good = false;
                } else {
                    is_dot = true;
                }
            }
            push_char(&mut text, c);
            self.advance();
        }
        if self.cur < self.chars.len() && (('a' <= self.chars[self.cur] && self.chars[self.cur] <= 'z')
            || ('A' <= self.chars[self.cur] && self.chars[self.cur] <= 'Z')) {
            proof {
                assert(self.chars[self.cur as int] == cs[self.cur as int]);
                lemma_num_end(cs, i + 1);
            }
            self.read_name(&mut text);
            assert(token_views(self.tokens@) =~= t0 + num_step(cs, i, self.line as int).toks);
            return Err(LexError { error: LexerError::IdentStartWithNum(text), line: self.line, pos: p });
        }
        if good {
            self.add_token(Token::Number(text), p);
            assert(token_views(self.tokens@) =~= t0 + num_step(cs, i, self.line as int).toks);
            Ok(())
        } else {
            assert(token_views(self.tokens@) =~= t0 + num_step(cs, i, self.line as int).toks);
            Err(LexError { error: LexerError::NumHasDots(text), line: self.line, pos: p })
        }
    }

    /// An opening `"` has been read at byte `p`: reads up to and past the closing one.
    fn lex_str(&mut self, p: usize) -> (r: Result<(), LexError>)
        requires
            old(self).wf(),
            old(self).cur >= 1,
            p == byte_offset(old(self).chars@, old(self).cur - 1),
        ensures
            final(self).wf(),
            final(self).chars@ == old(self).chars@,
            final(self).last_pos == old(self).last_pos,
            final(self).errors == old(self).errors,
            final(self).line == old(self).line,
            ({
                let st = str_step(old(self).chars@, old(self).cur - 1, old(self).line as int);
                &&& final(self).cur == st.next
                &&& token_views(final(self).tokens@) == token_views(old(self).tokens@) + st.toks
                &&& (match r {
                    Ok(()) => st.err is None,
                    Err(e) => st.err == Some(e@),
                })
            }),
    {
        let ghost cs = self.chars@;
        let ghost i = self.cur - 1;
        let ghost t0 = token_views(self.tokens@);
        let mut text = String::new();
        push_char(&mut text, '"');
        proof {
            assert(text@ =~= seq!['"'] + cs.subrange(i + 1, self.cur as int));
        }
        while self.cur < self.chars.len() && self.chars[self.cur] != '"'
            invariant
                self.wf(),
                self.chars@ == cs,
                self.line == old(self).line,
                self.last_pos == old(self).last_pos,
                self.tokens == old(self).tokens,
                self.errors == old(self).errors,
                0 <= i,
                i + 1 <= self.cur <= cs.len(),
                i == old(self).cur - 1,
                text@ == seq!['"'] + cs.subrange(i + 1, self.cur as int),
                quote_index(cs, self.cur as int) == quote_index(cs, i + 1),
            decreases cs.len() - self.cur,
        {
            let c = self.chars[self.cur];
            proof {
                assert(seq!['"'] + cs.subrange(i + 1, self.cur + 1) =~= (seq!['"'] + cs.subrange(
                    i + 1,
                    self.cur as int,
                )).push(c));
            }
            push_char(&mut text, c);
            self.advance();
        }
        if self.cur < self.chars.len() {
            self.advance();
            self.add_token(Token::String(text), p);
            assert(token_views(self.tokens@) =~= t0 + str_step(cs, i, self.line as int).toks);
            Ok(())
        } else {
            assert(token_views(self.tokens@) =~= t0 + str_step(cs, i, self.line as int).toks);
            Err(LexError { error: LexerError::BadString(text), line: self.line, pos: p })
        }
    }
}

} // verus!

verus! {

proof fn lemma_byte_offset_increases(cs: Seq<char>, i: int, j: int)
    requires
        0 <= i < j <= cs.len(),
    ensures
        byte_offset(cs, i) < byte_offset(cs, j),
        byte_offset(cs, j) <= vstd::utf8::encode_utf8(cs).len(),
    decreases j - i,
{
    lemma_byte_offset_step(cs, j - 1);
    let c = cs[j - 1] as u32;
    assert(vstd::utf8::encode_scalar(c).len() >= 1);
    if i < j - 1 {
        lemma_byte_offset_increases(cs, i, j - 1);
    }
}

proof fn lemma_single_token(t: SpecToken, cs: Seq<char>, i: int, line: int)
    ensures
        single(t, cs, i, line).toks.len() == 1,
        single(t, cs, i, line).toks[0] == tok(t, line, byte_offset(cs, i) as int),
{
}

/// Positions and lines of what one step adds.
proof fn lemma_step_tokens(cs: Seq<char>, i: int, line: int)
    requires
        0 <= i < cs.len(),
        0 <= line,
        line + (cs.len() - i) <= usize::MAX,
        vstd::utf8::encode_utf8(cs).len() < usize::MAX,
    ensures
        ({
            let st = lex_step(cs, i, line);
            &&& st.toks.len() <= 1
            &&& forall|a: int|
                0 <= a < st.toks.len() ==> {
                    &&& byte_offset(cs, i) <= #[trigger] st.toks[a].pos < byte_offset(cs, st.next)
                    &&& st.toks[a].line == line
                }
        }),
{
    let st = lex_step(cs, i, line);
    lemma_step_advances(cs, i, line);
    lemma_byte_offset_increases(cs, i, st.next);
    let p = byte_offset(cs, i);
    let c = cs[i];
    if i + 1 < st.next {
        lemma_byte_offset_increases(cs, i + 1, st.next);
        lemma_byte_offset_increases(cs, i, i + 1);
    }
    if let Some(t) = single_char_token(c) {
        assert(st.toks == seq![tok(t, line, p as int)]);
    } else if let Some((both, one)) = doubled_token(c) {
        if i + 1 < cs.len() && cs[i + 1] == c {
            assert(st.next == i + 2);
            assert(st.toks == seq![tok(both, line, byte_offset(cs, i + 1) as int)]);
        } else {
            assert(st.toks == seq![tok(one, line, p as int)]);
        }
    } else if c == '"' {
        assert(st.toks.len() == 0 || st.toks[0].pos == p);
    } else if is_ascii_letter(c) {
        assert(st.toks.len() == 0 || st.toks[0].pos == p);
    } else if is_digit(c) {
        assert(st.toks.len() == 0 || st.toks[0].pos == p);
    } else if c == '\n' {
    } else if is_white_space(c) {
    } else {
        assert(st == single(SpecToken::Invalid(c), cs, i, line));
        lemma_single_token(SpecToken::Invalid(c), cs, i, line);
    }
}

proof fn lemma_lex_from_order(cs: Seq<char>, i: int, line: int)
    requires
        0 <= i <= cs.len(),
        0 <= line,
        line + (cs.len() - i) <= usize::MAX,
        vstd::utf8::encode_utf8(cs).len() < usize::MAX,
    ensures
        ({
            let out = lex_from(cs, i, line);
            &&& line <= out.line <= line + (cs.len() - i)
            &&& forall|a: int|
                0 <= a < out.toks.len() ==> {
                    &&& byte_offset(cs, i) <= #[trigger] out.toks[a].pos < vstd::utf8::encode_utf8(cs).len()
                    &&& line <= out.toks[a].line <= out.line
                }
            &&& forall|a: int, b: int|
                0 <= a < b < out.toks.len() ==> #[trigger] out.toks[a].pos < #[trigger] out.toks[b].pos
                    && out.toks[a].line <= out.toks[b].line
        }),
    decreases cs.len() - i,
{
    if i < cs.len() {
        let st = lex_step(cs, i, line);
        lemma_step_advances(cs, i, line);
        lemma_step_tokens(cs, i, line);
        lemma_lex_from_order(cs, st.next, st.line);
        lemma_byte_offset_increases(cs, i, st.next);
        let rest = lex_from(cs, st.next, st.line);
        let out = lex_from(cs, i, line);
        assert(out.toks == st.toks + rest.toks);
        assert forall|a: int| 0 <= a < out.toks.len() implies {
            &&& byte_offset(cs, i) <= #[trigger] out.toks[a].pos < vstd::utf8::encode_utf8(cs).len()
            &&& line <= out.toks[a].line <= out.line
        } by {
            if a < st.toks.len() {
                assert(out.toks[a] == st.toks[a]);
            } else {
                assert(out.toks[a] == rest.toks[a - st.toks.len()]);
            }
        }
        assert forall|a: int, b: int|
            0 <= a < b < out.toks.len() implies #[trigger] out.toks[a].pos < #[trigger] out.toks[b].pos
            && out.toks[a].line <= out.toks[b].line by {
            if b < st.toks.len() {
            } else if a < st.toks.len() {
                assert(out.toks[a] == st.toks[a]);
                assert(out.toks[b] == rest.toks[b - st.toks.len()]);
            } else {
                assert(out.toks[a] == rest.toks[a - st.toks.len()]);
                assert(out.toks[b] == rest.toks[b - st.toks.len()]);
            }
        }
    }
}

/// The tokens of a whole source come in order: the position of each is
/// after that of the one before, the closing `Eof` last at the byte length
/// of the source, and the line never goes down.
pub proof fn lemma_tokens_in_order(cs: Seq<char>, line: int)
    requires
        vstd::utf8::encode_utf8(cs).len() < usize::MAX,
        1 <= line,
        line + cs.len() <= usize::MAX,
    ensures
        ({
            let out = lex_from(cs, 0, line);
            let all = out.toks.push(tok(SpecToken::Eof, out.line, vstd::utf8::encode_utf8(cs).len() as int));
            forall|a: int, b: int|
                0 <= a < b < all.len() ==> #[trigger] all[a].pos < #[trigger] all[b].pos && all[a].line
                    <= all[b].line
        }),
{
    lemma_lex_from_order(cs, 0, line);
    let out = lex_from(cs, 0, line);
    let all = out.toks.push(tok(SpecToken::Eof, out.line, vstd::utf8::encode_utf8(cs).len() as int));
    assert forall|a: int, b: int| 0 <= a < b < all.len() implies #[trigger] all[a].pos < #[trigger] all[b].pos
        && all[a].line <= all[b].line by {
        assert(all[a] == out.toks[a]);
        if b < out.toks.len() {
            assert(all[b] == out.toks[b]);
        }
    }
}


/// What one step of the lexer adds: at most one token, never `Eof`, and no
/// token at all when it reports an error.
pub proof fn lemma_step_adds_at_most_one(cs: Seq<char>, i: int, line: int)
    requires
        0 <= i < cs.len(),
    ensures
        lex_step(cs, i, line).toks.len() <= 1,
        lex_step(cs, i, line).err is Some ==> lex_step(cs, i, line).toks.len() == 0,
        forall|a: int|
            0 <= a < lex_step(cs, i, line).toks.len() ==> !(#[trigger] lex_step(cs, i, line).toks[a].token is Eof),
{
    let st = lex_step(cs, i, line);
    let c = cs[i];
    let p = byte_offset(cs, i) as int;
    if let Some(t) = single_char_token(c) {
        assert(st.toks == seq![tok(t, line, p)]);
    } else if let Some((both, one)) = doubled_token(c) {
        if i + 1 < cs.len() && cs[i + 1] == c {
            assert(st.toks == seq![tok(both, line, byte_offset(cs, i + 1) as int)]);
        } else {
            assert(st.toks == seq![tok(one, line, p)]);
        }
    } else if c == '"' {
        assert(st.toks.len() == 0 || st.toks[0].token is Str);
    } else if is_ascii_letter(c) {
        assert(st.toks.len() == 0 || st.toks[0].token is Identifier);
    } else if is_digit(c) {
        assert(st.toks.len() == 0 || st.toks[0].token is Number);
    } else if c == '\n' {
    } else if is_white_space(c) {
    } else {
        assert(st == single(SpecToken::Invalid(c), cs, i, line));
        lemma_single_token(SpecToken::Invalid(c), cs, i, line);
    }
}

/// No token lexed before the end of the source is `Eof`: the one `Eof` is
/// the token that `tokenize` adds at the end.
pub proof fn lemma_no_early_eof(cs: Seq<char>, i: int, line: int)
    ensures
        forall|a: int|
            0 <= a < lex_from(cs, i, line).toks.len() ==> !(#[trigger] lex_from(cs, i, line).toks[a].token is Eof),
    decreases cs.len() - i,
{
    if 0 <= i < cs.len() {
        let st = lex_step(cs, i, line);
        lemma_step_advances(cs, i, line);
        lemma_step_adds_at_most_one(cs, i, line);
        lemma_no_early_eof(cs, st.next, st.line);
        let rest = lex_from(cs, st.next, st.line);
        let out = lex_from(cs, i, line);
        assert forall|a: int| 0 <= a < out.toks.len() implies !(#[trigger] out.toks[a].token is Eof) by {
            if a < st.toks.len() {
                assert(out.toks[a] == st.toks[a]);
            } else {
                assert(out.toks[a] == rest.toks[a - st.toks.len()]);
            }
        }
    }
}

/// The tokens of a whole source end in exactly one `Eof`, which stands at
/// the byte length of the source.
pub proof fn lemma_single_eof(cs: Seq<char>, line: int)
    ensures
        ({
            let out = lex_from(cs, 0, line);
            let all = out.toks.push(tok(SpecToken::Eof, out.line, vstd::utf8::encode_utf8(cs).len() as int));
            &&& all.last().token is Eof
            &&& all.last().pos == vstd::utf8::encode_utf8(cs).len() as usize
            &&& forall|a: int| 0 <= a < all.len() - 1 ==> !(#[trigger] all[a].token is Eof)
        }),
{
    lemma_no_early_eof(cs, 0, line);
    let out = lex_from(cs, 0, line);
    let all = out.toks.push(tok(SpecToken::Eof, out.line, vstd::utf8::encode_utf8(cs).len() as int));
    assert forall|a: int| 0 <= a < all.len() - 1 implies !(#[trigger] all[a].token is Eof) by {
        assert(all[a] == out.toks[a]);
    }
}

/// The number of newlines among the characters `a..b`.
pub open spec fn newlines(cs: Seq<char>, a: int, b: int) -> int
    decreases b - a,
{
    if b <= a {
        0
    } else {
        newlines(cs, a, b - 1) + if cs[b - 1] == '\n' { 1int } else { 0int }
    }
}

pub proof fn lemma_newlines_split(cs: Seq<char>, a: int, b: int, c: int)
    requires
        a <= b <= c,
    ensures
        newlines(cs, a, c) == newlines(cs, a, b) + newlines(cs, b, c),
    decreases c - b,
{
    if b < c {
        lemma_newlines_split(cs, a, b, c - 1);
    }
}

pub proof fn lemma_no_newlines(cs: Seq<char>, a: int, b: int)
    requires
        forall|m: int| a <= m < b ==> #[trigger] cs[m] != '\n',
    ensures
        newlines(cs, a, b) == 0,
    decreases b - a,
{
    if a < b {
        lemma_no_newlines(cs, a, b - 1);
    }
}

/// No string literal: a source without `"`.
pub open spec fn no_quote(cs: Seq<char>) -> bool {
    forall|m: int| 0 <= m < cs.len() ==> #[trigger] cs[m] != '"'
}

/// One step, in a source without string literals, raises the line by the
/// newlines it reads, and places its token at a character before which it
/// reads no newline.
proof fn lemma_step_site(cs: Seq<char>, i: int, line: int)
    requires
        0 <= i < cs.len(),
        no_quote(cs),
    ensures
        ({
            let st = lex_step(cs, i, line);
            &&& st.line == line + newlines(cs, i, st.next)
            &&& forall|a: int| 0 <= a < st.toks.len() ==> exists|j: int|
                i <= j < st.next && #[trigger] st.toks[a].pos == byte_offset(cs, j) as usize
                    && st.toks[a].line == line as usize && newlines(cs, i, j) == 0
        }),
{
    let st = lex_step(cs, i, line);
    let c = cs[i];
    lemma_step_advances(cs, i, line);
    lemma_ident_end(cs, i + 1);
    lemma_num_end(cs, i + 1);
    lemma_ident_end(cs, num_end(cs, i + 1));
    assert(c != '"');
    assert(newlines(cs, i, i) == 0);
    if c == '\n' {
        assert(newlines(cs, i, i + 1) == 1);
    } else {
        assert(newlines(cs, i, i + 1) == 0);
        if let Some((both, one)) = doubled_token(c) {
            if i + 1 < cs.len() && cs[i + 1] == c {
                lemma_newlines_split(cs, i, i + 1, i + 2);
                assert(newlines(cs, i + 1, i + 2) == 0);
            }
        } else if is_ascii_letter(c) && single_char_token(c) is None {
            lemma_no_newlines(cs, i + 1, st.next);
            lemma_newlines_split(cs, i, i + 1, st.next);
        } else if is_digit(c) && single_char_token(c) is None {
            let e = num_end(cs, i + 1);
            lemma_no_newlines(cs, i + 1, e);
            lemma_no_newlines(cs, e, ident_end(cs, e));
            lemma_newlines_split(cs, i, i + 1, e);
            lemma_newlines_split(cs, i, e, ident_end(cs, e));
        }
    }
    let p = byte_offset(cs, i) as int;
    if let Some(t) = single_char_token(c) {
        assert(st.toks == seq![tok(t, line, p)]);
        assert(st.toks[0].pos == byte_offset(cs, i) as usize);
    } else if let Some((both, one)) = doubled_token(c) {
        if i + 1 < cs.len() && cs[i + 1] == c {
            assert(st.toks == seq![tok(both, line, byte_offset(cs, i + 1) as int)]);
            assert(st.toks[0].pos == byte_offset(cs, i + 1) as usize);
        } else {
            assert(st.toks == seq![tok(one, line, p)]);
            assert(st.toks[0].pos == byte_offset(cs, i) as usize);
        }
    } else if is_ascii_letter(c) {
        assert(st.toks.len() == 1 && st.toks[0].pos == byte_offset(cs, i) as usize);
    } else if is_digit(c) {
        assert(st.toks.len() == 0 || st.toks[0].pos == byte_offset(cs, i) as usize);
    } else if c == '\n' {
    } else if is_white_space(c) {
    } else {
        assert(st == single(SpecToken::Invalid(c), cs, i, line));
        lemma_single_token(SpecToken::Invalid(c), cs, i, line);
        assert(st.toks[0].pos == byte_offset(cs, i) as usize);
    }
}

proof fn lemma_sites_from(cs: Seq<char>, i: int, line: int)
    requires
        0 <= i <= cs.len(),
        no_quote(cs),
    ensures
        lex_from(cs, i, line).line == line + newlines(cs, i, cs.len() as int),
        forall|a: int| 0 <= a < lex_from(cs, i, line).toks.len() ==> exists|j: int|
            i <= j < cs.len() && #[trigger] lex_from(cs, i, line).toks[a].pos == byte_offset(cs, j) as usize
                && lex_from(cs, i, line).toks[a].line == (line + newlines(cs, i, j)) as usize,
    decreases cs.len() - i,
{
    if i < cs.len() {
        let st = lex_step(cs, i, line);
        lemma_step_advances(cs, i, line);
        lemma_step_site(cs, i, line);
        lemma_sites_from(cs, st.next, st.line);
        lemma_newlines_split(cs, i, st.next, cs.len() as int);
        let rest = lex_from(cs, st.next, st.line);
        let out = lex_from(cs, i, line);
        assert forall|a: int| 0 <= a < out.toks.len() implies exists|j: int|
            i <= j < cs.len() && #[trigger] out.toks[a].pos == byte_offset(cs, j) as usize
                && out.toks[a].line == (line + newlines(cs, i, j)) as usize by {
            if a < st.toks.len() {
                assert(out.toks[a] == st.toks[a]);
                let j = choose|j: int|
                    i <= j < st.next && #[trigger] st.toks[a].pos == byte_offset(cs, j) as usize
                        && st.toks[a].line == line as usize && newlines(cs, i, j) == 0;
                assert(i <= j < cs.len());
            } else {
                let b = a - st.toks.len();
                assert(out.toks[a] == rest.toks[b]);
                let j = choose|j: int|
                    st.next <= j < cs.len() && #[trigger] rest.toks[b].pos == byte_offset(cs, j) as usize
                        && rest.toks[b].line == (st.line + newlines(cs, st.next, j)) as usize;
                lemma_newlines_split(cs, i, st.next, j);
            }
        }
    }
}

/// Where each token stands: every token lexed from a source starts at one
/// of its characters `j`, so its position is the byte offset of `j`, a
/// character boundary before the end. In a source without string literals
/// (whose text may hold newlines the lexer does not count), the line of each
/// token is the first line plus the newlines before `j`, and the line of the
/// closing `Eof` is the first line plus all the newlines.
pub proof fn lemma_token_sites(cs: Seq<char>, line: int)
    requires
        no_quote(cs),
    ensures
        lex_from(cs, 0, line).line == line + newlines(cs, 0, cs.len() as int),
        forall|a: int| 0 <= a < lex_from(cs, 0, line).toks.len() ==> exists|j: int|
            0 <= j < cs.len() && #[trigger] lex_from(cs, 0, line).toks[a].pos == byte_offset(cs, j) as usize
                && lex_from(cs, 0, line).toks[a].line == (line + newlines(cs, 0, j)) as usize,
{
    lemma_sites_from(cs, 0, line);
}


/// The kinds of a list of tokens, without their places.
pub open spec fn token_kinds(ts: Seq<SpecTokenData>) -> Seq<SpecToken> {
    ts.map_values(|t: SpecTokenData| t.token)
}

/// `cs` with one more space put in at `k`, next to the space that stands there.
pub open spec fn widen_space(cs: Seq<char>, k: int) -> Seq<char> {
    cs.take(k) + seq![' '] + cs.skip(k)
}

proof fn lemma_widen_facts(cs: Seq<char>, k: int)
    requires
        0 <= k < cs.len(),
        cs[k] == ' ',
    ensures
        widen_space(cs, k).len() == cs.len() + 1,
        forall|j: int| 0 <= j <= k ==> #[trigger] widen_space(cs, k)[j] == cs[j],
        forall|j: int| k <= j < cs.len() ==> #[trigger] widen_space(cs, k)[j + 1] == cs[j],
{
    let c2 = widen_space(cs, k);
    assert forall|j: int| 0 <= j <= k implies #[trigger] c2[j] == cs[j] by {
        if j < k {
            assert(c2[j] == cs.take(k)[j]);
        }
    }
    assert forall|j: int| k <= j < cs.len() implies #[trigger] c2[j + 1] == cs[j] by {
        assert(c2[j + 1] == cs.skip(k)[j - k]);
    }
}

proof fn lemma_runs_prefix(cs: Seq<char>, c2: Seq<char>, k: int, j: int)
    requires
        0 <= j <= k < cs.len(),
        k < c2.len(),
        cs[k] == ' ',
        forall|m: int| 0 <= m <= k ==> #[trigger] c2[m] == cs[m],
    ensures
        ident_end(c2, j) == ident_end(cs, j) <= k,
        num_end(c2, j) == num_end(cs, j) <= k,
    decreases k - j,
{
    if j < k {
        lemma_runs_prefix(cs, c2, k, j + 1);
    }
}

proof fn lemma_runs_shift(cs: Seq<char>, c2: Seq<char>, k: int, j: int)
    requires
        0 <= k <= j <= cs.len(),
        c2.len() == cs.len() + 1,
        forall|m: int| k <= m < cs.len() ==> #[trigger] c2[m + 1] == cs[m],
    ensures
        ident_end(c2, j + 1) == ident_end(cs, j) + 1,
        num_end(c2, j + 1) == num_end(cs, j) + 1,
        quote_index(c2, j + 1) == quote_index(cs, j) + 1,
    decreases cs.len() - j,
{
    if j < cs.len() {
        assert(c2[j + 1] == cs[j]);
        lemma_runs_shift(cs, c2, k, j + 1);
    }
}

/// Before the widened space, a step reads the same characters in both sources.
proof fn lemma_step_prefix(cs: Seq<char>, k: int, i: int, line: int)
    requires
        0 <= i < k < cs.len(),
        cs[k] == ' ',
        no_quote(cs),
    ensures
        lex_step(widen_space(cs, k), i, line) == lex_step(cs, i, line),
        lex_step(cs, i, line).next <= k,
{
    let c2 = widen_space(cs, k);
    lemma_widen_facts(cs, k);
    lemma_runs_prefix(cs, c2, k, i + 1);
    assert(c2[i] == cs[i]);
    assert(cs[i] != '"');
    assert(c2.take(i) =~= cs.take(i));
    assert(c2.take(i + 1) =~= cs.take(i + 1));
    let e = num_end(cs, i + 1);
    lemma_num_end(cs, i + 1);
    lemma_ident_end(cs, i + 1);
    if is_ascii_letter(cs[i]) {
        assert(cs.subrange(i, ident_end(cs, i + 1)) =~= c2.subrange(i, ident_end(cs, i + 1)));
    }
    if is_digit(cs[i]) {
        assert(cs.subrange(i, e) =~= c2.subrange(i, e));
        if e < k {
            lemma_runs_prefix(cs, c2, k, e);
            lemma_ident_end(cs, e);
            assert(c2[e] == cs[e]);
            assert(cs.subrange(i, ident_end(cs, e)) =~= c2.subrange(i, ident_end(cs, e)));
        }
    }
    if i + 1 <= k {
        assert(c2[i + 1] == cs[i + 1]);
    }
}

/// After the widened space, a step reads the same characters one place on.
proof fn lemma_step_shift(cs: Seq<char>, k: int, i: int, line: int)
    requires
        0 <= k <= i < cs.len(),
        cs[k] == ' ',
        no_quote(cs),
    ensures
        ({
            let a = lex_step(cs, i, line);
            let b = lex_step(widen_space(cs, k), i + 1, line);
            &&& b.next == a.next + 1
            &&& b.line == a.line
            &&& token_kinds(b.toks) == token_kinds(a.toks)
        }),
{
    let c2 = widen_space(cs, k);
    lemma_widen_facts(cs, k);
    lemma_runs_shift(cs, c2, k, i + 1);
    let e = num_end(cs, i + 1);
    lemma_num_end(cs, i + 1);
    lemma_runs_shift(cs, c2, k, e);
    assert(c2[i + 1] == cs[i]);
    assert(cs[i] != '"');
    if i + 1 < cs.len() {
        assert(c2[i + 2] == cs[i + 1]);
    }
    if e < cs.len() {
        assert(c2[e + 1] == cs[e]);
    }
    lemma_ident_end(cs, i + 1);
    lemma_ident_end(cs, e);
    lemma_runs_shift(cs, c2, k, e);
    if is_ascii_letter(cs[i]) {
        assert(cs.subrange(i, ident_end(cs, i + 1)) =~= c2.subrange(i + 1, ident_end(cs, i + 1) + 1));
    }
    if is_digit(cs[i]) {
        assert(cs.subrange(i, e) =~= c2.subrange(i + 1, e + 1));
        assert(cs.subrange(i, ident_end(cs, e)) =~= c2.subrange(i + 1, ident_end(cs, e) + 1));
    }
    let a = lex_step(cs, i, line);
    let b = lex_step(c2, i + 1, line);
    let c = cs[i];
    if let Some(t) = single_char_token(c) {
        assert(a.toks =~= seq![tok(t, line, byte_offset(cs, i) as int)]);
        assert(b.toks =~= seq![tok(t, line, byte_offset(c2, i + 1) as int)]);
    } else if let Some((both, one)) = doubled_token(c) {
        if i + 1 < cs.len() && cs[i + 1] == c {
            assert(a.toks =~= seq![tok(both, line, byte_offset(cs, i + 1) as int)]);
            assert(b.toks =~= seq![tok(both, line, byte_offset(c2, i + 2) as int)]);
        } else {
            assert(a.toks =~= seq![tok(one, line, byte_offset(cs, i) as int)]);
            assert(b.toks =~= seq![tok(one, line, byte_offset(c2, i + 1) as int)]);
        }
    } else if is_ascii_letter(c) {
    } else if is_digit(c) {
    } else if c == '\n' {
    } else if is_white_space(c) {
    } else {
        lemma_single_token(SpecToken::Invalid(c), cs, i, line);
        lemma_single_token(SpecToken::Invalid(c), c2, i + 1, line);
        assert(a == single(SpecToken::Invalid(c), cs, i, line));
        assert(b == single(SpecToken::Invalid(c), c2, i + 1, line));
    }
    assert(token_kinds(b.toks) =~= token_kinds(a.toks));
}

proof fn lemma_from_shift(cs: Seq<char>, k: int, i: int, line: int)
    requires
        0 <= k <= i <= cs.len(),
        k < cs.len(),
        cs[k] == ' ',
        no_quote(cs),
    ensures
        lex_from(widen_space(cs, k), i + 1, line).line == lex_from(cs, i, line).line,
        token_kinds(lex_from(widen_space(cs, k), i + 1, line).toks) == token_kinds(lex_from(cs, i, line).toks),
    decreases cs.len() - i,
{
    let c2 = widen_space(cs, k);
    lemma_widen_facts(cs, k);
    if i < cs.len() {
        let a = lex_step(cs, i, line);
        lemma_step_advances(cs, i, line);
        lemma_step_shift(cs, k, i, line);
        lemma_from_shift(cs, k, a.next, a.line);
        let ra = lex_from(cs, a.next, a.line);
        let rb = lex_from(c2, a.next + 1, a.line);
        let b = lex_step(c2, i + 1, line);
        assert(token_kinds(b.toks + rb.toks) =~= token_kinds(b.toks) + token_kinds(rb.toks));
        assert(token_kinds(a.toks + ra.toks) =~= token_kinds(a.toks) + token_kinds(ra.toks));
    }
}

proof fn lemma_from_prefix(cs: Seq<char>, k: int, i: int, line: int)
    requires
        0 <= i <= k < cs.len(),
        cs[k] == ' ',
        no_quote(cs),
    ensures
        lex_from(widen_space(cs, k), i, line).line == lex_from(cs, i, line).line,
        token_kinds(lex_from(widen_space(cs, k), i, line).toks) == token_kinds(lex_from(cs, i, line).toks),
    decreases k - i,
{
    let c2 = widen_space(cs, k);
    lemma_widen_facts(cs, k);
    if i < k {
        let a = lex_step(cs, i, line);
        lemma_step_advances(cs, i, line);
        lemma_step_prefix(cs, k, i, line);
        lemma_from_prefix(cs, k, a.next, a.line);
        let ra = lex_from(cs, a.next, a.line);
        let rb = lex_from(c2, a.next, a.line);
        assert(token_kinds(a.toks + rb.toks) =~= token_kinds(a.toks) + token_kinds(rb.toks));
        assert(token_kinds(a.toks + ra.toks) =~= token_kinds(a.toks) + token_kinds(ra.toks));
    } else {
        // The extra space is read alone; the rest is the source one place on.
        assert(c2[k] == ' ');
        assert(is_white_space(' '));
        lemma_from_shift(cs, k, k, line);
        let st = lex_step(c2, k, line);
        assert(st.toks.len() == 0 && st.next == k + 1 && st.line == line);
        let rb = lex_from(c2, k + 1, line);
        assert(lex_from(c2, k, line).toks =~= rb.toks);
    }
}

/// Spacing does not change what is lexed: in a source without string
/// literals (whose text would take the space in), putting one more space
/// next to a space gives the same tokens, kind for kind, on the same lines;
/// only the positions after it move. Applied again and again, any run of
/// spaces can be made longer or shorter.
pub proof fn lemma_spacing_keeps_tokens(cs: Seq<char>, k: int, line: int)
    requires
        0 <= k < cs.len(),
        cs[k] == ' ',
        no_quote(cs),
    ensures
        token_kinds(lex_from(widen_space(cs, k), 0, line).toks) == token_kinds(lex_from(cs, 0, line).toks),
        lex_from(widen_space(cs, k), 0, line).line == lex_from(cs, 0, line).line,
{
    lemma_from_prefix(cs, k, 0, line);
}


/// One step places its token at a character it reads.
proof fn lemma_step_position(cs: Seq<char>, i: int, line: int)
    requires
        0 <= i < cs.len(),
    ensures
        ({
            let st = lex_step(cs, i, line);
            forall|a: int| 0 <= a < st.toks.len() ==> exists|j: int|
                i <= j < st.next && #[trigger] st.toks[a].pos == byte_offset(cs, j) as usize
        }),
{
    let st = lex_step(cs, i, line);
    let c = cs[i];
    lemma_step_advances(cs, i, line);
    let p = byte_offset(cs, i) as int;
    if let Some(t) = single_char_token(c) {
        assert(st.toks == seq![tok(t, line, p)]);
        assert(st.toks[0].pos == byte_offset(cs, i) as usize);
    } else if let Some((both, one)) = doubled_token(c) {
        if i + 1 < cs.len() && cs[i + 1] == c {
            assert(st.toks == seq![tok(both, line, byte_offset(cs, i + 1) as int)]);
            assert(st.toks[0].pos == byte_offset(cs, i + 1) as usize);
        } else {
            assert(st.toks == seq![tok(one, line, p)]);
            assert(st.toks[0].pos == byte_offset(cs, i) as usize);
        }
    } else if c == '"' {
        assert(st.toks.len() == 0 || st.toks[0].pos == byte_offset(cs, i) as usize);
    } else if is_ascii_letter(c) {
        assert(st.toks.len() == 1 && st.toks[0].pos == byte_offset(cs, i) as usize);
    } else if is_digit(c) {
        assert(st.toks.len() == 0 || st.toks[0].pos == byte_offset(cs, i) as usize);
    } else if c == '\n' {
    } else if is_white_space(c) {
    } else {
        assert(st == single(SpecToken::Invalid(c), cs, i, line));
        lemma_single_token(SpecToken::Invalid(c), cs, i, line);
        assert(st.toks[0].pos == byte_offset(cs, i) as usize);
    }
}

proof fn lemma_positions_from(cs: Seq<char>, i: int, line: int)
    requires
        0 <= i <= cs.len(),
    ensures
        forall|a: int| 0 <= a < lex_from(cs, i, line).toks.len() ==> exists|j: int|
            i <= j < cs.len() && #[trigger] lex_from(cs, i, line).toks[a].pos == byte_offset(cs, j) as usize,
    decreases cs.len() - i,
{
    if i < cs.len() {
        let st = lex_step(cs, i, line);
        lemma_step_advances(cs, i, line);
        lemma_step_position(cs, i, line);
        lemma_positions_from(cs, st.next, st.line);
        let rest = lex_from(cs, st.next, st.line);
        let out = lex_from(cs, i, line);
        assert forall|a: int| 0 <= a < out.toks.len() implies exists|j: int|
            i <= j < cs.len() && #[trigger] out.toks[a].pos == byte_offset(cs, j) as usize by {
            if a < st.toks.len() {
                assert(out.toks[a] == st.toks[a]);
            } else {
                assert(out.toks[a] == rest.toks[a - st.toks.len()]);
            }
        }
    }
}

/// Every token lexed from a source, string literals included, starts at one
/// of its characters `j`: its position is the byte offset of `j`, which is a
/// character boundary of the source and lies before its end.
pub proof fn lemma_positions_are_char_boundaries(cs: Seq<char>, line: int)
    requires
        vstd::utf8::encode_utf8(cs).len() < usize::MAX,
    ensures
        forall|a: int| 0 <= a < lex_from(cs, 0, line).toks.len() ==> exists|j: int|
            0 <= j < cs.len() && #[trigger] lex_from(cs, 0, line).toks[a].pos == byte_offset(cs, j)
                && byte_offset(cs, j) < vstd::utf8::encode_utf8(cs).len(),
{
    lemma_positions_from(cs, 0, line);
    let out = lex_from(cs, 0, line);
    assert forall|a: int| 0 <= a < out.toks.len() implies exists|j: int|
        0 <= j < cs.len() && #[trigger] out.toks[a].pos == byte_offset(cs, j)
            && byte_offset(cs, j) < vstd::utf8::encode_utf8(cs).len() by {
        let j = choose|j: int| 0 <= j < cs.len() && #[trigger] out.toks[a].pos == byte_offset(cs, j) as usize;
        lemma_byte_offset_increases(cs, j, cs.len() as int);
    }
}


/// The characters from `i` on, with every run of spaces cut to one space.
pub open spec fn squeeze_from(cs: Seq<char>, i: int) -> Seq<char>
    decreases cs.len() - i,
{
    if i < 0 || i >= cs.len() {
        Seq::empty()
    } else if i > 0 && cs[i] == ' ' && cs[i - 1] == ' ' {
        squeeze_from(cs, i + 1)
    } else {
        seq![cs[i]] + squeeze_from(cs, i + 1)
    }
}

/// The source with every run of spaces cut to one space.
pub open spec fn squeeze(cs: Seq<char>) -> Seq<char> {
    squeeze_from(cs, 0)
}

/// `cs` without the space at `j + 1`, which follows a space at `j`.
pub open spec fn drop_space(cs: Seq<char>, j: int) -> Seq<char> {
    cs.take(j + 1) + cs.skip(j + 2)
}

proof fn lemma_squeeze_shift(cs: Seq<char>, j: int, i: int)
    requires
        0 <= j,
        j + 1 < cs.len(),
        cs[j] == ' ',
        cs[j + 1] == ' ',
        j + 1 <= i <= cs.len() - 1,
    ensures
        squeeze_from(cs, i + 1) == squeeze_from(drop_space(cs, j), i),
    decreases cs.len() - i,
{
    let d = drop_space(cs, j);
    assert(d.len() == cs.len() - 1);
    if i < d.len() {
        assert(d[i] == cs[i + 1]);
        if i - 1 >= j + 1 {
            assert(d[i - 1] == cs[i]);
        } else {
            assert(d[i - 1] == cs[j]);
        }
        lemma_squeeze_shift(cs, j, i + 1);
    }
}

proof fn lemma_squeeze_prefix(cs: Seq<char>, j: int, i: int)
    requires
        0 <= j,
        j + 1 < cs.len(),
        cs[j] == ' ',
        cs[j + 1] == ' ',
        0 <= i <= j + 1,
    ensures
        squeeze_from(cs, i) == squeeze_from(drop_space(cs, j), i),
    decreases j + 1 - i,
{
    let d = drop_space(cs, j);
    if i == j + 1 {
        lemma_squeeze_shift(cs, j, j + 1);
    } else {
        assert(d[i] == cs[i]);
        if i > 0 {
            assert(d[i - 1] == cs[i - 1]);
        }
        lemma_squeeze_prefix(cs, j, i + 1);
    }
}

proof fn lemma_squeeze_plain(cs: Seq<char>, i: int)
    requires
        0 <= i <= cs.len(),
        forall|m: int| 0 < m < cs.len() ==> !(#[trigger] cs[m] == ' ' && cs[m - 1] == ' '),
    ensures
        squeeze_from(cs, i) == cs.skip(i),
    decreases cs.len() - i,
{
    if i < cs.len() {
        lemma_squeeze_plain(cs, i + 1);
        assert(cs.skip(i) =~= seq![cs[i]] + cs.skip(i + 1));
    } else {
        assert(cs.skip(i) =~= Seq::<char>::empty());
    }
}

proof fn lemma_lex_squeezed(cs: Seq<char>, line: int)
    requires
        no_quote(cs),
    ensures
        token_kinds(lex_from(squeeze(cs), 0, line).toks) == token_kinds(lex_from(cs, 0, line).toks),
        lex_from(squeeze(cs), 0, line).line == lex_from(cs, 0, line).line,
    decreases cs.len(),
{
    if exists|m: int| 0 < m < cs.len() && #[trigger] cs[m] == ' ' && cs[m - 1] == ' ' {
        let m = choose|m: int| 0 < m < cs.len() && #[trigger] cs[m] == ' ' && cs[m - 1] == ' ';
        let j = m - 1;
        let d = drop_space(cs, j);
        assert(d[j] == ' ');
        assert(no_quote(d)) by {
            assert forall|k: int| 0 <= k < d.len() implies #[trigger] d[k] != '"' by {
                if k <= j {
                    assert(d[k] == cs[k]);
                } else {
                    assert(d[k] == cs[k + 1]);
                }
            }
        }
        assert(widen_space(d, j) =~= cs);
        lemma_spacing_keeps_tokens(d, j, line);
        lemma_squeeze_prefix(cs, j, 0);
        lemma_lex_squeezed(d, line);
    } else {
        lemma_squeeze_plain(cs, 0);
        assert(cs.skip(0) =~= cs);
    }
}

/// Spacing does not change what is lexed: two sources without string
/// literals (whose text would keep the spaces) that differ only in the
/// lengths of their runs of spaces, every run at least one space long in
/// both, give the same tokens kind for kind and end on the same line.
pub proof fn lemma_spacing_never_matters(a: Seq<char>, b: Seq<char>, line: int)
    requires
        no_quote(a),
        no_quote(b),
        squeeze(a) == squeeze(b),
    ensures
        token_kinds(lex_from(a, 0, line).toks) == token_kinds(lex_from(b, 0, line).toks),
        lex_from(a, 0, line).line == lex_from(b, 0, line).line,
{
    lemma_lex_squeezed(a, line);
    lemma_lex_squeezed(b, line);
}


/// A name is read whole: at an ASCII letter the lexer gives one identifier
/// token, placed at that letter, whose text is the longest run from there of
/// ASCII letters of either case, digits and `_`: every character of the text
/// is one of these, and the character after it (if any) is not.
pub proof fn lemma_names_are_maximal(cs: Seq<char>, i: int, line: int)
    requires
        0 <= i < cs.len(),
        ('a' <= cs[i] <= 'z') || ('A' <= cs[i] <= 'Z'),
    ensures
        ({
            let st = lex_step(cs, i, line);
            &&& st.err is None
            &&& st.toks.len() == 1
            &&& st.toks[0].pos == byte_offset(cs, i) as usize
            &&& st.toks[0].token matches SpecToken::Identifier(t) && {
                let e = i + t.len();
                &&& e <= cs.len()
                &&& st.next == e
                &&& t == cs.subrange(i, e)
                &&& forall|m: int| 0 <= m < t.len() ==> {
                    let c = #[trigger] t[m];
                    c == '_' || ('a' <= c <= 'z') || ('A' <= c <= 'Z') || ('0' <= c <= '9')
                }
                &&& e < cs.len() ==> !(cs[e] == '_' || ('a' <= cs[e] <= 'z') || ('A' <= cs[e] <= 'Z')
                    || ('0' <= cs[e] <= '9'))
            }
        }),
{
    let st = lex_step(cs, i, line);
    lemma_ident_end(cs, i + 1);
    let e = ident_end(cs, i + 1);
    let t = cs.subrange(i, e);
    assert(is_ascii_letter(cs[i]));
    assert(single_char_token(cs[i]) is None);
    assert(doubled_token(cs[i]) is None);
    assert(st == ident_step(cs, i, line));
    assert forall|m: int| 0 <= m < t.len() implies {
        let c = #[trigger] t[m];
        c == '_' || ('a' <= c <= 'z') || ('A' <= c <= 'Z') || ('0' <= c <= '9')
    } by {
        assert(t[m] == cs[i + m]);
        if m > 0 {
            assert(is_ident_char(cs[i + m]));
        }
    }
}

} // verus!
