use vstd::prelude::*;

use crate::ast::{
    AssignStmt, Ast, BinaryExpr, BinaryOp, Block, Decl, Expr, FunctionDef, IdentExpr, SpecAssign, SpecBlock,
    SpecDecl, SpecExpr, SpecFunc, SpecIdent, SpecStmt, SpecVar, Stmt, VarStmt,
};
use crate::lexer::token_views;
use crate::semantic::{decl_unnumbered, stmt_unnumbered, unnumbered};
use crate::text::{parse_i32, spec_parse_i32, text_eq};
use crate::token::{default_token_data, spec_bin_op, SpecToken, SpecTokenData, Token, TokenData};
use crate::types::{DataType, IdentType, Keyword};

verus! {

/// Why a declaration or statement could not be parsed.
#[derive(Debug)]
pub enum ParseErrorKind {
    /// A declaration must begin with an identifier.
    ExpectedProgramIdentifier(Token),
    /// An identifier that is neither a data type nor a keyword begins a declaration.
    UnknownIdentifier(String),
    /// A keyword stands where a data type must.
    ExpectedDataType(Keyword),
    /// The name after a data type is not an identifier.
    ExpectedNodeName(Token),
    /// After `type name` comes neither `(`, `=` nor `;`.
    InvalidTokenAfterName(String, Token),
    /// A variable declaration does not end with `;`.
    ExpectedVarSemiColon(Token),
    ExpectedRightParen(Token),
    ExpectedLeftCurlyBr(Token),
    ExpectedRightCurlyBr(Token),
    /// A function defined inside a function.
    NestedFunction(FunctionDef),
    /// A statement must begin with an identifier.
    ExpectedStmtIdentifier(Token),
    ExpectedAssignEqual(Token),
    ExpectedAssignSemiColon(Token),
    /// A return statement does not end with `;`.
    ExpectedReturnSemiColon(TokenData),
    /// A number that is not an `i32`.
    IntParse(String),
    /// A token that cannot begin an expression.
    UnexpectedExprToken(Token),
    /// A token that cannot follow an operand.
    UnexpectedInExpression(Token),
}

pub ghost enum SpecParseErrorKind {
    ExpectedProgramIdentifier(SpecToken),
    UnknownIdentifier(Seq<char>),
    ExpectedDataType(Keyword),
    ExpectedNodeName(SpecToken),
    InvalidTokenAfterName(Seq<char>, SpecToken),
    ExpectedVarSemiColon(SpecToken),
    ExpectedRightParen(SpecToken),
    ExpectedLeftCurlyBr(SpecToken),
    ExpectedRightCurlyBr(SpecToken),
    NestedFunction(SpecFunc),
    ExpectedStmtIdentifier(SpecToken),
    ExpectedAssignEqual(SpecToken),
    ExpectedAssignSemiColon(SpecToken),
    ExpectedReturnSemiColon(SpecTokenData),
    IntParse(Seq<char>),
    UnexpectedExprToken(SpecToken),
    UnexpectedInExpression(SpecToken),
}

impl View for ParseErrorKind {
    type V = SpecParseErrorKind;

    open spec fn view(&self) -> SpecParseErrorKind {
        match self {
            ParseErrorKind::ExpectedProgramIdentifier(t) => SpecParseErrorKind::ExpectedProgramIdentifier(t@),
            ParseErrorKind::UnknownIdentifier(s) => SpecParseErrorKind::UnknownIdentifier(s@),
            ParseErrorKind::ExpectedDataType(k) => SpecParseErrorKind::ExpectedDataType(*k),
            ParseErrorKind::ExpectedNodeName(t) => SpecParseErrorKind::ExpectedNodeName(t@),
            ParseErrorKind::InvalidTokenAfterName(s, t) => SpecParseErrorKind::InvalidTokenAfterName(s@, t@),
            ParseErrorKind::ExpectedVarSemiColon(t) => SpecParseErrorKind::ExpectedVarSemiColon(t@),
            ParseErrorKind::ExpectedRightParen(t) => SpecParseErrorKind::ExpectedRightParen(t@),
            ParseErrorKind::ExpectedLeftCurlyBr(t) => SpecParseErrorKind::ExpectedLeftCurlyBr(t@),
            ParseErrorKind::ExpectedRightCurlyBr(t) => SpecParseErrorKind::ExpectedRightCurlyBr(t@),
            ParseErrorKind::NestedFunction(f) => SpecParseErrorKind::NestedFunction(f@),
            ParseErrorKind::ExpectedStmtIdentifier(t) => SpecParseErrorKind::ExpectedStmtIdentifier(t@),
            ParseErrorKind::ExpectedAssignEqual(t) => SpecParseErrorKind::ExpectedAssignEqual(t@),
            ParseErrorKind::ExpectedAssignSemiColon(t) => SpecParseErrorKind::ExpectedAssignSemiColon(t@),
            ParseErrorKind::ExpectedReturnSemiColon(t) => SpecParseErrorKind::ExpectedReturnSemiColon(t@),
            ParseErrorKind::IntParse(s) => SpecParseErrorKind::IntParse(s@),
            ParseErrorKind::UnexpectedExprToken(t) => SpecParseErrorKind::UnexpectedExprToken(t@),
            ParseErrorKind::UnexpectedInExpression(t) => SpecParseErrorKind::UnexpectedInExpression(t@),
        }
    }
}

/// A parse error and the line and position of the token it is about.
#[derive(Debug)]
pub struct ParseError {
    pub kind: ParseErrorKind,
    pub line: usize,
    pub pos: usize,
}

pub ghost struct SpecParseError {
    pub kind: SpecParseErrorKind,
    pub line: usize,
    pub pos: usize,
}

impl View for ParseError {
    type V = SpecParseError;

    open spec fn view(&self) -> SpecParseError {
        SpecParseError { kind: self.kind@, line: self.line, pos: self.pos }
    }
}

// ---------------------------------------------------------------------------
// The model of parsing. Each function reads the token list `ts` from
// position `p`; reading past the end gives `Eof` and stays put. Each gives
// back what it parsed, or the error, together with the position it stopped at.
// ---------------------------------------------------------------------------
pub type Parsed<T> = Result<(T, int), (SpecParseError, int)>;

pub open spec fn tok_at(ts: Seq<SpecTokenData>, p: int) -> SpecTokenData {
    if 0 <= p < ts.len() {
        ts[p]
    } else {
        default_token_data()
    }
}

pub open spec fn adv(ts: Seq<SpecTokenData>, p: int) -> int {
    if p < ts.len() {
        p + 1
    } else {
        p
    }
}

/// A position after `p`. Wherever it stands, the position `r` handed to it
/// already lies after `p` (the parser's own proofs show this), so it is `r`;
/// it is written so that the recursion of the model visibly ends.
pub open spec fn forward(ts: Seq<SpecTokenData>, r: int, p: int) -> int {
    if p < r <= ts.len() {
        r
    } else {
        p + 1
    }
}

pub open spec fn err_at(kind: SpecParseErrorKind, t: SpecTokenData) -> SpecParseError {
    SpecParseError { kind, line: t.line, pos: t.pos }
}

pub open spec fn ends_expr(t: SpecToken) -> bool {
    t is SemiColon || t is RightParen || t is Eof
}

pub open spec fn is_operator(t: SpecToken) -> bool {
    t is Plus || t is Minus || t is Star || t is ForwardSlash || t is Modulo
}

/// An expression whose first operand starts at `p`, taking in operators
/// whose left binding power is at least `bp`.
pub open spec fn parse_expr_spec(ts: Seq<SpecTokenData>, p: int, bp: u32) -> Parsed<SpecExpr>
    decreases ts.len() - p, 1int,
{
    if tok_at(ts, p).token is SemiColon {
        Ok((SpecExpr::Empty, p))
    } else {
        let curr = tok_at(ts, p);
        let q = adv(ts, p);
        match curr.token {
            SpecToken::Str(s) => expr_loop_spec(ts, q, bp, SpecExpr::Str(s)),
            SpecToken::Identifier(s) => expr_loop_spec(
                ts,
                q,
                bp,
                SpecExpr::Ident(SpecIdent { name: s, id: None, data_type: None }),
            ),
            SpecToken::Number(s) => match spec_parse_i32(s) {
                Some(v) => expr_loop_spec(ts, q, bp, SpecExpr::Int32(v)),
                None => Err((err_at(SpecParseErrorKind::IntParse(s), curr), q)),
            },
            SpecToken::LeftParen => match parse_expr_spec(ts, q, 0) {
                Err(e) => Err(e),
                Ok((e, r)) => {
                    let c2 = tok_at(ts, r);
                    if c2.token is RightParen {
                        expr_loop_spec(ts, forward(ts, adv(ts, r), p), bp, e)
                    } else {
                        Err(
                            (
                                err_at(SpecParseErrorKind::ExpectedRightParen(c2.token), c2),
                                adv(ts, r),
                            ),
                        )
                    }
                },
            },
            _ => Err((err_at(SpecParseErrorKind::UnexpectedExprToken(curr.token), curr), q)),
        }
    }
}

/// Having read the operand `lhs`, stopping at position `q`: takes in the
/// operators that follow while their left binding power is at least `bp`.
pub open spec fn expr_loop_spec(ts: Seq<SpecTokenData>, q: int, bp: u32, lhs: SpecExpr) -> Parsed<
    SpecExpr,
>
    decreases ts.len() - q, 0int,
{
    let t = tok_at(ts, q);
    if ends_expr(t.token) {
        Ok((lhs, q))
    } else if is_operator(t.token) {
        let (lbp, rbp, op) = spec_bin_op(t.token).unwrap();
        let t2 = tok_at(ts, q + 1);
        if lbp < bp {
            Ok((lhs, q))
        } else if t2.token is SemiColon {
            // The right operand is missing: an expression must give a value.
            Err((err_at(SpecParseErrorKind::UnexpectedExprToken(t2.token), t2), adv(ts, q + 1)))
        } else {
            match parse_expr_spec(ts, q + 1, rbp) {
                Err(e) => Err(e),
                Ok((rhs, r)) => expr_loop_spec(
                    ts,
                    forward(ts, r, q),
                    bp,
                    SpecExpr::Binary(Box::new(lhs), op, Box::new(rhs)),
                ),
            }
        }
    } else {
        Err((err_at(SpecParseErrorKind::UnexpectedInExpression(t.token), t), q))
    }
}


/// A `;` where an expression starts is the empty expression, for any binding
/// power, and is left for the caller to read.
pub proof fn lemma_semicolon_is_empty(ts: Seq<SpecTokenData>, p: int, bp: u32)
    requires
        tok_at(ts, p).token is SemiColon,
    ensures
        parse_expr_spec(ts, p, bp) == Ok::<(SpecExpr, int), (SpecParseError, int)>((SpecExpr::Empty, p)),
{
}

/// Where a parsed expression stops: at a terminator, or at an operator that
/// binds less tightly than `bp` allows.
pub open spec fn expr_stop(ts: Seq<SpecTokenData>, r: int, bp: u32) -> bool {
    let t = tok_at(ts, r).token;
    ends_expr(t) || (is_operator(t) && spec_bin_op(t).unwrap().0 < bp)
}

proof fn lemma_expr_stop(ts: Seq<SpecTokenData>, p: int, bp: u32)
    ensures
        parse_expr_spec(ts, p, bp) matches Ok((_, r)) ==> expr_stop(ts, r, bp),
    decreases ts.len() - p, 1int,
{
    if !(tok_at(ts, p).token is SemiColon) {
        let curr = tok_at(ts, p);
        let q = adv(ts, p);
        match curr.token {
            SpecToken::Str(s) => lemma_loop_stop(ts, q, bp, SpecExpr::Str(s)),
            SpecToken::Identifier(s) => lemma_loop_stop(
                ts,
                q,
                bp,
                SpecExpr::Ident(SpecIdent { name: s, id: None, data_type: None }),
            ),
            SpecToken::Number(s) => if let Some(v) = spec_parse_i32(s) {
                lemma_loop_stop(ts, q, bp, SpecExpr::Int32(v));
            },
            SpecToken::LeftParen => if let Ok((e, r)) = parse_expr_spec(ts, q, 0) {
                if tok_at(ts, r).token is RightParen {
                    lemma_loop_stop(ts, forward(ts, adv(ts, r), p), bp, e);
                }
            },
            _ => {},
        }
    }
}

proof fn lemma_loop_stop(ts: Seq<SpecTokenData>, q: int, bp: u32, lhs: SpecExpr)
    ensures
        expr_loop_spec(ts, q, bp, lhs) matches Ok((_, r)) ==> expr_stop(ts, r, bp),
    decreases ts.len() - q, 0int,
{
    let t = tok_at(ts, q);
    if !ends_expr(t.token) && is_operator(t.token) {
        let (lbp, rbp, op) = spec_bin_op(t.token).unwrap();
        if lbp >= bp && !(tok_at(ts, q + 1).token is SemiColon) {
            if let Ok((rhs, r)) = parse_expr_spec(ts, q + 1, rbp) {
                lemma_loop_stop(ts, forward(ts, r, q), bp, SpecExpr::Binary(Box::new(lhs), op, Box::new(rhs)));
            }
        }
    }
}

/// A whole expression (binding power 0) that parses stops at a `;`, a `)`
/// or the end, which it leaves unread: no operator or operand is left over.
pub proof fn lemma_expression_stops_at_terminator(ts: Seq<SpecTokenData>, p: int)
    ensures
        parse_expr_spec(ts, p, 0) matches Ok((_, r)) ==> ends_expr(tok_at(ts, r).token),
{
    lemma_expr_stop(ts, p, 0);
}

/// After a data type, a token that is no name, or a name followed by a token
/// other than `(`, `=` or `;`, is an error reported at that token.
pub proof fn lemma_node_type_error_site(ts: Seq<SpecTokenData>, p: int, dt: DataType)
    ensures
        ({
            let t = tok_at(ts, p);
            let t2 = tok_at(ts, adv(ts, p));
            &&& !(t.token is Identifier) ==> (parse_node_type_spec(ts, p, dt) matches Err((e, _))
                && e.line == t.line && e.pos == t.pos)
            &&& (t.token is Identifier && !(t2.token is LeftParen || t2.token is Equal
                || t2.token is SemiColon)) ==> (parse_node_type_spec(ts, p, dt) matches Err((e, _))
                && e.line == t2.line && e.pos == t2.pos)
        }),
{
}

/// A declaration starts with a data type: `int`, `void` or `char*`. Any
/// other first token, `return` among them, is an error.
pub proof fn lemma_declaration_starts_with_type(ts: Seq<SpecTokenData>, curr: SpecTokenData, q: int)
    ensures
        parse_node_spec(ts, curr, q) is Ok ==> (curr.token matches SpecToken::Identifier(s) && (s
            == "int"@ || s == "void"@ || s == "char*"@)),
{
    reveal_strlit("int");
    reveal_strlit("void");
    reveal_strlit("char*");
    assert("int"@ =~= seq!['i', 'n', 't']);
    assert("void"@ =~= seq!['v', 'o', 'i', 'd']);
    assert("char*"@ =~= seq!['c', 'h', 'a', 'r', '*']);
}

/// The expression that an operand token stands for by itself, if it is one.
pub open spec fn operand_expr(t: SpecToken) -> Option<SpecExpr> {
    match t {
        SpecToken::Str(s) => Some(SpecExpr::Str(s)),
        SpecToken::Identifier(s) => Some(
            SpecExpr::Ident(SpecIdent { name: s, id: None, data_type: None }),
        ),
        SpecToken::Number(s) => match spec_parse_i32(s) {
            Some(v) => Some(SpecExpr::Int32(v)),
            None => None,
        },
        _ => None,
    }
}

pub open spec fn binary(l: SpecExpr, op: BinaryOp, r: SpecExpr) -> SpecExpr {
    SpecExpr::Binary(Box::new(l), op, Box::new(r))
}

/// An operand directly followed by the end of the expression.
proof fn lemma_lone_operand(ts: Seq<SpecTokenData>, p: int, bp: u32)
    requires
        0 <= p,
        p + 1 < ts.len(),
        operand_expr(ts[p].token) is Some,
        ends_expr(ts[p + 1].token),
    ensures
        parse_expr_spec(ts, p, bp) == Ok::<(SpecExpr, int), (SpecParseError, int)>(
            (operand_expr(ts[p].token).unwrap(), p + 1),
        ),
{
    assert(expr_loop_spec(ts, p + 1, bp, operand_expr(ts[p].token).unwrap()) == Ok::<
        (SpecExpr, int),
        (SpecParseError, int),
    >((operand_expr(ts[p].token).unwrap(), p + 1)));
}

/// Precedence and associativity of the binary operators: in `a o1 b o2 c`,
/// followed by the end of the expression, `o1` groups first when it binds at
/// least as tightly as `o2` (so operators of one level group from the left),
/// and `o2` groups first when it binds more tightly.
pub proof fn lemma_two_operators(ts: Seq<SpecTokenData>, p: int)
    requires
        0 <= p,
        p + 5 < ts.len(),
        operand_expr(ts[p].token) is Some,
        is_operator(ts[p + 1].token),
        operand_expr(ts[p + 2].token) is Some,
        is_operator(ts[p + 3].token),
        operand_expr(ts[p + 4].token) is Some,
        ends_expr(ts[p + 5].token),
    ensures
        ({
            let a = operand_expr(ts[p].token).unwrap();
            let b = operand_expr(ts[p + 2].token).unwrap();
            let c = operand_expr(ts[p + 4].token).unwrap();
            let (l1, _r1, op1) = spec_bin_op(ts[p + 1].token).unwrap();
            let (l2, _r2, op2) = spec_bin_op(ts[p + 3].token).unwrap();
            parse_expr_spec(ts, p, 0) == Ok::<(SpecExpr, int), (SpecParseError, int)>(
                (
                    if l2 <= l1 {
                        binary(binary(a, op1, b), op2, c)
                    } else {
                        binary(a, op1, binary(b, op2, c))
                    },
                    p + 5,
                ),
            )
        }),
{
    let a = operand_expr(ts[p].token).unwrap();
    let b = operand_expr(ts[p + 2].token).unwrap();
    let c = operand_expr(ts[p + 4].token).unwrap();
    let (l1, r1, op1) = spec_bin_op(ts[p + 1].token).unwrap();
    let (l2, r2, op2) = spec_bin_op(ts[p + 3].token).unwrap();
    assert(parse_expr_spec(ts, p, 0) == expr_loop_spec(ts, p + 1, 0, a));
    if l2 <= l1 {
        // `b` is taken alone by `o1`; then `o2` takes `c`.
        assert(expr_loop_spec(ts, p + 3, r1, b) == Ok::<(SpecExpr, int), (SpecParseError, int)>(
            (b, p + 3),
        ));
        assert(parse_expr_spec(ts, p + 2, r1) == expr_loop_spec(ts, p + 3, r1, b));
        lemma_lone_operand(ts, p + 4, r2);
        let ab = binary(a, op1, b);
        assert(expr_loop_spec(ts, p + 5, 0, binary(ab, op2, c)) == Ok::<
            (SpecExpr, int),
            (SpecParseError, int),
        >((binary(ab, op2, c), p + 5)));
        assert(expr_loop_spec(ts, p + 3, 0, ab) == expr_loop_spec(ts, p + 5, 0, binary(ab, op2, c)));
    } else {
        // `o2` binds more tightly, so the operand of `o1` is `b o2 c`.
        lemma_lone_operand(ts, p + 4, r2);
        let bc = binary(b, op2, c);
        assert(expr_loop_spec(ts, p + 5, r1, bc) == Ok::<(SpecExpr, int), (SpecParseError, int)>(
            (bc, p + 5),
        ));
        assert(expr_loop_spec(ts, p + 3, r1, b) == expr_loop_spec(ts, p + 5, r1, bc));
        assert(parse_expr_spec(ts, p + 2, r1) == expr_loop_spec(ts, p + 3, r1, b));
        assert(expr_loop_spec(ts, p + 5, 0, binary(a, op1, bc)) == Ok::<
            (SpecExpr, int),
            (SpecParseError, int),
        >((binary(a, op1, bc), p + 5)));
    }
}


/// The operator of the operator token at `q`.
pub open spec fn op_at(ts: Seq<SpecTokenData>, q: int) -> BinaryOp {
    spec_bin_op(ts[q].token).unwrap().2
}

/// The operands and operators from position `p`, `k` operators long,
/// grouped from the left: `((a0 o1 a1) o2 a2) ...`.
pub open spec fn left_fold(ts: Seq<SpecTokenData>, p: int, k: nat) -> SpecExpr
    decreases k,
{
    if k == 0 {
        operand_expr(ts[p].token).unwrap()
    } else {
        binary(
            left_fold(ts, p, (k - 1) as nat),
            op_at(ts, p + 2 * k - 1),
            operand_expr(ts[p + 2 * k].token).unwrap(),
        )
    }
}

/// From position `p`: `n + 1` operands with `n` operators between them, all
/// of left binding power `level`, then the end of the expression.
pub open spec fn flat_chain(ts: Seq<SpecTokenData>, p: int, n: nat, level: u32) -> bool {
    &&& 0 <= p
    &&& p + 2 * n + 1 < ts.len()
    &&& forall|k: int| 0 <= k <= n ==> (#[trigger] operand_expr(ts[p + 2 * k].token)) is Some
    &&& forall|k: int|
        0 <= k < n ==> is_operator(#[trigger] ts[p + 2 * k + 1].token) && spec_bin_op(
            ts[p + 2 * k + 1].token,
        ).unwrap().0 == level
    &&& ends_expr(ts[p + 2 * n + 1].token)
}

proof fn lemma_flat_loop(ts: Seq<SpecTokenData>, p: int, n: nat, level: u32, k: nat, bp: u32)
    requires
        flat_chain(ts, p, n, level),
        k <= n,
        bp <= level,
    ensures
        expr_loop_spec(ts, p + 2 * k + 1, bp, left_fold(ts, p, k)) == Ok::<
            (SpecExpr, int),
            (SpecParseError, int),
        >((left_fold(ts, p, n), p + 2 * n + 1)),
    decreases n - k,
{
    let q = p + 2 * k + 1;
    if k < n {
        let t = ts[q].token;
        assert(is_operator(ts[p + 2 * k + 1].token));
        let a = operand_expr(ts[p + 2 * (k + 1)].token);
        assert(a is Some);
        assert(q + 1 == p + 2 * (k + 1));
        let next = ts[p + 2 * (k + 1) + 1].token;
        if k + 1 < n {
            assert(is_operator(ts[p + 2 * (k + 1) + 1].token));
        }
        let (lbp, rbp, op) = spec_bin_op(t).unwrap();
        assert(rbp == lbp + 1);
        assert(expr_loop_spec(ts, q + 2, rbp, a.unwrap()) == Ok::<(SpecExpr, int), (SpecParseError, int)>(
            (a.unwrap(), q + 2),
        ));
        assert(parse_expr_spec(ts, q + 1, rbp) == Ok::<(SpecExpr, int), (SpecParseError, int)>(
            (a.unwrap(), q + 2),
        ));
        lemma_flat_loop(ts, p, n, level, k + 1, bp);
        assert(left_fold(ts, p, k + 1) == binary(left_fold(ts, p, k), op, a.unwrap()));
    } else {
        assert(ends_expr(ts[p + 2 * n + 1].token));
    }
}

/// Operators of one level group from the left, however many there are: an
/// expression `a0 o1 a1 o2 ... on an` whose operators all bind alike parses
/// as `((a0 o1 a1) o2 ...) on an`.
pub proof fn lemma_same_level_groups_left(ts: Seq<SpecTokenData>, p: int, n: nat, level: u32)
    requires
        flat_chain(ts, p, n, level),
    ensures
        parse_expr_spec(ts, p, 0) == Ok::<(SpecExpr, int), (SpecParseError, int)>(
            (left_fold(ts, p, n), p + 2 * n + 1),
        ),
{
    assert(operand_expr(ts[p + 2 * 0].token) is Some);
    assert(p + 2 * 0 == p);
    lemma_flat_loop(ts, p, n, level, 0, 0);
    assert(parse_expr_spec(ts, p, 0) == expr_loop_spec(ts, p + 1, 0, left_fold(ts, p, 0)));
}

/// An operand that starts at `p`: a literal or name token, or a whole
/// parenthesised expression; with the expression it stands for and the
/// position after it.
pub open spec fn operand_span(ts: Seq<SpecTokenData>, p: int) -> Option<(SpecExpr, int)> {
    if 0 <= p < ts.len() && operand_expr(ts[p].token) is Some {
        Some((operand_expr(ts[p].token).unwrap(), p + 1))
    } else if 0 <= p < ts.len() && ts[p].token is LeftParen {
        match parse_expr_spec(ts, p + 1, 0) {
            Ok((e, r)) => if p < r < ts.len() && ts[r].token is RightParen {
                Some((e, r + 1))
            } else {
                None
            },
            Err(_) => None,
        }
    } else {
        None
    }
}

/// A parenthesised group is an operand like any other: whatever binding
/// power the caller parses with, what follows the group is read exactly as
/// it would be after a single literal or name standing for the group's
/// expression.
pub proof fn lemma_group_is_operand(ts: Seq<SpecTokenData>, p: int, bp: u32)
    requires
        operand_span(ts, p) is Some,
    ensures
        p < operand_span(ts, p).unwrap().1 <= ts.len(),
        parse_expr_spec(ts, p, bp) == expr_loop_spec(
            ts,
            operand_span(ts, p).unwrap().1,
            bp,
            operand_span(ts, p).unwrap().0,
        ),
{
    let t = ts[p].token;
    assert(tok_at(ts, p) == ts[p]);
    if operand_expr(t) is Some {
    } else {
        let (e, r) = parse_expr_spec(ts, p + 1, 0)->Ok_0;
        assert(tok_at(ts, r) == ts[r]);
        assert(adv(ts, r) == r + 1);
        assert(forward(ts, r + 1, p) == r + 1);
    }
}

proof fn lemma_span_alone(ts: Seq<SpecTokenData>, p: int, bp: u32)
    requires
        operand_span(ts, p) is Some,
        operand_span(ts, p).unwrap().1 < ts.len(),
        ends_expr(ts[operand_span(ts, p).unwrap().1].token),
    ensures
        parse_expr_spec(ts, p, bp) == Ok::<(SpecExpr, int), (SpecParseError, int)>(operand_span(ts, p).unwrap()),
{
    lemma_group_is_operand(ts, p, bp);
    let q = operand_span(ts, p).unwrap().1;
    assert(tok_at(ts, q) == ts[q]);
}

/// Precedence and associativity hold for any operands, parenthesised groups
/// included: in `a o1 b o2 c`, each of `a`, `b`, `c` a literal, a name or a
/// parenthesised expression, followed by the end of the expression, `o1`
/// groups first when it binds at least as tightly as `o2`, and `o2` groups
/// first when it binds more tightly.
pub proof fn lemma_two_operators_any_operands(ts: Seq<SpecTokenData>, p: int)
    requires
        operand_span(ts, p) is Some,
        operand_span(ts, p).unwrap().1 < ts.len(),
        is_operator(ts[operand_span(ts, p).unwrap().1].token),
        operand_span(ts, operand_span(ts, p).unwrap().1 + 1) is Some,
        operand_span(ts, operand_span(ts, p).unwrap().1 + 1).unwrap().1 < ts.len(),
        is_operator(ts[operand_span(ts, operand_span(ts, p).unwrap().1 + 1).unwrap().1].token),
        operand_span(ts, operand_span(ts, operand_span(ts, p).unwrap().1 + 1).unwrap().1 + 1) is Some,
        operand_span(ts, operand_span(ts, operand_span(ts, p).unwrap().1 + 1).unwrap().1 + 1).unwrap().1
            < ts.len(),
        ends_expr(
            ts[operand_span(
                ts,
                operand_span(ts, operand_span(ts, p).unwrap().1 + 1).unwrap().1 + 1,
            ).unwrap().1].token,
        ),
    ensures
        ({
            let (a, p1) = operand_span(ts, p).unwrap();
            let (b, p2) = operand_span(ts, p1 + 1).unwrap();
            let (c, p3) = operand_span(ts, p2 + 1).unwrap();
            let (l1, _r1, op1) = spec_bin_op(ts[p1].token).unwrap();
            let (l2, _r2, op2) = spec_bin_op(ts[p2].token).unwrap();
            parse_expr_spec(ts, p, 0) == Ok::<(SpecExpr, int), (SpecParseError, int)>(
                (
                    if l2 <= l1 {
                        binary(binary(a, op1, b), op2, c)
                    } else {
                        binary(a, op1, binary(b, op2, c))
                    },
                    p3,
                ),
            )
        }),
{
    let (a, p1) = operand_span(ts, p).unwrap();
    let (b, p2) = operand_span(ts, p1 + 1).unwrap();
    let (c, p3) = operand_span(ts, p2 + 1).unwrap();
    let (l1, r1, op1) = spec_bin_op(ts[p1].token).unwrap();
    let (l2, r2, op2) = spec_bin_op(ts[p2].token).unwrap();
    lemma_group_is_operand(ts, p, 0);
    lemma_group_is_operand(ts, p1 + 1, r1);
    lemma_group_is_operand(ts, p2 + 1, r2);
    lemma_span_alone(ts, p2 + 1, r2);
    assert(tok_at(ts, p1) == ts[p1]);
    assert(tok_at(ts, p2) == ts[p2]);
    assert(tok_at(ts, p3) == ts[p3]);
    assert(tok_at(ts, p1 + 1) == ts[p1 + 1]);
    assert(tok_at(ts, p2 + 1) == ts[p2 + 1]);
    assert(!(ts[p1 + 1].token is SemiColon));
    assert(!(ts[p2 + 1].token is SemiColon));
    assert(r1 == l1 + 1 && r2 == l2 + 1);
    if l2 <= l1 {
        assert(expr_loop_spec(ts, p2, r1, b) == Ok::<(SpecExpr, int), (SpecParseError, int)>((b, p2)));
        assert(forward(ts, p2, p1) == p2);
        assert(forward(ts, p3, p2) == p3);
        let ab = binary(a, op1, b);
        assert(expr_loop_spec(ts, p3, 0, binary(ab, op2, c)) == Ok::<(SpecExpr, int), (SpecParseError, int)>(
            (binary(ab, op2, c), p3),
        ));
        assert(expr_loop_spec(ts, p2, 0, ab) == expr_loop_spec(ts, p3, 0, binary(ab, op2, c)));
        assert(expr_loop_spec(ts, p1, 0, a) == expr_loop_spec(ts, p2, 0, ab));
    } else {
        let bc = binary(b, op2, c);
        assert(forward(ts, p3, p2) == p3);
        assert(forward(ts, p3, p1) == p3);
        assert(expr_loop_spec(ts, p3, r1, bc) == Ok::<(SpecExpr, int), (SpecParseError, int)>((bc, p3)));
        assert(expr_loop_spec(ts, p2, r1, b) == expr_loop_spec(ts, p3, r1, bc));
        assert(expr_loop_spec(ts, p3, 0, binary(a, op1, bc)) == Ok::<(SpecExpr, int), (SpecParseError, int)>(
            (binary(a, op1, bc), p3),
        ));
        assert(expr_loop_spec(ts, p1, 0, a) == expr_loop_spec(ts, p3, 0, binary(a, op1, bc)));
    }
}

/// What a word means at the start of a declaration or statement.
pub open spec fn spec_get_ident(s: Seq<char>) -> Option<IdentType> {
    if s == seq!['i', 'n', 't'] {
        Some(IdentType::DataType(DataType::Int))
    } else if s == seq!['v', 'o', 'i', 'd'] {
        Some(IdentType::DataType(DataType::Void))
    } else if s == seq!['c', 'h', 'a', 'r', '*'] {
        Some(IdentType::DataType(DataType::CharPtr))
    } else if s == seq!['r', 'e', 't', 'u', 'r', 'n'] {
        Some(IdentType::Keyword(Keyword::Return))
    } else {
        None
    }
}

pub open spec fn var_spec(data_type: DataType, name: Seq<char>, value: SpecExpr) -> SpecVar {
    SpecVar { data_type, name, value, id: None, is_global: false }
}

/// `type name = expr;` after the `=`.
pub open spec fn parse_var_spec(ts: Seq<SpecTokenData>, p: int, dt: DataType, name: Seq<char>) -> Parsed<SpecVar> {
    match parse_expr_spec(ts, p, 0) {
        Err(e) => Err(e),
        Ok((e, r)) => {
            let t = tok_at(ts, r);
            if t.token is SemiColon {
                Ok((var_spec(dt, name, e), adv(ts, r)))
            } else {
                Err((err_at(SpecParseErrorKind::ExpectedVarSemiColon(t.token), t), adv(ts, r)))
            }
        },
    }
}

/// `return expr;` after the `return`.
pub open spec fn parse_return_spec(ts: Seq<SpecTokenData>, p: int) -> Parsed<SpecStmt> {
    match parse_expr_spec(ts, p, 0) {
        Err(e) => Err(e),
        Ok((e, r)) => {
            let t = tok_at(ts, r);
            if t.token is SemiColon {
                Ok((SpecStmt::Return(e), adv(ts, r)))
            } else {
                Err((err_at(SpecParseErrorKind::ExpectedReturnSemiColon(t), t), adv(ts, r)))
            }
        },
    }
}

/// `name = expr;` after the name.
pub open spec fn parse_assign_spec(ts: Seq<SpecTokenData>, p: int, name: Seq<char>) -> Parsed<SpecStmt> {
    let t = tok_at(ts, p);
    if !(t.token is Equal) {
        Err((err_at(SpecParseErrorKind::ExpectedAssignEqual(t.token), t), adv(ts, p)))
    } else {
        match parse_expr_spec(ts, adv(ts, p), 0) {
            Err(e) => Err(e),
            Ok((e, r)) => {
                let t2 = tok_at(ts, r);
                if !(t2.token is SemiColon) {
                    Err((err_at(SpecParseErrorKind::ExpectedAssignSemiColon(t2.token), t2), adv(ts, r)))
                } else {
                    Ok(
                        (
                            SpecStmt::Assign(
                                SpecAssign {
                                    target: SpecExpr::Ident(
                                        SpecIdent { name, id: None, data_type: None },
                                    ),
                                    value: e,
                                },
                            ),
                            adv(ts, r),
                        ),
                    )
                }
            },
        }
    }
}

/// After a data type: `name (...) { ... }`, `name = expr;` or `name;`.
pub open spec fn parse_node_type_spec(ts: Seq<SpecTokenData>, p: int, dt: DataType) -> Parsed<SpecDecl>
    decreases ts.len() - p, 0int,
{
    let t = tok_at(ts, p);
    let p1 = adv(ts, p);
    match t.token {
        SpecToken::Identifier(name) => {
            let t2 = tok_at(ts, p1);
            let p2 = adv(ts, p1);
            match t2.token {
                SpecToken::LeftParen => match parse_func_spec(ts, p2, dt, name) {
                    Ok((f, r)) => Ok((SpecDecl::FuncDef(f), r)),
                    Err(e) => Err(e),
                },
                SpecToken::Equal => match parse_var_spec(ts, p2, dt, name) {
                    Ok((v, r)) => Ok((SpecDecl::Var(v), r)),
                    Err(e) => Err(e),
                },
                SpecToken::SemiColon => Ok((SpecDecl::Var(var_spec(dt, name, SpecExpr::Empty)), p2)),
                _ => Err(
                    (err_at(SpecParseErrorKind::InvalidTokenAfterName(name, t2.token), t2), p2),
                ),
            }
        },
        _ => Err((err_at(SpecParseErrorKind::ExpectedNodeName(t.token), t), p1)),
    }
}

/// `) { statements }` after the `(` of a function definition.
pub open spec fn parse_func_spec(ts: Seq<SpecTokenData>, p: int, dt: DataType, name: Seq<char>) -> Parsed<SpecFunc>
    decreases ts.len() - p, 0int,
{
    let t = tok_at(ts, p);
    let p1 = adv(ts, p);
    if !(t.token is RightParen) {
        Err((err_at(SpecParseErrorKind::ExpectedRightParen(t.token), t), p1))
    } else {
        let t2 = tok_at(ts, p1);
        let p2 = adv(ts, p1);
        if !(t2.token is LeftCurlyBr) {
            Err((err_at(SpecParseErrorKind::ExpectedLeftCurlyBr(t2.token), t2), p2))
        } else {
            match parse_block_spec(ts, p2, Seq::empty()) {
                Err(e) => Err(e),
                Ok((body, r)) => {
                    let t3 = tok_at(ts, r);
                    if !(t3.token is RightCurlyBr) {
                        Err((err_at(SpecParseErrorKind::ExpectedRightCurlyBr(t3.token), t3), adv(ts, r)))
                    } else {
                        Ok(
                            (
                                SpecFunc {
                                    return_type: dt,
                                    name,
                                    params: Seq::empty(),
                                    body,
                                },
                                adv(ts, r),
                            ),
                        )
                    }
                },
            }
        }
    }
}

/// Statements up to a `}` or the end, after the statements `acc` already read.
pub open spec fn parse_block_spec(ts: Seq<SpecTokenData>, p: int, acc: Seq<SpecStmt>) -> Parsed<SpecBlock>
    decreases ts.len() - p, 1int,
{
    let t = tok_at(ts, p);
    if t.token is RightCurlyBr || t.token is Eof {
        Ok((SpecBlock { stmts: acc }, p))
    } else {
        match parse_stmt_spec(ts, p) {
            Err(e) => Err(e),
            Ok((s, r)) => parse_block_spec(ts, forward(ts, r, p), acc.push(s)),
        }
    }
}

/// One statement: a variable declaration, a return, or an assignment.
pub open spec fn parse_stmt_spec(ts: Seq<SpecTokenData>, p: int) -> Parsed<SpecStmt>
    decreases ts.len() - p, 0int,
{
    let curr = tok_at(ts, p);
    let q = adv(ts, p);
    match curr.token {
        SpecToken::Identifier(s) => match spec_get_ident(s) {
            Some(IdentType::DataType(dt)) => match parse_node_type_spec(ts, q, dt) {
                Err(e) => Err(e),
                Ok((SpecDecl::FuncDef(f), r)) => Err(
                    (err_at(SpecParseErrorKind::NestedFunction(f), curr), r),
                ),
                Ok((SpecDecl::Var(v), r)) => Ok((SpecStmt::Var(v), r)),
            },
            Some(IdentType::Keyword(Keyword::Return)) => parse_return_spec(ts, q),
            None => parse_assign_spec(ts, q, s),
        },
        _ => Err((err_at(SpecParseErrorKind::ExpectedStmtIdentifier(curr.token), curr), q)),
    }
}

/// A declaration whose first token `curr` has been read; `q` is the position after it.
pub open spec fn parse_node_spec(ts: Seq<SpecTokenData>, curr: SpecTokenData, q: int) -> Parsed<SpecDecl> {
    match curr.token {
        SpecToken::Identifier(s) => match spec_get_ident(s) {
            None => Err((err_at(SpecParseErrorKind::UnknownIdentifier(s), curr), q)),
            Some(IdentType::Keyword(k)) => Err((err_at(SpecParseErrorKind::ExpectedDataType(k), curr), q)),
            Some(IdentType::DataType(dt)) => parse_node_type_spec(ts, q, dt),
        },
        _ => Err((err_at(SpecParseErrorKind::ExpectedProgramIdentifier(curr.token), curr), q)),
    }
}

/// What a whole program parse gives from position `p`: the declarations, the
/// errors, and the position after the `Eof` that ends it.
pub ghost struct ProgramOut {
    pub decls: Seq<SpecDecl>,
    pub errors: Seq<SpecParseError>,
    pub end: int,
}

pub open spec fn parse_program_spec(ts: Seq<SpecTokenData>, p: int) -> ProgramOut
    decreases ts.len() - p,
{
    let curr = tok_at(ts, p);
    if curr.token is Eof {
        ProgramOut { decls: Seq::empty(), errors: Seq::empty(), end: adv(ts, p) }
    } else {
        match parse_node_spec(ts, curr, adv(ts, p)) {
            Ok((d, r)) => {
                let rest = parse_program_spec(ts, forward(ts, r, p));
                ProgramOut { decls: seq![d] + rest.decls, errors: rest.errors, end: rest.end }
            },
            Err((e, r)) => {
                let rest = parse_program_spec(ts, forward(ts, r, p));
                ProgramOut { decls: rest.decls, errors: seq![e] + rest.errors, end: rest.end }
            },
        }
    }
}


proof fn lemma_stmt_unnumbered(ts: Seq<SpecTokenData>, p: int)
    ensures
        parse_stmt_spec(ts, p) matches Ok((s, _)) ==> stmt_unnumbered(s),
{
    let curr = tok_at(ts, p);
    let q = adv(ts, p);
    if let SpecToken::Identifier(name) = curr.token {
        if let Some(IdentType::DataType(dt)) = spec_get_ident(name) {
            let t = tok_at(ts, q);
            if let SpecToken::Identifier(n) = t.token {
                let p2 = adv(ts, adv(ts, q));
                if let Ok((v, _)) = parse_var_spec(ts, p2, dt, n) {
                    assert(v.id is None);
                }
            }
        }
    }
}

proof fn lemma_block_unnumbered(ts: Seq<SpecTokenData>, p: int, acc: Seq<SpecStmt>)
    requires
        forall|j: int| 0 <= j < acc.len() ==> stmt_unnumbered(#[trigger] acc[j]),
    ensures
        parse_block_spec(ts, p, acc) matches Ok((b, _)) ==> forall|j: int|
            0 <= j < b.stmts.len() ==> stmt_unnumbered(#[trigger] b.stmts[j]),
    decreases ts.len() - p,
{
    let t = tok_at(ts, p);
    if !(t.token is RightCurlyBr || t.token is Eof) {
        lemma_stmt_unnumbered(ts, p);
        if let Ok((s, r)) = parse_stmt_spec(ts, p) {
            let acc2 = acc.push(s);
            assert forall|j: int| 0 <= j < acc2.len() implies stmt_unnumbered(#[trigger] acc2[j]) by {
                if j < acc.len() {
                    assert(acc2[j] == acc[j]);
                }
            }
            lemma_block_unnumbered(ts, forward(ts, r, p), acc2);
        }
    }
}

proof fn lemma_node_unnumbered(ts: Seq<SpecTokenData>, curr: SpecTokenData, q: int)
    ensures
        parse_node_spec(ts, curr, q) matches Ok((d, _)) ==> decl_unnumbered(d),
{
    if let SpecToken::Identifier(s) = curr.token {
        if let Some(IdentType::DataType(dt)) = spec_get_ident(s) {
            let t = tok_at(ts, q);
            if let SpecToken::Identifier(name) = t.token {
                let p2 = adv(ts, adv(ts, q));
                if let Ok((v, _)) = parse_var_spec(ts, p2, dt, name) {
                    assert(v.id is None);
                }
                let p3 = adv(ts, adv(ts, p2));
                lemma_block_unnumbered(ts, p3, Seq::empty());
            }
        }
    }
}

/// The parser gives no declaration an id: in the tree it builds, every
/// variable declaration, global or in a function body, is left for the
/// analysis to number.
pub proof fn lemma_parse_leaves_unnumbered(ts: Seq<SpecTokenData>, p: int)
    ensures
        unnumbered(parse_program_spec(ts, p).decls),
    decreases ts.len() - p,
{
    let curr = tok_at(ts, p);
    if !(curr.token is Eof) {
        let q = adv(ts, p);
        lemma_node_unnumbered(ts, curr, q);
        let r = match parse_node_spec(ts, curr, q) {
            Ok((_, r)) => r,
            Err((_, r)) => r,
        };
        lemma_parse_leaves_unnumbered(ts, forward(ts, r, p));
        let rest = parse_program_spec(ts, forward(ts, r, p));
        if let Ok((d, _)) = parse_node_spec(ts, curr, q) {
            let all = seq![d] + rest.decls;
            assert forall|k: int| 0 <= k < all.len() implies decl_unnumbered(#[trigger] all[k]) by {
                if k > 0 {
                    assert(all[k] == rest.decls[k - 1]);
                }
            }
        }
    }
}


/// Builds the tree of a program from its tokens.
pub struct Parser {
    pub ast: Ast,
    pub errors: Vec<ParseError>,
    tokens: Vec<TokenData>,
    cursor: usize,
}

pub open spec fn outcome<T: View>(r: Result<T, ParseError>, pos: int) -> Parsed<T::V> {
    match r {
        Ok(v) => Ok((v@, pos)),
        Err(e) => Err((e@, pos)),
    }
}

pub open spec fn parse_error_views(v: Seq<ParseError>) -> Seq<SpecParseError> {
    v.map_values(|e: ParseError| e@)
}

fn error_at(kind: ParseErrorKind, line: usize, pos: usize) -> (e: ParseError)
    ensures
        e@ == (SpecParseError { kind: kind@, line, pos }),
{
    ParseError { kind, line, pos }
}

impl Parser {
    /// The tokens being parsed.
    pub closed spec fn token_seq(&self) -> Seq<SpecTokenData> {
        token_views(self.tokens@)
    }

    /// Index of the next token to read.
    pub closed spec fn position(&self) -> int {
        self.cursor as int
    }

    /// The declarations parsed so far.
    pub closed spec fn decl_seq(&self) -> Seq<SpecDecl> {
        self.ast@
    }

    /// The errors met so far.
    pub closed spec fn error_seq(&self) -> Seq<SpecParseError> {
        parse_error_views(self.errors@)
    }

    /// The tree built so far (the field `ast`), for verified callers.
    pub fn ast_ref(&self) -> (r: &Ast)
        ensures
            r@ == self.decl_seq(),
    {
        &self.ast
    }

    /// The errors met so far (the field `errors`), for verified callers.
    pub fn error_list(&self) -> (r: &Vec<ParseError>)
        ensures
            parse_error_views(r@) == self.error_seq(),
    {
        &self.errors
    }

    pub closed spec fn wf(&self) -> bool {
        self.cursor <= self.tokens.len()
    }

    pub fn new(tokens: Vec<TokenData>) -> (p: Self)
        ensures
            p.wf(),
            p.token_seq() == token_views(tokens@),
            p.position() == 0,
            p.decl_seq() == Seq::<SpecDecl>::empty(),
            p.error_seq() == Seq::<SpecParseError>::empty(),
    {
        let p = Self { tokens, cursor: 0, ast: Ast { decls: Vec::new() }, errors: Vec::new() };
        assert(p.ast@ =~= Seq::<SpecDecl>::empty());
        assert(parse_error_views(p.errors@) =~= Seq::<SpecParseError>::empty());
        p
    }

    /// Parses the declarations that follow, up to the first `Eof`: each one
    /// is appended to `ast`, each error to `errors`, and parsing goes on
    /// from where the error left off.
    pub fn parse(&mut self)
        requires
            old(self).wf(),
        ensures
            final(self).wf(),
            final(self).token_seq() == old(self).token_seq(),
            ({
                let out = parse_program_spec(old(self).token_seq(), old(self).position());
                &&& final(self).decl_seq() == old(self).decl_seq() + out.decls
                &&& final(self).error_seq() == old(self).error_seq() + out.errors
                &&& final(self).position() == out.end
            }),
    {
        let ghost ts = token_views(self.tokens@);
        let ghost whole = parse_program_spec(ts, self.cursor as int);
        let ghost d0 = self.ast@;
        let ghost e0 = parse_error_views(self.errors@);
        loop
            invariant_except_break
                self.cursor <= self.tokens.len(),
                token_views(self.tokens@) == ts,
                ({
                    let rest = parse_program_spec(ts, self.cursor as int);
                    &&& self.ast@ + rest.decls == d0 + whole.decls
                    &&& parse_error_views(self.errors@) + rest.errors == e0 + whole.errors
                    &&& rest.end == whole.end
                }),
            ensures
                self.cursor <= self.tokens.len(),
                token_views(self.tokens@) == ts,
                self.ast@ == d0 + whole.decls,
                parse_error_views(self.errors@) == e0 + whole.errors,
                self.cursor == whole.end,
            decreases self.tokens.len() - self.cursor,
        {
            let ghost p = self.cursor as int;
            let ghost rest = parse_program_spec(ts, p);
            let ghost dd = self.ast@;
            let ghost ee = parse_error_views(self.errors@);
            let curr = self.next();
            if let Token::Eof = curr.token {
                assert(dd + rest.decls =~= dd);
                assert(ee + rest.errors =~= ee);
                break;
            }
            let r = self.parse_node(curr);
            match r {
                Ok(n) => {
                    self.ast.decls.push(n);
                    proof {
                        assert(self.ast@ =~= dd.push(n@));
                        let rest2 = parse_program_spec(ts, self.cursor as int);
                        assert(rest.decls =~= seq![n@] + rest2.decls);
                        assert(dd + rest.decls =~= dd.push(n@) + rest2.decls);
                    }
                },
                Err(e) => {
                    self.errors.push(e);
                    proof {
                        assert(parse_error_views(self.errors@) =~= ee.push(e@));
                        let rest2 = parse_program_spec(ts, self.cursor as int);
                        assert(rest.errors =~= seq![e@] + rest2.errors);
                        assert(ee + rest.errors =~= ee.push(e@) + rest2.errors);
                    }
                },
            }
        }
    }

    fn parse_node(&mut self, curr: TokenData) -> (r: Result<Decl, ParseError>)
        requires
            old(self).wf(),
        ensures
            final(self).wf(),
            final(self).tokens@ == old(self).tokens@,
            final(self).ast == old(self).ast,
            final(self).errors == old(self).errors,
            old(self).cursor <= final(self).cursor,
            parse_node_spec(token_views(old(self).tokens@), curr@, old(self).cursor as int) == outcome(
                r,
                final(self).cursor as int,
            ),
    {
        let TokenData { token, line, pos } = curr;
        let ident = match token {
            Token::Identifier(s) => s,
            t => {
                return Err(error_at(ParseErrorKind::ExpectedProgramIdentifier(t), line, pos));
            },
        };
        match get_ident(&ident) {
            None => Err(error_at(ParseErrorKind::UnknownIdentifier(ident), line, pos)),
            Some(IdentType::Keyword(k)) => Err(error_at(ParseErrorKind::ExpectedDataType(k), line, pos)),
            Some(IdentType::DataType(dt)) => self.parse_node_type(dt),
        }
    }

    fn parse_node_type(&mut self, data_type: DataType) -> (r: Result<Decl, ParseError>)
        requires
            old(self).wf(),
        ensures
            final(self).wf(),
            final(self).tokens@ == old(self).tokens@,
            final(self).ast == old(self).ast,
            final(self).errors == old(self).errors,
            old(self).cursor <= final(self).cursor,
            parse_node_type_spec(token_views(old(self).tokens@), old(self).cursor as int, data_type) == outcome(
                r,
                final(self).cursor as int,
            ),
        decreases old(self).tokens.len() - old(self).cursor, 0int,
    {
        let curr = self.next();
        let TokenData { token, line, pos } = curr;
        let name = match token {
            Token::Identifier(i) => i,
            t => {
                return Err(error_at(ParseErrorKind::ExpectedNodeName(t), line, pos));
            },
        };
        let curr = self.next();
        let TokenData { token, line, pos } = curr;
        match token {
            Token::LeftParen => {
                match self.parse_func(data_type, name) {
                    Ok(f) => Ok(Decl::FuncDef(f)),
                    Err(err) => Err(err),
                }
            },
            Token::Equal => {
                match self.parse_var_stmt(data_type, name) {
                    Ok(v) => Ok(Decl::Var(v)),
                    Err(err) => Err(err),
                }
            },
            Token::SemiColon => Ok(
                Decl::Var(VarStmt { data_type, name, value: Expr::Empty, id: None, is_global: false }),
            ),
            t => Err(error_at(ParseErrorKind::InvalidTokenAfterName(name, t), line, pos)),
        }
    }

    fn parse_var_stmt(&mut self, data_type: DataType, name: String) -> (r: Result<VarStmt, ParseError>)
        requires
            old(self).wf(),
        ensures
            final(self).wf(),
            final(self).tokens@ == old(self).tokens@,
            final(self).ast == old(self).ast,
            final(self).errors == old(self).errors,
            old(self).cursor <= final(self).cursor,
            parse_var_spec(token_views(old(self).tokens@), old(self).cursor as int, data_type, name@) == outcome(
                r,
                final(self).cursor as int,
            ),
    {
        let expr = self.parse_expr(0)?;
        let curr = self.next();
        let TokenData { token, line, pos } = curr;
        match token {
            Token::SemiColon => {},
            t => {
                return Err(error_at(ParseErrorKind::ExpectedVarSemiColon(t), line, pos));
            },
        }
        Ok(VarStmt { data_type, name, value: expr, id: None, is_global: false })
    }

    fn parse_func(&mut self, data_type: DataType, name: String) -> (r: Result<FunctionDef, ParseError>)
        requires
            old(self).wf(),
        ensures
            final(self).wf(),
            final(self).tokens@ == old(self).tokens@,
            final(self).ast == old(self).ast,
            final(self).errors == old(self).errors,
            old(self).cursor <= final(self).cursor,
            parse_func_spec(token_views(old(self).tokens@), old(self).cursor as int, data_type, name@) == outcome(
                r,
                final(self).cursor as int,
            ),
        decreases old(self).tokens.len() - old(self).cursor, 0int,
    {
        let curr = self.next();
        let TokenData { token, line, pos } = curr;
        match token {
            Token::RightParen => {},
            t => {
                return Err(error_at(ParseErrorKind::ExpectedRightParen(t), line, pos));
            },
        }
        let curr = self.next();
        let TokenData { token, line, pos } = curr;
        match token {
            Token::LeftCurlyBr => {},
            t => {
                return Err(error_at(ParseErrorKind::ExpectedLeftCurlyBr(t), line, pos));
            },
        }
        let block = self.parse_block()?;
        let curr = self.next();
        let TokenData { token, line, pos } = curr;
        match token {
            Token::RightCurlyBr => {},
            t => {
                return Err(error_at(ParseErrorKind::ExpectedRightCurlyBr(t), line, pos));
            },
        }
        let f = FunctionDef { name, params: Vec::new(), body: block, return_type: data_type };
        assert(f.params@.map_values(|p: crate::ast::Param| p@) =~= Seq::<crate::ast::SpecParam>::empty());
        Ok(f)
    }

    fn parse_block(&mut self) -> (r: Result<Block, ParseError>)
        requires
            old(self).wf(),
        ensures
            final(self).wf(),
            final(self).tokens@ == old(self).tokens@,
            final(self).ast == old(self).ast,
            final(self).errors == old(self).errors,
            old(self).cursor <= final(self).cursor,
            parse_block_spec(token_views(old(self).tokens@), old(self).cursor as int, Seq::empty()) == outcome(
                r,
                final(self).cursor as int,
            ),
        decreases old(self).tokens.len() - old(self).cursor, 1int,
    {
        let ghost ts = token_views(self.tokens@);
        let ghost p0 = self.cursor as int;
        let mut block = Block { stmts: Vec::new() };
        assert(crate::ast::stmts_view(block.stmts@) =~= Seq::<SpecStmt>::empty());
        loop
            invariant_except_break
                self.wf(),
                token_views(self.tokens@) == ts,
                self.tokens@ == old(self).tokens@,
                self.ast == old(self).ast,
                self.errors == old(self).errors,
                p0 == old(self).cursor,
                p0 <= self.cursor,
                parse_block_spec(ts, p0, Seq::empty()) == parse_block_spec(
                    ts,
                    self.cursor as int,
                    crate::ast::stmts_view(block.stmts@),
                ),
            ensures
                self.wf(),
                token_views(self.tokens@) == ts,
                self.tokens@ == old(self).tokens@,
                self.ast == old(self).ast,
                self.errors == old(self).errors,
                p0 <= self.cursor,
                parse_block_spec(ts, p0, Seq::empty()) == Ok::<_, (SpecParseError, int)>(
                    (block@, self.cursor as int),
                ),
            decreases self.tokens.len() - self.cursor,
        {
            let t = self.peek();
            match t.token {
                Token::RightCurlyBr => break,
                Token::Eof => break,
                _ => {},
            }
            let ghost before = crate::ast::stmts_view(block.stmts@);
            let ghost v = block.stmts@;
            let s = self.parse_stmt()?;
            block.stmts.push(s);
            assert(block.stmts@.drop_last() =~= v);
            assert(crate::ast::stmts_view(block.stmts@) == before.push(s@));
        }
        Ok(block)
    }

    fn parse_stmt(&mut self) -> (r: Result<Stmt, ParseError>)
        requires
            old(self).wf(),
        ensures
            final(self).wf(),
            final(self).tokens@ == old(self).tokens@,
            final(self).ast == old(self).ast,
            final(self).errors == old(self).errors,
            old(self).cursor <= final(self).cursor,
            old(self).cursor < old(self).tokens.len() ==> old(self).cursor < final(self).cursor,
            parse_stmt_spec(token_views(old(self).tokens@), old(self).cursor as int) == outcome(r, final(self).cursor as int),
        decreases old(self).tokens.len() - old(self).cursor, 0int,
    {
        let curr = self.next();
        let TokenData { token, line, pos } = curr;
        match token {
            Token::Identifier(s) => {
                match get_ident(&s) {
                    Some(IdentType::DataType(data_type)) => {
                        let node = self.parse_node_type(data_type)?;
                        match node {
                            Decl::FuncDef(f) => Err(
                                error_at(ParseErrorKind::NestedFunction(f), line, pos),
                            ),
                            Decl::Var(v) => Ok(Stmt::Var(v)),
                        }
                    },
                    Some(IdentType::Keyword(Keyword::Return)) => self.parse_return_stmt(),
                    None => self.parse_assign_stmt(s),
                }
            },
            t => Err(error_at(ParseErrorKind::ExpectedStmtIdentifier(t), line, pos)),
        }
    }

    fn parse_assign_stmt(&mut self, target: String) -> (r: Result<Stmt, ParseError>)
        requires
            old(self).wf(),
        ensures
            final(self).wf(),
            final(self).tokens@ == old(self).tokens@,
            final(self).ast == old(self).ast,
            final(self).errors == old(self).errors,
            old(self).cursor <= final(self).cursor,
            parse_assign_spec(token_views(old(self).tokens@), old(self).cursor as int, target@) == outcome(
                r,
                final(self).cursor as int,
            ),
    {
        let curr = self.next();
        let TokenData { token, line, pos } = curr;
        match token {
            Token::Equal => {},
            t => {
                return Err(error_at(ParseErrorKind::ExpectedAssignEqual(t), line, pos));
            },
        }
        let expr = self.parse_expr(0)?;
        let curr = self.next();
        let TokenData { token, line, pos } = curr;
        match token {
            Token::SemiColon => {},
            t => {
                return Err(error_at(ParseErrorKind::ExpectedAssignSemiColon(t), line, pos));
            },
        }
        Ok(
            Stmt::Assign(
                AssignStmt {
                    target: Expr::Ident(IdentExpr { name: target, id: None, data_type: None }),
                    value: expr,
                },
            ),
        )
    }

    fn parse_return_stmt(&mut self) -> (r: Result<Stmt, ParseError>)
        requires
            old(self).wf(),
        ensures
            final(self).wf(),
            final(self).tokens@ == old(self).tokens@,
            final(self).ast == old(self).ast,
            final(self).errors == old(self).errors,
            old(self).cursor <= final(self).cursor,
            parse_return_spec(token_views(old(self).tokens@), old(self).cursor as int) == outcome(r, final(self).cursor as int),
    {
        let expr = self.parse_expr(0);
        match expr {
            Ok(e) => {
                let curr = self.next();
                match curr.token {
                    Token::SemiColon => Ok(Stmt::Return(e)),
                    _ => {
                        let line = curr.line;
                        let pos = curr.pos;
                        Err(error_at(ParseErrorKind::ExpectedReturnSemiColon(curr), line, pos))
                    },
                }
            },
            Err(err) => Err(err),
        }
    }

    fn parse_expr(&mut self, min_bp: u32) -> (r: Result<Expr, ParseError>)
        requires
            old(self).wf(),
        ensures
            final(self).wf(),
            final(self).tokens@ == old(self).tokens@,
            final(self).ast == old(self).ast,
            final(self).errors == old(self).errors,
            old(self).cursor <= final(self).cursor,
            parse_expr_spec(token_views(old(self).tokens@), old(self).cursor as int, min_bp) == outcome(
                r,
                final(self).cursor as int,
            ),
        decreases old(self).tokens.len() - old(self).cursor,
    {
        let ghost ts = token_views(self.tokens@);
        let ghost p0 = self.cursor as int;
        if let Token::SemiColon = self.peek().token {
            return Ok(Expr::Empty);
        }
        let curr = self.next();
        let TokenData { token, line, pos } = curr;
        let mut lhs = match token {
            Token::String(s) => Expr::String(s),
            Token::Identifier(s) => Expr::Ident(IdentExpr { name: s, id: None, data_type: None }),
            Token::Number(s) => {
                match parse_i32(&s) {
                    Some(num) => Expr::Int32(num),
                    None => {
                        return Err(error_at(ParseErrorKind::IntParse(s), line, pos));
                    },
                }
            },
            Token::LeftParen => {
                let expr = self.parse_expr(0)?;
                let curr = self.next();
                let TokenData { token, line, pos } = curr;
                match token {
                    Token::RightParen => expr,
                    t => {
                        return Err(error_at(ParseErrorKind::ExpectedRightParen(t), line, pos));
                    },
                }
            },
            t => {
                return Err(error_at(ParseErrorKind::UnexpectedExprToken(t), line, pos));
            },
        };
        loop
            invariant_except_break
                self.wf(),
                token_views(self.tokens@) == ts,
                self.tokens@ == old(self).tokens@,
                self.ast == old(self).ast,
                self.errors == old(self).errors,
                p0 == old(self).cursor,
                p0 < self.cursor,
                parse_expr_spec(ts, p0, min_bp) == expr_loop_spec(
                    ts,
                    self.cursor as int,
                    min_bp,
                    lhs@,
                ),
            ensures
                self.wf(),
                token_views(self.tokens@) == ts,
                self.tokens@ == old(self).tokens@,
                self.ast == old(self).ast,
                self.errors == old(self).errors,
                p0 < self.cursor,
                parse_expr_spec(ts, p0, min_bp) == Ok::<_, (SpecParseError, int)>(
                    (lhs@, self.cursor as int),
                ),
            decreases self.tokens.len() - self.cursor,
        {
            let t = self.peek();
            match t.token {
                Token::SemiColon => break,
                Token::RightParen => break,
                Token::Eof => break,
                _ => {},
            }
            let TokenData { token, line, pos } = t;
            match token.bin_op() {
                Some((lbp, rbp, op)) => {
                    if lbp < min_bp {
                        break;
                    }
                    self.next();
                    if let Token::SemiColon = self.peek().token {
                        let TokenData { token, line, pos } = self.next();
                        return Err(error_at(ParseErrorKind::UnexpectedExprToken(token), line, pos));
                    }
                    let rhs = self.parse_expr(rbp)?;
                    lhs = Expr::BinaryExpr(Box::new(BinaryExpr { left: lhs, op: op, right: rhs }));
                },
                None => {
                    return Err(error_at(ParseErrorKind::UnexpectedInExpression(token), line, pos));
                },
            }
        }
        Ok(lhs)
    }

    fn next(&mut self) -> (t: TokenData)
        requires
            old(self).wf(),
        ensures
            final(self).wf(),
            final(self).tokens@ == old(self).tokens@,
            final(self).ast == old(self).ast,
            final(self).errors == old(self).errors,
            t@ == tok_at(token_views(old(self).tokens@), old(self).cursor as int),
            final(self).cursor == adv(token_views(old(self).tokens@), old(self).cursor as int),
    {
        if self.cursor < self.tokens.len() {
            let t = self.tokens[self.cursor].clone();
            self.cursor = self.cursor + 1;
            t
        } else {
            TokenData::default()
        }
    }

    fn peek(&self) -> (t: TokenData)
        ensures
            t@ == tok_at(token_views(self.tokens@), self.cursor as int),
    {
        if self.cursor < self.tokens.len() {
            self.tokens[self.cursor].clone()
        } else {
            TokenData::default()
        }
    }
}

fn get_ident(ident: &String) -> (r: Option<IdentType>)
    ensures
        r == spec_get_ident(ident@),
{
    proof {
        reveal_strlit("int");
        reveal_strlit("void");
        reveal_strlit("char*");
        reveal_strlit("return");
    }
    let s = ident.as_str();
    assert("int"@ =~= seq!['i', 'n', 't']);
    assert("void"@ =~= seq!['v', 'o', 'i', 'd']);
    assert("char*"@ =~= seq!['c', 'h', 'a', 'r', '*']);
    assert("return"@ =~= seq!['r', 'e', 't', 'u', 'r', 'n']);
    if text_eq(s, "int") {
        assert("int"@ =~= seq!['i', 'n', 't']);
        Some(IdentType::DataType(DataType::Int))
    } else if text_eq(s, "void") {
        assert("void"@ =~= seq!['v', 'o', 'i', 'd']);
        assert(ident@ != seq!['i', 'n', 't']);
        Some(IdentType::DataType(DataType::Void))
    } else if text_eq(s, "char*") {
        assert("char*"@ =~= seq!['c', 'h', 'a', 'r', '*']);
        assert(ident@ != seq!['i', 'n', 't']);
        assert(ident@ != seq!['v', 'o', 'i', 'd']);
        Some(IdentType::DataType(DataType::CharPtr))
    } else if text_eq(s, "return") {
        assert("return"@ =~= seq!['r', 'e', 't', 'u', 'r', 'n']);
        assert(ident@ != seq!['i', 'n', 't']);
        assert(ident@ != seq!['v', 'o', 'i', 'd']);
        assert(ident@ != seq!['c', 'h', 'a', 'r', '*']);
        Some(IdentType::Keyword(Keyword::Return))
    } else {
        assert(ident@ != seq!['i', 'n', 't']);
        assert(ident@ != seq!['v', 'o', 'i', 'd']);
        assert(ident@ != seq!['c', 'h', 'a', 'r', '*']);
        assert(ident@ != seq!['r', 'e', 't', 'u', 'r', 'n']);
        None
    }
}

} // verus!
