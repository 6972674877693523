use vstd::prelude::*;

use crate::text::{
    i32_to_string, int_decimal, lemma_concat_one_line, lemma_decimal_one_line, lemma_int_decimal_one_line,
    nat_decimal, one_line, push_decimal,
};
use crate::types::DataType;

verus! {

#[derive(Debug, PartialEq, Eq)]
pub struct Ast {
    pub decls: Vec<Decl>,
}

#[derive(Debug, PartialEq, Eq)]
pub enum Decl {
    FuncDef(FunctionDef),
    Var(VarStmt),
}

#[derive(Debug, PartialEq, Eq)]
pub enum Stmt {
    Return(Expr),
    Var(VarStmt),
    Assign(AssignStmt),
    IfStmt(IfStmt),
}

#[derive(Debug, PartialEq, Eq, Clone)]
pub struct IdentExpr {
    pub name: String,
    pub id: Option<usize>,
    pub data_type: Option<DataType>,
}

#[derive(Debug, PartialEq, Eq)]
pub enum Expr {
    Int32(i32),
    String(String),
    Ident(IdentExpr),
    BinaryExpr(Box<BinaryExpr>),
    Empty,
}

#[derive(Debug, PartialEq, Eq)]
pub struct FunctionDef {
    pub return_type: DataType,
    pub name: String,
    pub params: Vec<Param>,
    pub body: Block,
}

#[derive(Debug, PartialEq, Eq, Clone)]
pub struct Param {
    pub name: String,
    pub p_type: DataType,
}

#[derive(Debug, PartialEq, Eq)]
pub struct Block {
    pub stmts: Vec<Stmt>,
}

#[derive(Debug, PartialEq, Eq)]
pub struct VarStmt {
    pub data_type: DataType,
    pub name: String,
    pub value: Expr,
    pub id: Option<usize>,
    pub is_global: bool,
}

#[derive(Debug, PartialEq, Eq)]
pub struct AssignStmt {
    pub target: Expr,
    pub value: Expr,
}

#[derive(Debug, PartialEq, Eq, Clone, Copy, Structural)]
pub enum BinaryOp {
    Add,
    Sub,
    Mul,
    Div,
    Modulo,
    Less,
    Greater,
    And,
    Or,
}

#[derive(Debug, PartialEq, Eq)]
pub struct IfStmt {
    pub branches: Vec<IfBranch>,
    pub else_stmt: Option<Block>,
}

#[derive(Debug, PartialEq, Eq)]
pub struct IfBranch {
    pub cond_expr: Expr,
    pub body: Block,
}

#[derive(Debug, PartialEq, Eq)]
pub struct BinaryExpr {
    pub left: Expr,
    pub op: BinaryOp,
    pub right: Expr,
}

// ---------------------------------------------------------------------------
// Mathematical model of the tree: the same shape, with text as `Seq<char>`.
// ---------------------------------------------------------------------------
pub ghost struct SpecIdent {
    pub name: Seq<char>,
    pub id: Option<usize>,
    pub data_type: Option<DataType>,
}

pub ghost enum SpecExpr {
    Int32(i32),
    Str(Seq<char>),
    Ident(SpecIdent),
    Binary(Box<SpecExpr>, BinaryOp, Box<SpecExpr>),
    Empty,
}

pub ghost struct SpecVar {
    pub data_type: DataType,
    pub name: Seq<char>,
    pub value: SpecExpr,
    pub id: Option<usize>,
    pub is_global: bool,
}

pub ghost struct SpecAssign {
    pub target: SpecExpr,
    pub value: SpecExpr,
}

pub ghost struct SpecParam {
    pub name: Seq<char>,
    pub p_type: DataType,
}

pub ghost struct SpecBlock {
    pub stmts: Seq<SpecStmt>,
}

pub ghost struct SpecIfBranch {
    pub cond_expr: SpecExpr,
    pub body: SpecBlock,
}

pub ghost struct SpecIf {
    pub branches: Seq<SpecIfBranch>,
    pub else_stmt: Option<SpecBlock>,
}

pub ghost enum SpecStmt {
    Return(SpecExpr),
    Var(SpecVar),
    Assign(SpecAssign),
    If(SpecIf),
}

pub ghost struct SpecFunc {
    pub return_type: DataType,
    pub name: Seq<char>,
    pub params: Seq<SpecParam>,
    pub body: SpecBlock,
}

pub ghost enum SpecDecl {
    FuncDef(SpecFunc),
    Var(SpecVar),
}

pub open spec fn expr_view(e: Expr) -> SpecExpr
    decreases e,
{
    match e {
        Expr::Int32(v) => SpecExpr::Int32(v),
        Expr::String(s) => SpecExpr::Str(s@),
        Expr::Ident(i) => SpecExpr::Ident(i@),
        Expr::BinaryExpr(b) => SpecExpr::Binary(
            Box::new(expr_view(b.left)),
            b.op,
            Box::new(expr_view(b.right)),
        ),
        Expr::Empty => SpecExpr::Empty,
    }
}

pub open spec fn stmt_view(s: Stmt) -> SpecStmt
    decreases s,
{
    match s {
        Stmt::Return(e) => SpecStmt::Return(expr_view(e)),
        Stmt::Var(v) => SpecStmt::Var(v@),
        Stmt::Assign(a) => SpecStmt::Assign(a@),
        Stmt::IfStmt(i) => SpecStmt::If(if_view(i)),
    }
}

pub open spec fn block_view(b: Block) -> SpecBlock
    decreases b,
{
    SpecBlock { stmts: stmts_view(b.stmts@) }
}

pub open spec fn stmts_view(s: Seq<Stmt>) -> Seq<SpecStmt>
    decreases s,
{
    if s.len() == 0 {
        Seq::empty()
    } else {
        stmts_view(s.drop_last()).push(stmt_view(s.last()))
    }
}

pub open spec fn if_view(i: IfStmt) -> SpecIf
    decreases i,
{
    SpecIf {
        branches: branches_view(i.branches@),
        else_stmt: match i.else_stmt {
            Some(b) => Some(block_view(b)),
            None => None,
        },
    }
}

pub open spec fn branches_view(s: Seq<IfBranch>) -> Seq<SpecIfBranch>
    decreases s,
{
    if s.len() == 0 {
        Seq::empty()
    } else {
        branches_view(s.drop_last()).push(
            SpecIfBranch { cond_expr: expr_view(s.last().cond_expr), body: block_view(s.last().body) },
        )
    }
}

pub proof fn lemma_stmts_view(s: Seq<Stmt>)
    ensures
        stmts_view(s).len() == s.len(),
        forall|i: int| 0 <= i < s.len() ==> #[trigger] stmts_view(s)[i] == stmt_view(s[i]),
    decreases s.len(),
{
    if s.len() > 0 {
        lemma_stmts_view(s.drop_last());
        assert forall|i: int| 0 <= i < s.len() implies #[trigger] stmts_view(s)[i] == stmt_view(s[i]) by {
            if i < s.len() - 1 {
                assert(s.drop_last()[i] == s[i]);
            }
        }
    }
}

pub proof fn lemma_branches_view(s: Seq<IfBranch>)
    ensures
        branches_view(s).len() == s.len(),
        forall|i: int|
            0 <= i < s.len() ==> #[trigger] branches_view(s)[i] == (SpecIfBranch {
                cond_expr: expr_view(s[i].cond_expr),
                body: block_view(s[i].body),
            }),
    decreases s.len(),
{
    if s.len() > 0 {
        lemma_branches_view(s.drop_last());
        assert forall|i: int| 0 <= i < s.len() implies #[trigger] branches_view(s)[i] == (SpecIfBranch {
            cond_expr: expr_view(s[i].cond_expr),
            body: block_view(s[i].body),
        }) by {
            if i < s.len() - 1 {
                assert(s.drop_last()[i] == s[i]);
            }
        }
    }
}

impl View for IdentExpr {
    type V = SpecIdent;

    open spec fn view(&self) -> SpecIdent {
        SpecIdent { name: self.name@, id: self.id, data_type: self.data_type }
    }
}

impl View for Expr {
    type V = SpecExpr;

    open spec fn view(&self) -> SpecExpr {
        expr_view(*self)
    }
}

impl View for VarStmt {
    type V = SpecVar;

    open spec fn view(&self) -> SpecVar {
        SpecVar {
            data_type: self.data_type,
            name: self.name@,
            value: self.value@,
            id: self.id,
            is_global: self.is_global,
        }
    }
}

impl View for AssignStmt {
    type V = SpecAssign;

    open spec fn view(&self) -> SpecAssign {
        SpecAssign { target: self.target@, value: self.value@ }
    }
}

impl View for Param {
    type V = SpecParam;

    open spec fn view(&self) -> SpecParam {
        SpecParam { name: self.name@, p_type: self.p_type }
    }
}

impl View for Block {
    type V = SpecBlock;

    open spec fn view(&self) -> SpecBlock {
        block_view(*self)
    }
}

impl View for Stmt {
    type V = SpecStmt;

    open spec fn view(&self) -> SpecStmt {
        stmt_view(*self)
    }
}

impl View for FunctionDef {
    type V = SpecFunc;

    open spec fn view(&self) -> SpecFunc {
        SpecFunc {
            return_type: self.return_type,
            name: self.name@,
            params: self.params@.map_values(|p: Param| p@),
            body: self.body@,
        }
    }
}

impl View for Decl {
    type V = SpecDecl;

    open spec fn view(&self) -> SpecDecl {
        match self {
            Decl::FuncDef(f) => SpecDecl::FuncDef(f@),
            Decl::Var(v) => SpecDecl::Var(v@),
        }
    }
}

impl View for Ast {
    type V = Seq<SpecDecl>;

    open spec fn view(&self) -> Seq<SpecDecl> {
        self.decls@.map_values(|d: Decl| d@)
    }
}


// ---------------------------------------------------------------------------
// Copies of the tree.
// ---------------------------------------------------------------------------
fn copy_expr(e: &Expr) -> (r: Expr)
    ensures
        r@ == e@,
    decreases e,
{
    match e {
        Expr::Int32(v) => Expr::Int32(*v),
        Expr::String(s) => Expr::String(s.clone()),
        Expr::Ident(i) => Expr::Ident(IdentExpr { name: i.name.clone(), id: i.id, data_type: i.data_type }),
        Expr::BinaryExpr(b) => {
            let left = copy_expr(&b.left);
            let right = copy_expr(&b.right);
            Expr::BinaryExpr(Box::new(BinaryExpr { left, op: b.op, right }))
        },
        Expr::Empty => Expr::Empty,
    }
}

fn copy_var(v: &VarStmt) -> (r: VarStmt)
    ensures
        r@ == v@,
{
    VarStmt {
        data_type: v.data_type,
        name: v.name.clone(),
        value: copy_expr(&v.value),
        id: v.id,
        is_global: v.is_global,
    }
}

fn copy_stmt(s: &Stmt) -> (r: Stmt)
    ensures
        r@ == s@,
    decreases s,
{
    match s {
        Stmt::Return(e) => Stmt::Return(copy_expr(e)),
        Stmt::Var(v) => Stmt::Var(copy_var(v)),
        Stmt::Assign(a) => Stmt::Assign(AssignStmt { target: copy_expr(&a.target), value: copy_expr(&a.value) }),
        Stmt::IfStmt(i) => Stmt::IfStmt(copy_if(i)),
    }
}

fn copy_stmts(v: &Vec<Stmt>) -> (r: Vec<Stmt>)
    ensures
        stmts_view(r@) == stmts_view(v@),
    decreases v,
{
    let mut r: Vec<Stmt> = Vec::new();
    let mut i: usize = 0;
    while i < v.len()
        invariant
            i <= v.len(),
            r@.len() == i,
            forall|k: int| 0 <= k < i ==> #[trigger] stmt_view(r@[k]) == stmt_view(v@[k]),
        decreases v.len() - i,
    {
        proof {
            assert(decreases_to!(v => v@));
            assert(decreases_to!(v@ => v@[i as int]));
        }
        let c = copy_stmt(&v[i]);
        r.push(c);
        i = i + 1;
    }
    proof {
        lemma_stmts_view(r@);
        lemma_stmts_view(v@);
    }
    assert(stmts_view(r@) =~= stmts_view(v@));
    r
}

fn copy_block(b: &Block) -> (r: Block)
    ensures
        r@ == b@,
    decreases b,
{
    Block { stmts: copy_stmts(&b.stmts) }
}

fn copy_branches(v: &Vec<IfBranch>) -> (r: Vec<IfBranch>)
    ensures
        branches_view(r@) == branches_view(v@),
    decreases v,
{
    let mut r: Vec<IfBranch> = Vec::new();
    let mut i: usize = 0;
    while i < v.len()
        invariant
            i <= v.len(),
            r@.len() == i,
            forall|k: int| 0 <= k < i ==> expr_view(#[trigger] r@[k].cond_expr) == expr_view(v@[k].cond_expr)
                && block_view(r@[k].body) == block_view(v@[k].body),
        decreases v.len() - i,
    {
        proof {
            assert(decreases_to!(v => v@));
            assert(decreases_to!(v@ => v@[i as int]));
        }
        let b = &v[i];
        let c = IfBranch { cond_expr: copy_expr(&b.cond_expr), body: copy_block(&b.body) };
        r.push(c);
        i = i + 1;
    }
    proof {
        lemma_branches_view(r@);
        lemma_branches_view(v@);
    }
    assert(branches_view(r@) =~= branches_view(v@));
    r
}

fn copy_if(i: &IfStmt) -> (r: IfStmt)
    ensures
        if_view(r) == if_view(*i),
    decreases i,
{
    let branches = copy_branches(&i.branches);
    let else_stmt = match &i.else_stmt {
        Some(b) => Some(copy_block(b)),
        None => None,
    };
    IfStmt { branches, else_stmt }
}

fn copy_params(v: &Vec<Param>) -> (r: Vec<Param>)
    ensures
        r@.map_values(|p: Param| p@) == v@.map_values(|p: Param| p@),
{
    let mut r: Vec<Param> = Vec::new();
    let mut i: usize = 0;
    while i < v.len()
        invariant
            i <= v.len(),
            r@.len() == i,
            forall|k: int| 0 <= k < i ==> #[trigger] r@[k]@ == v@[k]@,
        decreases v.len() - i,
    {
        r.push(Param { name: v[i].name.clone(), p_type: v[i].p_type });
        i = i + 1;
    }
    assert(r@.map_values(|p: Param| p@) =~= v@.map_values(|p: Param| p@));
    r
}

fn copy_function(f: &FunctionDef) -> (r: FunctionDef)
    ensures
        r@ == f@,
{
    FunctionDef {
        return_type: f.return_type,
        name: f.name.clone(),
        params: copy_params(&f.params),
        body: copy_block(&f.body),
    }
}

fn copy_decl(d: &Decl) -> (r: Decl)
    ensures
        r@ == d@,
{
    match d {
        Decl::FuncDef(f) => Decl::FuncDef(copy_function(f)),
        Decl::Var(v) => Decl::Var(copy_var(v)),
    }
}

impl Clone for Ast {
    fn clone(&self) -> (r: Self)
        ensures
            r@ == self@,
    {
        let mut decls: Vec<Decl> = Vec::new();
        let mut i: usize = 0;
        while i < self.decls.len()
            invariant
                i <= self.decls.len(),
                decls@.len() == i,
                forall|k: int| 0 <= k < i ==> #[trigger] decls@[k]@ == self.decls@[k]@,
            decreases self.decls.len() - i,
        {
            decls.push(copy_decl(&self.decls[i]));
            i = i + 1;
        }
        let r = Ast { decls };
        assert(r@ =~= self@);
        r
    }
}

impl Clone for Decl {
    fn clone(&self) -> (r: Self)
        ensures
            r@ == self@,
    {
        copy_decl(self)
    }
}

impl Clone for FunctionDef {
    fn clone(&self) -> (r: Self)
        ensures
            r@ == self@,
    {
        copy_function(self)
    }
}

impl Clone for Block {
    fn clone(&self) -> (r: Self)
        ensures
            r@ == self@,
    {
        copy_block(self)
    }
}

impl Clone for Stmt {
    fn clone(&self) -> (r: Self)
        ensures
            r@ == self@,
    {
        copy_stmt(self)
    }
}

impl Clone for VarStmt {
    fn clone(&self) -> (r: Self)
        ensures
            r@ == self@,
    {
        copy_var(self)
    }
}

impl Clone for AssignStmt {
    fn clone(&self) -> (r: Self)
        ensures
            r@ == self@,
    {
        AssignStmt { target: copy_expr(&self.target), value: copy_expr(&self.value) }
    }
}

impl Clone for Expr {
    fn clone(&self) -> (r: Self)
        ensures
            r@ == self@,
    {
        copy_expr(self)
    }
}

impl Clone for BinaryExpr {
    fn clone(&self) -> (r: Self)
        ensures
            r.left@ == self.left@,
            r.op == self.op,
            r.right@ == self.right@,
    {
        BinaryExpr { left: copy_expr(&self.left), op: self.op, right: copy_expr(&self.right) }
    }
}

impl Clone for IfStmt {
    fn clone(&self) -> (r: Self)
        ensures
            if_view(r) == if_view(*self),
    {
        copy_if(self)
    }
}

impl Clone for IfBranch {
    fn clone(&self) -> (r: Self)
        ensures
            r.cond_expr@ == self.cond_expr@,
            r.body@ == self.body@,
    {
        IfBranch { cond_expr: copy_expr(&self.cond_expr), body: copy_block(&self.body) }
    }
}

// ---------------------------------------------------------------------------
// The tree drawing of a program.
// ---------------------------------------------------------------------------
/// The text `{:?}` writes for a string: quoted, with escapes.
pub uninterp spec fn str_debug(s: Seq<char>) -> Seq<char>;

/// Formats a string as `{:?}` does.
///
/// Calls std's `format!` with the `Debug` implementation of `str`; the
/// contract claims only that the result is a function of the text
/// (`str_debug`): what escapes it writes is not stated.
#[verifier::external_body]
fn debug_str(s: &str) -> (r: String)
    ensures
        r@ == str_debug(s@),
{
    format!("{:?}", s)
}

pub open spec fn line(s: Seq<char>) -> Seq<char> {
    s + "\n"@
}

pub open spec fn branch(last: bool) -> Seq<char> {
    if last {
        "└── "@
    } else {
        "├── "@
    }
}

pub open spec fn indent(last: bool) -> Seq<char> {
    if last {
        "    "@
    } else {
        "│   "@
    }
}

pub open spec fn data_type_debug(dt: DataType) -> Seq<char> {
    match dt {
        DataType::Int => "Int"@,
        DataType::CharPtr => "CharPtr"@,
        DataType::Void => "Void"@,
    }
}

pub open spec fn op_debug(op: BinaryOp) -> Seq<char> {
    match op {
        BinaryOp::Add => "Add"@,
        BinaryOp::Sub => "Sub"@,
        BinaryOp::Mul => "Mul"@,
        BinaryOp::Div => "Div"@,
        BinaryOp::Modulo => "Modulo"@,
        BinaryOp::Less => "Less"@,
        BinaryOp::Greater => "Greater"@,
        BinaryOp::And => "And"@,
        BinaryOp::Or => "Or"@,
    }
}

pub open spec fn id_debug(id: Option<usize>) -> Seq<char> {
    match id {
        Some(v) => "Some("@ + nat_decimal(v as nat) + ")"@,
        None => "None"@,
    }
}

pub open spec fn opt_type_debug(dt: Option<DataType>) -> Seq<char> {
    match dt {
        Some(d) => "Some("@ + data_type_debug(d) + ")"@,
        None => "None"@,
    }
}

pub open spec fn bool_text(b: bool) -> Seq<char> {
    if b {
        "true"@
    } else {
        "false"@
    }
}

/// An expression under `prefix`, as the last child of its parent or not.
pub open spec fn expr_text(e: SpecExpr, prefix: Seq<char>, last: bool) -> Seq<char>
    decreases e,
{
    let b = prefix + branch(last);
    match e {
        SpecExpr::Int32(v) => line(b + "Int32: "@ + int_decimal(v as int)),
        SpecExpr::Str(s) => line(b + "String: "@ + str_debug(s)),
        SpecExpr::Ident(i) => line(
            b + "Ident: "@ + i.name + "("@ + id_debug(i.id) + ") - "@ + opt_type_debug(i.data_type),
        ),
        SpecExpr::Empty => line(b + "Empty"@),
        SpecExpr::Binary(l, op, r) => {
            let cp = prefix + indent(last);
            line(b + "BinaryExpr: "@ + op_debug(op)) + expr_text(*l, cp, false) + expr_text(*r, cp, true)
        },
    }
}

/// A variable declaration, the same at the top level and in a body.
pub open spec fn var_text(v: SpecVar, prefix: Seq<char>, last: bool) -> Seq<char> {
    let cp = prefix + indent(last);
    line(prefix + branch(last) + "VarDecl"@) + line(cp + "├── Type: "@ + data_type_debug(v.data_type))
        + line(cp + "├── Name: "@ + v.name) + line(cp + "├── ID: "@ + id_debug(v.id)) + line(
        cp + "└── IsGlobal: "@ + bool_text(v.is_global),
    ) + line(cp + "└── Value"@) + expr_text(v.value, cp + "    "@, true)
}

/// The statements `stmts`, the last of `n` being drawn as the last child.
pub open spec fn stmts_text(stmts: Seq<SpecStmt>, prefix: Seq<char>, n: int) -> Seq<char>
    decreases stmts,
{
    if stmts.len() == 0 {
        Seq::empty()
    } else {
        stmts_text(stmts.drop_last(), prefix, n) + stmt_text(
            stmts.last(),
            prefix,
            stmts.len() - 1 == n - 1,
        )
    }
}

/// Branch `j` of an `if`, drawn as the last child or not.
pub open spec fn branch_text(b: SpecIfBranch, cp: Seq<char>, j: int, is_last: bool) -> Seq<char>
    decreases b,
{
    let bp = cp + indent(is_last);
    line(
        cp + branch(is_last) + (if j == 0 {
            "Branch"@
        } else {
            "ElseIf"@
        }),
    ) + line(bp + "├── Condition"@) + expr_text(b.cond_expr, bp + "│   "@, true) + line(
        bp + "└── Body"@,
    ) + stmts_text(b.body.stmts, bp + "    "@, b.body.stmts.len() as int)
}

/// The branches `bs` of an `if` of `n` branches, with an `else` or not.
pub open spec fn branches_text(bs: Seq<SpecIfBranch>, cp: Seq<char>, n: int, has_else: bool) -> Seq<char>
    decreases bs,
{
    if bs.len() == 0 {
        Seq::empty()
    } else {
        let j = bs.len() - 1;
        branches_text(bs.drop_last(), cp, n, has_else) + branch_text(
            bs.last(),
            cp,
            j,
            j == n - 1 && !has_else,
        )
    }
}

pub open spec fn assign_text(a: SpecAssign, prefix: Seq<char>, last: bool) -> Seq<char> {
    let cp = prefix + indent(last);
    line(prefix + branch(last) + "Assign"@) + line(cp + "├── Target"@) + expr_text(
        a.target,
        cp + "│   "@,
        true,
    ) + line(cp + "└── Value"@) + expr_text(a.value, cp + "    "@, true)
}

pub open spec fn if_text(i: SpecIf, prefix: Seq<char>, last: bool) -> Seq<char>
    decreases i,
{
    let cp = prefix + indent(last);
    line(prefix + branch(last) + "IfStmt"@) + branches_text(
        i.branches,
        cp,
        i.branches.len() as int,
        i.else_stmt is Some,
    ) + match i.else_stmt {
        Some(eb) => line(cp + "└── Else"@) + line(cp + "    "@ + "└── Body"@) + stmts_text(
            eb.stmts,
            cp + "    "@ + "    "@,
            eb.stmts.len() as int,
        ),
        None => Seq::empty(),
    }
}

pub open spec fn stmt_text(s: SpecStmt, prefix: Seq<char>, last: bool) -> Seq<char>
    decreases s,
{
    match s {
        SpecStmt::Return(e) => line(prefix + branch(last) + "Return"@) + expr_text(
            e,
            prefix + indent(last),
            true,
        ),
        SpecStmt::Var(v) => var_text(v, prefix, last),
        SpecStmt::Assign(a) => assign_text(a, prefix, last),
        SpecStmt::If(i) => if_text(i, prefix, last),
    }
}

/// The parameters of `n`, with the last drawn as the last child.
pub open spec fn params_lines(ps: Seq<SpecParam>, prefix: Seq<char>, n: int) -> Seq<char>
    decreases ps.len(),
{
    if ps.len() == 0 {
        Seq::empty()
    } else {
        params_lines(ps.drop_last(), prefix, n) + line(
            prefix + "│   "@ + branch(ps.len() - 1 == n - 1) + "Param: "@ + ps.last().name + " ("@
                + data_type_debug(ps.last().p_type) + ")"@,
        )
    }
}

pub open spec fn params_text(ps: Seq<SpecParam>, prefix: Seq<char>) -> Seq<char> {
    if ps.len() == 0 {
        line(prefix + "├── Parameters: []"@)
    } else {
        line(prefix + "├── Parameters"@) + params_lines(ps, prefix, ps.len() as int)
    }
}

pub open spec fn decl_text(d: SpecDecl, prefix: Seq<char>, last: bool) -> Seq<char> {
    match d {
        SpecDecl::FuncDef(f) => {
            let cp = prefix + indent(last);
            line(prefix + branch(last) + "FunctionDef"@) + line(
                cp + "├── ReturnType: "@ + data_type_debug(f.return_type),
            ) + line(cp + "├── Name: "@ + f.name) + params_text(f.params, cp) + line(
                cp + "└── Body"@,
            ) + stmts_text(f.body.stmts, cp + "    "@, f.body.stmts.len() as int)
        },
        SpecDecl::Var(v) => var_text(v, prefix, last),
    }
}

pub open spec fn decls_text(ds: Seq<SpecDecl>, n: int) -> Seq<char>
    decreases ds.len(),
{
    if ds.len() == 0 {
        Seq::empty()
    } else {
        decls_text(ds.drop_last(), n) + decl_text(ds.last(), ""@, ds.len() - 1 == n - 1)
    }
}

/// The drawing of a whole program: `AST`, then each declaration as a tree.
pub open spec fn ast_text(ds: Seq<SpecDecl>) -> Seq<char> {
    line("AST"@) + decls_text(ds, ds.len() as int)
}

// ---------------------------------------------------------------------------
// The shape of the drawing: whole lines, each under the prefix it was given.
// ---------------------------------------------------------------------------
/// `p` stands in `t` at index `m`.
pub open spec fn starts_at(t: Seq<char>, m: int, p: Seq<char>) -> bool {
    m + p.len() <= t.len() && t.subrange(m, m + p.len()) == p
}

/// Text made of whole lines, each beginning with `p`.
pub open spec fn lines_under(t: Seq<char>, p: Seq<char>) -> bool {
    &&& (t.len() > 0 ==> t[t.len() - 1] == '\n')
    &&& forall|m: int| 0 <= m < t.len() && (m == 0 || t[m - 1] == '\n') ==> #[trigger] starts_at(t, m, p)
}

/// An expression without a string literal and whose names have no line break.
pub open spec fn plain_expr(e: SpecExpr) -> bool
    decreases e,
{
    match e {
        SpecExpr::Str(_) => false,
        SpecExpr::Ident(i) => one_line(i.name),
        SpecExpr::Binary(l, _, r) => plain_expr(*l) && plain_expr(*r),
        _ => true,
    }
}

/// A statement without a string literal and whose names have no line break.
pub open spec fn plain_stmt(s: SpecStmt) -> bool
    decreases s,
{
    match s {
        SpecStmt::Return(e) => plain_expr(e),
        SpecStmt::Var(v) => one_line(v.name) && plain_expr(v.value),
        SpecStmt::Assign(a) => plain_expr(a.target) && plain_expr(a.value),
        SpecStmt::If(i) => plain_branches(i.branches) && match i.else_stmt {
            Some(b) => plain_stmts(b.stmts),
            None => true,
        },
    }
}

pub open spec fn plain_stmts(ss: Seq<SpecStmt>) -> bool
    decreases ss,
{
    if ss.len() == 0 {
        true
    } else {
        plain_stmts(ss.drop_last()) && plain_stmt(ss.last())
    }
}

pub open spec fn plain_branches(bs: Seq<SpecIfBranch>) -> bool
    decreases bs,
{
    if bs.len() == 0 {
        true
    } else {
        plain_branches(bs.drop_last()) && plain_expr(bs.last().cond_expr) && plain_stmts(
            bs.last().body.stmts,
        )
    }
}

proof fn lemma_tree_literals()
    ensures
        one_line(branch(true)),
        one_line(branch(false)),
        one_line(indent(true)),
        one_line(indent(false)),
        one_line("Int32: "@),
        one_line("Ident: "@),
        one_line("("@),
        one_line(") - "@),
        one_line("Some("@),
        one_line(")"@),
        one_line("None"@),
        one_line("Empty"@),
        one_line("BinaryExpr: "@),
        one_line("VarDecl"@),
        one_line("├── Type: "@),
        one_line("├── Name: "@),
        one_line("├── ID: "@),
        one_line("└── IsGlobal: "@),
        one_line("└── Value"@),
        one_line("Branch"@),
        one_line("ElseIf"@),
        one_line("├── Condition"@),
        one_line("│   "@),
        one_line("└── Body"@),
        one_line("    "@),
        one_line("Assign"@),
        one_line("├── Target"@),
        one_line("IfStmt"@),
        one_line("└── Else"@),
        one_line("Return"@),
        forall|d: DataType| #[trigger] one_line(data_type_debug(d)),
        forall|o: BinaryOp| #[trigger] one_line(op_debug(o)),
        forall|b: bool| #[trigger] one_line(bool_text(b)),
        forall|d: Option<DataType>| #[trigger] one_line(opt_type_debug(d)),
        "\n"@ == seq!['\n'],
{
    reveal_strlit("└── ");
    reveal_strlit("├── ");
    reveal_strlit("    ");
    reveal_strlit("│   ");
    reveal_strlit("Int32: ");
    reveal_strlit("Ident: ");
    reveal_strlit("(");
    reveal_strlit(") - ");
    reveal_strlit("Some(");
    reveal_strlit(")");
    reveal_strlit("None");
    reveal_strlit("Empty");
    reveal_strlit("BinaryExpr: ");
    reveal_strlit("VarDecl");
    reveal_strlit("├── Type: ");
    reveal_strlit("├── Name: ");
    reveal_strlit("├── ID: ");
    reveal_strlit("└── IsGlobal: ");
    reveal_strlit("└── Value");
    reveal_strlit("Branch");
    reveal_strlit("ElseIf");
    reveal_strlit("├── Condition");
    reveal_strlit("└── Body");
    reveal_strlit("Assign");
    reveal_strlit("├── Target");
    reveal_strlit("IfStmt");
    reveal_strlit("└── Else");
    reveal_strlit("Return");
    reveal_strlit("Int");
    reveal_strlit("CharPtr");
    reveal_strlit("Void");
    reveal_strlit("Add");
    reveal_strlit("Sub");
    reveal_strlit("Mul");
    reveal_strlit("Div");
    reveal_strlit("Modulo");
    reveal_strlit("Less");
    reveal_strlit("Greater");
    reveal_strlit("And");
    reveal_strlit("Or");
    reveal_strlit("true");
    reveal_strlit("false");
    reveal_strlit("\n");
    assert forall|d: Option<DataType>| #[trigger] one_line(opt_type_debug(d)) by {
        if let Some(x) = d {
            lemma_concat_one_line("Some("@, data_type_debug(x));
            lemma_concat_one_line("Some("@ + data_type_debug(x), ")"@);
        }
    }
}

proof fn lemma_id_debug_one_line(id: Option<usize>)
    ensures
        one_line(id_debug(id)),
{
    lemma_tree_literals();
    if let Some(v) = id {
        lemma_decimal_one_line(v as nat);
        lemma_concat_one_line("Some("@, nat_decimal(v as nat));
        lemma_concat_one_line("Some("@ + nat_decimal(v as nat), ")"@);
    }
}

/// One line under `p`: `p` and then `x`, which has no line break.
proof fn lemma_line_under(p: Seq<char>, x: Seq<char>)
    requires
        one_line(p),
        one_line(x),
    ensures
        lines_under(line(p + x), p),
{
    lemma_tree_literals();
    lemma_concat_one_line(p, x);
    let t = line(p + x);
    assert(t =~= (p + x).push('\n'));
    assert forall|m: int| 0 <= m < t.len() && (m == 0 || t[m - 1] == '\n') implies #[trigger] starts_at(t, m, p) by {
        if m > 0 {
            assert(t[m - 1] == (p + x)[m - 1]);
        }
        assert(t.subrange(0, p.len() as int) =~= p);
    }
}

proof fn lemma_under_concat(a: Seq<char>, b: Seq<char>, p: Seq<char>)
    requires
        lines_under(a, p),
        lines_under(b, p),
    ensures
        lines_under(a + b, p),
{
    let t = a + b;
    assert forall|m: int| 0 <= m < t.len() && (m == 0 || t[m - 1] == '\n') implies #[trigger] starts_at(t, m, p) by {
        if m < a.len() {
            if m > 0 {
                assert(t[m - 1] == a[m - 1]);
            }
            assert(starts_at(a, m, p));
            assert(t.subrange(m, m + p.len()) =~= a.subrange(m, m + p.len()));
        } else {
            let k = m - a.len();
            if k > 0 {
                assert(t[m - 1] == b[k - 1]);
            } else if m > 0 {
                assert(t[m - 1] == a[a.len() - 1]);
            }
            assert(starts_at(b, k, p));
            assert(t.subrange(m, m + p.len()) =~= b.subrange(k, k + p.len()));
        }
    }
    if b.len() > 0 {
        assert(t[t.len() - 1] == b[b.len() - 1]);
    } else if a.len() > 0 {
        assert(t[t.len() - 1] == a[a.len() - 1]);
    }
}

proof fn lemma_under_widen(t: Seq<char>, p: Seq<char>, q: Seq<char>)
    requires
        lines_under(t, p + q),
    ensures
        lines_under(t, p),
{
    assert forall|m: int| 0 <= m < t.len() && (m == 0 || t[m - 1] == '\n') implies #[trigger] starts_at(t, m, p) by {
        assert(starts_at(t, m, p + q));
        assert(t.subrange(m, m + p.len()) =~= t.subrange(m, m + (p + q).len()).subrange(0, p.len() as int));
        assert((p + q).subrange(0, p.len() as int) =~= p);
    }
}

#[verifier::rlimit(30)]
#[verifier::spinoff_prover]
proof fn lemma_expr_under(e: SpecExpr, prefix: Seq<char>, last: bool)
    requires
        one_line(prefix),
        plain_expr(e),
    ensures
        lines_under(expr_text(e, prefix, last), prefix),
    decreases e,
{
    lemma_tree_literals();
    let br = branch(last);
    match e {
        SpecExpr::Int32(v) => {
            lemma_int_decimal_one_line(v as int);
            lemma_concat_one_line(br, "Int32: "@);
            lemma_concat_one_line(br + "Int32: "@, int_decimal(v as int));
            assert(prefix + br + "Int32: "@ + int_decimal(v as int) =~= prefix + (br + "Int32: "@ + int_decimal(
                v as int,
            )));
            lemma_line_under(prefix, br + "Int32: "@ + int_decimal(v as int));
        },
        SpecExpr::Ident(i) => {
            lemma_id_debug_one_line(i.id);
            let x = br + "Ident: "@ + i.name + "("@ + id_debug(i.id) + ") - "@ + opt_type_debug(i.data_type);
            lemma_concat_one_line(br, "Ident: "@);
            lemma_concat_one_line(br + "Ident: "@, i.name);
            lemma_concat_one_line(br + "Ident: "@ + i.name, "("@);
            lemma_concat_one_line(br + "Ident: "@ + i.name + "("@, id_debug(i.id));
            lemma_concat_one_line(br + "Ident: "@ + i.name + "("@ + id_debug(i.id), ") - "@);
            lemma_concat_one_line(
                br + "Ident: "@ + i.name + "("@ + id_debug(i.id) + ") - "@,
                opt_type_debug(i.data_type),
            );
            assert(prefix + br + "Ident: "@ + i.name + "("@ + id_debug(i.id) + ") - "@ + opt_type_debug(
                i.data_type,
            ) =~= prefix + x);
            lemma_line_under(prefix, x);
        },
        SpecExpr::Empty => {
            lemma_concat_one_line(br, "Empty"@);
            assert(prefix + br + "Empty"@ =~= prefix + (br + "Empty"@));
            lemma_line_under(prefix, br + "Empty"@);
        },
        SpecExpr::Binary(l, op, r) => {
            let cp = prefix + indent(last);
            lemma_concat_one_line(prefix, indent(last));
            lemma_concat_one_line(br, "BinaryExpr: "@);
            lemma_concat_one_line(br + "BinaryExpr: "@, op_debug(op));
            assert(prefix + br + "BinaryExpr: "@ + op_debug(op) =~= prefix + (br + "BinaryExpr: "@ + op_debug(op)));
            lemma_line_under(prefix, br + "BinaryExpr: "@ + op_debug(op));
            lemma_expr_under(*l, cp, false);
            lemma_expr_under(*r, cp, true);
            lemma_under_widen(expr_text(*l, cp, false), prefix, indent(last));
            lemma_under_widen(expr_text(*r, cp, true), prefix, indent(last));
            lemma_under_concat(line(prefix + br + "BinaryExpr: "@ + op_debug(op)), expr_text(*l, cp, false), prefix);
            lemma_under_concat(
                line(prefix + br + "BinaryExpr: "@ + op_debug(op)) + expr_text(*l, cp, false),
                expr_text(*r, cp, true),
                prefix,
            );
        },
        _ => {},
    }
}

/// A line under `p` of the form `p`, then `a`, then `b`.
proof fn lemma_line2_under(p: Seq<char>, a: Seq<char>, b: Seq<char>)
    requires
        one_line(p),
        one_line(a),
        one_line(b),
    ensures
        lines_under(line(p + a + b), p),
{
    lemma_concat_one_line(a, b);
    assert(p + a + b =~= p + (a + b));
    lemma_line_under(p, a + b);
}

#[verifier::rlimit(30)]
#[verifier::spinoff_prover]
proof fn lemma_var_under(v: SpecVar, prefix: Seq<char>, last: bool)
    requires
        one_line(prefix),
        one_line(v.name),
        plain_expr(v.value),
    ensures
        lines_under(var_text(v, prefix, last), prefix),
{
    lemma_tree_literals();
    lemma_id_debug_one_line(v.id);
    let cp = prefix + indent(last);
    lemma_concat_one_line(prefix, indent(last));
    lemma_concat_one_line(cp, "    "@);
    let l1 = line(prefix + branch(last) + "VarDecl"@);
    let l2 = line(cp + "├── Type: "@ + data_type_debug(v.data_type));
    let l3 = line(cp + "├── Name: "@ + v.name);
    let l4 = line(cp + "├── ID: "@ + id_debug(v.id));
    let l5 = line(cp + "└── IsGlobal: "@ + bool_text(v.is_global));
    let l6 = line(cp + "└── Value"@);
    let ex = expr_text(v.value, cp + "    "@, true);
    lemma_line2_under(prefix, branch(last), "VarDecl"@);
    lemma_line2_under(cp, "├── Type: "@, data_type_debug(v.data_type));
    lemma_line2_under(cp, "├── Name: "@, v.name);
    lemma_line2_under(cp, "├── ID: "@, id_debug(v.id));
    lemma_line2_under(cp, "└── IsGlobal: "@, bool_text(v.is_global));
    lemma_line_under(cp, "└── Value"@);
    lemma_expr_under(v.value, cp + "    "@, true);
    lemma_under_widen(ex, cp, "    "@);
    lemma_under_concat(l2, l3, cp);
    lemma_under_concat(l2 + l3, l4, cp);
    lemma_under_concat(l2 + l3 + l4, l5, cp);
    lemma_under_concat(l2 + l3 + l4 + l5, l6, cp);
    lemma_under_concat(l2 + l3 + l4 + l5 + l6, ex, cp);
    lemma_under_widen(l2 + l3 + l4 + l5 + l6 + ex, prefix, indent(last));
    lemma_under_concat(l1, l2 + l3 + l4 + l5 + l6 + ex, prefix);
    assert(var_text(v, prefix, last) =~= l1 + (l2 + l3 + l4 + l5 + l6 + ex));
}

#[verifier::rlimit(30)]
#[verifier::spinoff_prover]
proof fn lemma_assign_under(a: SpecAssign, prefix: Seq<char>, last: bool)
    requires
        one_line(prefix),
        plain_expr(a.target),
        plain_expr(a.value),
    ensures
        lines_under(assign_text(a, prefix, last), prefix),
{
    lemma_tree_literals();
    let cp = prefix + indent(last);
    lemma_concat_one_line(prefix, indent(last));
    lemma_concat_one_line(cp, "│   "@);
    lemma_concat_one_line(cp, "    "@);
    let l1 = line(prefix + branch(last) + "Assign"@);
    let l2 = line(cp + "├── Target"@);
    let e1 = expr_text(a.target, cp + "│   "@, true);
    let l3 = line(cp + "└── Value"@);
    let e2 = expr_text(a.value, cp + "    "@, true);
    lemma_line2_under(prefix, branch(last), "Assign"@);
    lemma_line_under(cp, "├── Target"@);
    lemma_line_under(cp, "└── Value"@);
    lemma_expr_under(a.target, cp + "│   "@, true);
    lemma_expr_under(a.value, cp + "    "@, true);
    lemma_under_widen(e1, cp, "│   "@);
    lemma_under_widen(e2, cp, "    "@);
    lemma_under_concat(l2, e1, cp);
    lemma_under_concat(l2 + e1, l3, cp);
    lemma_under_concat(l2 + e1 + l3, e2, cp);
    lemma_under_widen(l2 + e1 + l3 + e2, prefix, indent(last));
    lemma_under_concat(l1, l2 + e1 + l3 + e2, prefix);
    assert(assign_text(a, prefix, last) =~= l1 + (l2 + e1 + l3 + e2));
}

#[verifier::rlimit(30)]
#[verifier::spinoff_prover]
proof fn lemma_stmt_under(st: SpecStmt, prefix: Seq<char>, last: bool)
    requires
        one_line(prefix),
        plain_stmt(st),
    ensures
        lines_under(stmt_text(st, prefix, last), prefix),
    decreases st,
{
    lemma_tree_literals();
    match st {
        SpecStmt::Return(e) => {
            let cp = prefix + indent(last);
            lemma_concat_one_line(prefix, indent(last));
            lemma_line2_under(prefix, branch(last), "Return"@);
            lemma_expr_under(e, cp, true);
            lemma_under_widen(expr_text(e, cp, true), prefix, indent(last));
            lemma_under_concat(line(prefix + branch(last) + "Return"@), expr_text(e, cp, true), prefix);
        },
        SpecStmt::Var(v) => lemma_var_under(v, prefix, last),
        SpecStmt::Assign(a) => lemma_assign_under(a, prefix, last),
        SpecStmt::If(i) => lemma_if_under(i, prefix, last),
    }
}

proof fn lemma_stmts_under(ss: Seq<SpecStmt>, prefix: Seq<char>, n: int)
    requires
        one_line(prefix),
        plain_stmts(ss),
    ensures
        lines_under(stmts_text(ss, prefix, n), prefix),
    decreases ss,
{
    if ss.len() > 0 {
        lemma_stmts_under(ss.drop_last(), prefix, n);
        lemma_stmt_under(ss.last(), prefix, ss.len() - 1 == n - 1);
        lemma_under_concat(
            stmts_text(ss.drop_last(), prefix, n),
            stmt_text(ss.last(), prefix, ss.len() - 1 == n - 1),
            prefix,
        );
    }
}

#[verifier::rlimit(30)]
#[verifier::spinoff_prover]
proof fn lemma_branch_under(b: SpecIfBranch, cp: Seq<char>, j: int, is_last: bool)
    requires
        one_line(cp),
        plain_expr(b.cond_expr),
        plain_stmts(b.body.stmts),
    ensures
        lines_under(branch_text(b, cp, j, is_last), cp),
    decreases b,
{
    lemma_tree_literals();
    let bp = cp + indent(is_last);
    lemma_concat_one_line(cp, indent(is_last));
    lemma_concat_one_line(bp, "│   "@);
    lemma_concat_one_line(bp, "    "@);
    let name = if j == 0 { "Branch"@ } else { "ElseIf"@ };
    let l1 = line(cp + branch(is_last) + name);
    let l2 = line(bp + "├── Condition"@);
    let e = expr_text(b.cond_expr, bp + "│   "@, true);
    let l3 = line(bp + "└── Body"@);
    let body = stmts_text(b.body.stmts, bp + "    "@, b.body.stmts.len() as int);
    lemma_line2_under(cp, branch(is_last), name);
    lemma_line_under(bp, "├── Condition"@);
    lemma_line_under(bp, "└── Body"@);
    lemma_expr_under(b.cond_expr, bp + "│   "@, true);
    lemma_under_widen(e, bp, "│   "@);
    lemma_stmts_under(b.body.stmts, bp + "    "@, b.body.stmts.len() as int);
    lemma_under_widen(body, bp, "    "@);
    lemma_under_concat(l2, e, bp);
    lemma_under_concat(l2 + e, l3, bp);
    lemma_under_concat(l2 + e + l3, body, bp);
    lemma_under_widen(l2 + e + l3 + body, cp, indent(is_last));
    lemma_under_concat(l1, l2 + e + l3 + body, cp);
    assert(branch_text(b, cp, j, is_last) =~= l1 + (l2 + e + l3 + body));
}

proof fn lemma_branches_under(bs: Seq<SpecIfBranch>, cp: Seq<char>, n: int, has_else: bool)
    requires
        one_line(cp),
        plain_branches(bs),
    ensures
        lines_under(branches_text(bs, cp, n, has_else), cp),
    decreases bs,
{
    if bs.len() > 0 {
        let j = bs.len() - 1;
        lemma_branches_under(bs.drop_last(), cp, n, has_else);
        lemma_branch_under(bs.last(), cp, j, j == n - 1 && !has_else);
        lemma_under_concat(
            branches_text(bs.drop_last(), cp, n, has_else),
            branch_text(bs.last(), cp, j, j == n - 1 && !has_else),
            cp,
        );
    }
}

#[verifier::rlimit(30)]
#[verifier::spinoff_prover]
proof fn lemma_if_under(i: SpecIf, prefix: Seq<char>, last: bool)
    requires
        one_line(prefix),
        plain_branches(i.branches),
        i.else_stmt matches Some(b) ==> plain_stmts(b.stmts),
    ensures
        lines_under(if_text(i, prefix, last), prefix),
    decreases i,
{
    lemma_tree_literals();
    let cp = prefix + indent(last);
    lemma_concat_one_line(prefix, indent(last));
    let l1 = line(prefix + branch(last) + "IfStmt"@);
    let bt = branches_text(i.branches, cp, i.branches.len() as int, i.else_stmt is Some);
    lemma_line2_under(prefix, branch(last), "IfStmt"@);
    lemma_branches_under(i.branches, cp, i.branches.len() as int, i.else_stmt is Some);
    let tail = match i.else_stmt {
        Some(eb) => line(cp + "└── Else"@) + line(cp + "    "@ + "└── Body"@) + stmts_text(
            eb.stmts,
            cp + "    "@ + "    "@,
            eb.stmts.len() as int,
        ),
        None => Seq::empty(),
    };
    if let Some(eb) = i.else_stmt {
        lemma_concat_one_line(cp, "    "@);
        lemma_concat_one_line(cp + "    "@, "    "@);
        lemma_line_under(cp, "└── Else"@);
        lemma_line2_under(cp, "    "@, "└── Body"@);
        let body = stmts_text(eb.stmts, cp + "    "@ + "    "@, eb.stmts.len() as int);
        lemma_stmts_under(eb.stmts, cp + "    "@ + "    "@, eb.stmts.len() as int);
        lemma_under_widen(body, cp + "    "@, "    "@);
        lemma_under_widen(body, cp, "    "@);
        lemma_under_concat(line(cp + "└── Else"@), line(cp + "    "@ + "└── Body"@), cp);
        lemma_under_concat(line(cp + "└── Else"@) + line(cp + "    "@ + "└── Body"@), body, cp);
    }
    lemma_under_concat(bt, tail, cp);
    lemma_under_widen(bt + tail, prefix, indent(last));
    lemma_under_concat(l1, bt + tail, prefix);
    assert(if_text(i, prefix, last) =~= l1 + (bt + tail));
}

/// The name a statement's drawing gives it on its first line.
pub open spec fn stmt_name(s: SpecStmt) -> Seq<char> {
    match s {
        SpecStmt::Return(_) => "Return"@,
        SpecStmt::Var(_) => "VarDecl"@,
        SpecStmt::Assign(_) => "Assign"@,
        SpecStmt::If(_) => "IfStmt"@,
    }
}

/// The drawing of a statement under `prefix`: its first line is the prefix,
/// the branch (`└── ` for the last child, `├── ` otherwise) and the kind of
/// statement. When the statement holds no string literal and its names no
/// line break (a string is drawn as `{:?}` writes it), the drawing is made of
/// whole lines, each beginning with the prefix.
pub proof fn lemma_stmt_drawing(st: SpecStmt, prefix: Seq<char>, last: bool)
    ensures
        ({
            let first = line(prefix + branch(last) + stmt_name(st));
            let t = stmt_text(st, prefix, last);
            &&& first.len() <= t.len()
            &&& t.subrange(0, first.len() as int) == first
        }),
        one_line(prefix) && plain_stmt(st) ==> lines_under(stmt_text(st, prefix, last), prefix),
{
    let first = line(prefix + branch(last) + stmt_name(st));
    let t = stmt_text(st, prefix, last);
    assert(t.subrange(0, first.len() as int) =~= first);
    if one_line(prefix) && plain_stmt(st) {
        lemma_stmt_under(st, prefix, last);
    }
}


/// Appends `a`, `b`, `c`, `d` and a newline.
fn put_line(out: &mut String, a: &str, b: &str, c: &str, d: &str)
    ensures
        final(out)@ == old(out)@ + line(a@ + b@ + c@ + d@),
{
    out.append(a);
    out.append(b);
    out.append(c);
    out.append(d);
    out.append("\n");
    assert(out@ =~= old(out)@ + line(a@ + b@ + c@ + d@));
}

fn branch_str(last: bool) -> (r: &'static str)
    ensures
        r@ == branch(last),
{
    if last {
        "└── "
    } else {
        "├── "
    }
}

fn indent_str(last: bool) -> (r: &'static str)
    ensures
        r@ == indent(last),
{
    if last {
        "    "
    } else {
        "│   "
    }
}

/// `a` followed by `b`.
fn join(a: &str, b: &str) -> (r: String)
    ensures
        r@ == a@ + b@,
{
    let mut s = String::new();
    s.append(a);
    s.append(b);
    assert(s@ =~= a@ + b@);
    s
}

fn ident_line(out: &mut String, e: &IdentExpr, prefix: &str, last: bool)
    ensures
        final(out)@ == old(out)@ + line(
            prefix@ + branch(last) + "Ident: "@ + e.name@ + "("@ + id_debug(e.id) + ") - "@
                + opt_type_debug(e.data_type),
        ),
{
    let mut rest = String::new();
    rest.append("(");
    push_id_debug(&mut rest, e.id);
    rest.append(") - ");
    match e.data_type {
        Some(d) => {
            rest.append("Some(");
            rest.append(data_type_name(d));
            rest.append(")");
        },
        None => {
            rest.append("None");
        },
    }
    assert(rest@ =~= "("@ + id_debug(e.id) + ") - "@ + opt_type_debug(e.data_type));
    let mut head = String::new();
    head.append(prefix);
    head.append(branch_str(last));
    head.append("Ident: ");
    put_line(out, head.as_str(), e.name.as_str(), rest.as_str(), "");
    proof {
        reveal_strlit("");
    }
    assert(out@ =~= old(out)@ + line(
        prefix@ + branch(last) + "Ident: "@ + e.name@ + "("@ + id_debug(e.id) + ") - "@
            + opt_type_debug(e.data_type),
    ));
}

#[verifier::rlimit(30)]
#[verifier::spinoff_prover]
fn fmt_expr(out: &mut String, expr: &Expr, prefix: &str, last: bool)
    ensures
        final(out)@ == old(out)@ + expr_text(expr@, prefix@, last),
    decreases expr,
{
    proof {
        reveal_strlit("");
    }
    let br = branch_str(last);
    match expr {
        Expr::Int32(value) => {
            put_line(out, prefix, br, "Int32: ", i32_to_string(*value).as_str());
        },
        Expr::String(value) => {
            put_line(out, prefix, br, "String: ", debug_str(value.as_str()).as_str());
        },
        Expr::Ident(e) => {
            ident_line(out, e, prefix, last);
        },
        Expr::Empty => {
            put_line(out, prefix, br, "Empty", "");
            assert(out@ =~= old(out)@ + expr_text(expr@, prefix@, last));
        },
        Expr::BinaryExpr(binary) => {
            put_line(out, prefix, br, "BinaryExpr: ", op_name(binary.op));
            let child_prefix = join(prefix, indent_str(last));
            fmt_expr(out, &binary.left, child_prefix.as_str(), false);
            fmt_expr(out, &binary.right, child_prefix.as_str(), true);
            assert(out@ =~= old(out)@ + expr_text(expr@, prefix@, last));
        },
    }
}

fn data_type_name(dt: DataType) -> (r: &'static str)
    ensures
        r@ == data_type_debug(dt),
{
    match dt {
        DataType::Int => "Int",
        DataType::CharPtr => "CharPtr",
        DataType::Void => "Void",
    }
}

fn op_name(op: BinaryOp) -> (r: &'static str)
    ensures
        r@ == op_debug(op),
{
    match op {
        BinaryOp::Add => "Add",
        BinaryOp::Sub => "Sub",
        BinaryOp::Mul => "Mul",
        BinaryOp::Div => "Div",
        BinaryOp::Modulo => "Modulo",
        BinaryOp::Less => "Less",
        BinaryOp::Greater => "Greater",
        BinaryOp::And => "And",
        BinaryOp::Or => "Or",
    }
}

fn push_id_debug(out: &mut String, id: Option<usize>)
    ensures
        final(out)@ == old(out)@ + id_debug(id),
{
    match id {
        Some(v) => {
            out.append("Some(");
            push_decimal(out, v as u64);
            out.append(")");
        },
        None => {
            out.append("None");
        },
    }
    assert(out@ =~= old(out)@ + id_debug(id));
}

#[verifier::rlimit(30)]
#[verifier::spinoff_prover]
fn fmt_var(out: &mut String, var: &VarStmt, prefix: &str, last: bool)
    ensures
        final(out)@ == old(out)@ + var_text(var@, prefix@, last),
{
    proof {
        reveal_strlit("");
    }
    let cp = join(prefix, indent_str(last));
    let c = cp.as_str();
    put_line(out, prefix, branch_str(last), "VarDecl", "");
    put_line(out, c, "├── Type: ", data_type_name(var.data_type), "");
    put_line(out, c, "├── Name: ", var.name.as_str(), "");
    let mut id_text = String::new();
    push_id_debug(&mut id_text, var.id);
    assert(id_text@ =~= id_debug(var.id));
    put_line(out, c, "├── ID: ", id_text.as_str(), "");
    put_line(out, c, "└── IsGlobal: ", if var.is_global { "true" } else { "false" }, "");
    put_line(out, c, "└── Value", "", "");
    let ep = join(c, "    ");
    fmt_expr(out, &var.value, ep.as_str(), true);
    assert(out@ =~= old(out)@ + var_text(var@, prefix@, last));
}

fn fmt_stmts(out: &mut String, stmts: &Vec<Stmt>, prefix: &str)
    ensures
        final(out)@ == old(out)@ + stmts_text(stmts_view(stmts@), prefix@, stmts@.len() as int),
    decreases stmts,
{
    let ghost sv = stmts_view(stmts@);
    let ghost n = stmts@.len() as int;
    proof {
        lemma_stmts_view(stmts@);
        assert(sv.take(0) =~= Seq::<SpecStmt>::empty());
    }
    let len = stmts.len();
    let mut i: usize = 0;
    while i < len
        invariant
            len == stmts@.len(),
            sv == stmts_view(stmts@),
            n == len,
            sv.len() == len,
            forall|k: int| 0 <= k < len ==> #[trigger] sv[k] == stmt_view(stmts@[k]),
            i <= len,
            out@ == old(out)@ + stmts_text(sv.take(i as int), prefix@, n),
        decreases len - i,
    {
        assert(sv.take(i + 1).drop_last() =~= sv.take(i as int));
        assert(sv.take(i + 1).last() == stmt_view(stmts@[i as int]));
        proof {
            assert(decreases_to!(stmts => stmts@));
            assert(decreases_to!(stmts@ => stmts@[i as int]));
        }
        fmt_stmt(out, &stmts[i], prefix, i == len - 1);
        assert(out@ =~= old(out)@ + stmts_text(sv.take(i + 1), prefix@, n));
        i = i + 1;
    }
    assert(sv.take(len as int) =~= sv);
}

fn fmt_branches(out: &mut String, bs: &Vec<IfBranch>, cp: &str, has_else: bool)
    ensures
        final(out)@ == old(out)@ + branches_text(branches_view(bs@), cp@, bs@.len() as int, has_else),
    decreases bs,
{
    proof {
        reveal_strlit("");
    }
    let ghost bv = branches_view(bs@);
    let ghost n = bs@.len() as int;
    proof {
        lemma_branches_view(bs@);
        assert(bv.take(0) =~= Seq::<SpecIfBranch>::empty());
    }
    let len = bs.len();
    let mut i: usize = 0;
    while i < len
        invariant
            len == bs@.len(),
            bv == branches_view(bs@),
            n == len,
            bv.len() == len,
            forall|k: int|
                0 <= k < len ==> #[trigger] bv[k] == (SpecIfBranch {
                    cond_expr: expr_view(bs@[k].cond_expr),
                    body: block_view(bs@[k].body),
                }),
            i <= len,
            out@ == old(out)@ + branches_text(bv.take(i as int), cp@, n, has_else),
        decreases len - i,
    {
        assert(bv.take(i + 1).drop_last() =~= bv.take(i as int));
        let b = &bs[i];
        let is_last = i == len - 1 && !has_else;
        proof {
            assert(decreases_to!(bs => bs@));
            assert(decreases_to!(bs@ => bs@[i as int]));
        }
        let ghost o = out@;
        fmt_branch(out, b, cp, i == 0, is_last);
        assert(out@ == o + branch_text(
            SpecIfBranch { cond_expr: b.cond_expr@, body: b.body@ },
            cp@,
            i as int,
            is_last,
        ));
        assert(bv.take(i + 1).last() == bv[i as int]);
        assert(out@ =~= old(out)@ + branches_text(bv.take(i + 1), cp@, n, has_else));
        i = i + 1;
    }
    assert(bv.take(len as int) =~= bv);
}

#[verifier::rlimit(30)]
#[verifier::spinoff_prover]
fn fmt_branch(out: &mut String, b: &IfBranch, cp: &str, first: bool, is_last: bool)
    ensures
        forall|j: int|
            (j == 0) == first ==> final(out)@ == old(out)@ + branch_text(
                SpecIfBranch { cond_expr: b.cond_expr@, body: b.body@ },
                cp@,
                j,
                is_last,
            ),
    decreases b,
{
    proof {
        reveal_strlit("");
    }
    put_line(out, cp, branch_str(is_last), if first { "Branch" } else { "ElseIf" }, "");
    let bp = join(cp, indent_str(is_last));
    put_line(out, bp.as_str(), "├── Condition", "", "");
    let condp = join(bp.as_str(), "│   ");
    fmt_expr(out, &b.cond_expr, condp.as_str(), true);
    put_line(out, bp.as_str(), "└── Body", "", "");
    let bodyp = join(bp.as_str(), "    ");
    proof {
        assert(decreases_to!(b => b.body));
    }
    fmt_stmts(out, &b.body.stmts, bodyp.as_str());
    proof {
        lemma_stmts_view(b.body.stmts@);
    }
    assert forall|j: int| (j == 0) == first implies out@ == old(out)@ + branch_text(
        SpecIfBranch { cond_expr: b.cond_expr@, body: b.body@ },
        cp@,
        j,
        is_last,
    ) by {
        assert(out@ =~= old(out)@ + branch_text(
            SpecIfBranch { cond_expr: b.cond_expr@, body: b.body@ },
            cp@,
            j,
            is_last,
        ));
    }
}

#[verifier::rlimit(30)]
#[verifier::spinoff_prover]
fn fmt_assign(out: &mut String, assign: &AssignStmt, prefix: &str, last: bool)
    ensures
        final(out)@ == old(out)@ + assign_text(assign@, prefix@, last),
{
    proof {
        reveal_strlit("");
    }
    let cp = join(prefix, indent_str(last));
    let c = cp.as_str();
    put_line(out, prefix, branch_str(last), "Assign", "");
    put_line(out, c, "├── Target", "", "");
    let tp = join(c, "│   ");
    fmt_expr(out, &assign.target, tp.as_str(), true);
    put_line(out, c, "└── Value", "", "");
    let vp = join(c, "    ");
    fmt_expr(out, &assign.value, vp.as_str(), true);
    assert(out@ =~= old(out)@ + assign_text(assign@, prefix@, last));
}

#[verifier::rlimit(40)]
#[verifier::spinoff_prover]
fn fmt_if(out: &mut String, if_stmt: &IfStmt, prefix: &str, last: bool)
    ensures
        final(out)@ == old(out)@ + if_text(if_view(*if_stmt), prefix@, last),
    decreases if_stmt,
{
    proof {
        reveal_strlit("");
        lemma_branches_view(if_stmt.branches@);
    }
    let cp = join(prefix, indent_str(last));
    let c = cp.as_str();
    put_line(out, prefix, branch_str(last), "IfStmt", "");
    proof {
        assert(decreases_to!(if_stmt => if_stmt.branches));
    }
    fmt_branches(out, &if_stmt.branches, c, if_stmt.else_stmt.is_some());
    let ghost head = old(out)@ + line(prefix@ + branch(last) + "IfStmt"@) + branches_text(
        if_view(*if_stmt).branches,
        prefix@ + indent(last),
        if_stmt.branches@.len() as int,
        if_stmt.else_stmt is Some,
    );
    assert(out@ == head);
    if let Some(else_block) = &if_stmt.else_stmt {
        put_line(out, c, "└── Else", "", "");
        let ep = join(c, "    ");
        put_line(out, ep.as_str(), "└── Body", "", "");
        let bp = join(ep.as_str(), "    ");
        proof {
            assert(decreases_to!(if_stmt => if_stmt.else_stmt));
        }
        fmt_stmts(out, &else_block.stmts, bp.as_str());
        proof {
            lemma_stmts_view(else_block.stmts@);
        }
    }
    assert(out@ =~= old(out)@ + if_text(if_view(*if_stmt), prefix@, last));
}

#[verifier::rlimit(30)]
#[verifier::spinoff_prover]
fn fmt_stmt(out: &mut String, stmt: &Stmt, prefix: &str, last: bool)
    ensures
        final(out)@ == old(out)@ + stmt_text(stmt@, prefix@, last),
    decreases stmt,
{
    match stmt {
        Stmt::Return(expr) => {
            proof {
                reveal_strlit("");
            }
            put_line(out, prefix, branch_str(last), "Return", "");
            let cp = join(prefix, indent_str(last));
            fmt_expr(out, expr, cp.as_str(), true);
            assert(out@ =~= old(out)@ + stmt_text(stmt@, prefix@, last));
        },
        Stmt::Var(var) => {
            fmt_var(out, var, prefix, last);
        },
        Stmt::Assign(assign) => {
            fmt_assign(out, assign, prefix, last);
        },
        Stmt::IfStmt(if_stmt) => {
            fmt_if(out, if_stmt, prefix, last);
        },
    }
}

fn fmt_params(out: &mut String, params: &Vec<Param>, prefix: &str)
    ensures
        final(out)@ == old(out)@ + params_text(params@.map_values(|p: Param| p@), prefix@),
{
    proof {
        reveal_strlit("");
    }
    let ghost pv = params@.map_values(|p: Param| p@);
    if params.len() == 0 {
        put_line(out, prefix, "├── Parameters: []", "", "");
        assert(out@ =~= old(out)@ + params_text(pv, prefix@));
        return;
    }
    put_line(out, prefix, "├── Parameters", "", "");
    let ghost o1 = out@;
    let param_prefix = join(prefix, "│   ");
    let len = params.len();
    let mut i: usize = 0;
    assert(pv.take(0) =~= Seq::<SpecParam>::empty());
    while i < len
        invariant
            len == params@.len(),
            pv == params@.map_values(|p: Param| p@),
            param_prefix@ == prefix@ + "│   "@,
            i <= len,
            out@ == o1 + params_lines(pv.take(i as int), prefix@, len as int),
        decreases len - i,
    {
        proof {
            reveal_strlit("");
        }
        let p = &params[i];
        let mut tail = String::new();
        tail.append(" (");
        tail.append(data_type_name(p.p_type));
        tail.append(")");
        let mut head = String::new();
        head.append(param_prefix.as_str());
        head.append(branch_str(i == len - 1));
        head.append("Param: ");
        assert(tail@ =~= " ("@ + data_type_debug(p.p_type) + ")"@);
        assert(head@ =~= prefix@ + "│   "@ + branch(i == len - 1) + "Param: "@);
        put_line(out, head.as_str(), p.name.as_str(), tail.as_str(), "");
        assert(pv.take(i + 1).drop_last() =~= pv.take(i as int));
        assert(pv.take(i + 1).last() == p@);
        assert(out@ =~= o1 + params_lines(pv.take(i + 1), prefix@, len as int));
        i = i + 1;
    }
    assert(pv.take(len as int) =~= pv);
    assert(out@ =~= old(out)@ + params_text(pv, prefix@));
}

#[verifier::rlimit(30)]
#[verifier::spinoff_prover]
fn fmt_decl(out: &mut String, decl: &Decl, prefix: &str, last: bool)
    ensures
        final(out)@ == old(out)@ + decl_text(decl@, prefix@, last),
{
    proof {
        reveal_strlit("");
    }
    match decl {
        Decl::FuncDef(func) => {
            let cp = join(prefix, indent_str(last));
            let c = cp.as_str();
            put_line(out, prefix, branch_str(last), "FunctionDef", "");
            put_line(out, c, "├── ReturnType: ", data_type_name(func.return_type), "");
            put_line(out, c, "├── Name: ", func.name.as_str(), "");
            fmt_params(out, &func.params, c);
            put_line(out, c, "└── Body", "", "");
            let sp = join(c, "    ");
            fmt_stmts(out, &func.body.stmts, sp.as_str());
            proof {
                lemma_stmts_view(func.body.stmts@);
            }
            assert(out@ =~= old(out)@ + decl_text(decl@, prefix@, last));
        },
        Decl::Var(var) => {
            fmt_var(out, var, prefix, last);
        },
    }
}

impl Ast {
    /// The program drawn as a tree: one line per node, children indented
    /// under their parent.
    pub fn to_string(&self) -> (s: String)
        ensures
            s@ == ast_text(self@),
    {
        proof {
            reveal_strlit("");
        }
        let mut out = String::new();
        put_line(&mut out, "AST", "", "", "");
        let ghost o1 = out@;
        let ghost dv = self@;
        let len = self.decls.len();
        let mut i: usize = 0;
        assert(dv.take(0) =~= Seq::<SpecDecl>::empty());
        while i < len
            invariant
                len == self.decls@.len(),
                dv == self@,
                i <= len,
                out@ == o1 + decls_text(dv.take(i as int), len as int),
            decreases len - i,
        {
            proof {
                reveal_strlit("");
            }
            fmt_decl(&mut out, &self.decls[i], "", i == len - 1);
            assert(dv.take(i + 1).drop_last() =~= dv.take(i as int));
            assert(dv.take(i + 1).last() == self.decls@[i as int]@);
            assert(out@ =~= o1 + decls_text(dv.take(i + 1), len as int));
            i = i + 1;
        }
        assert(dv.take(len as int) =~= dv);
        assert(out@ =~= ast_text(self@));
        out
    }
}


/// The drawing names each operator by a name of its own: two different
/// operators are never drawn alike.
pub proof fn lemma_operator_names_distinct(o1: BinaryOp, o2: BinaryOp)
    ensures
        o1 != o2 ==> op_debug(o1) != op_debug(o2),
{
    reveal_strlit("Add");
    reveal_strlit("Sub");
    reveal_strlit("Mul");
    reveal_strlit("Div");
    reveal_strlit("Modulo");
    reveal_strlit("Less");
    reveal_strlit("Greater");
    reveal_strlit("And");
    reveal_strlit("Or");
    if o1 != o2 && op_debug(o1) == op_debug(o2) {
        let a = op_debug(o1);
        let b = op_debug(o2);
        assert(a.len() == b.len());
        assert(a[0] == b[0]);
        if a.len() > 1 {
            assert(a[1] == b[1]);
        }
        if a.len() > 2 {
            assert(a[2] == b[2]);
        }
    }
}

} // verus!
