use vstd::prelude::*;

use crate::ast::{
    AssignStmt, Ast, BinaryExpr, BinaryOp, Decl, Expr, FunctionDef, SpecAssign, SpecDecl,
    SpecExpr, SpecFunc, SpecStmt, SpecVar, Stmt, VarStmt,
};
use crate::text::{lemma_concat_one_line, lemma_decimal_one_line, lemma_int_decimal_one_line, one_line, i32_to_string, int_decimal, nat_decimal, push_decimal, text_eq};
use crate::types::DataType;

verus! {

broadcast use vstd::string::group_string_axioms;

/// Version counters of one stack slot: the version its value is loaded
/// under now, and the next one to hand out.
#[derive(Debug, Clone, Copy, PartialEq, Eq, Structural)]
pub struct Register {
    pub curr_c: usize,
    pub next_c: usize,
}

/// The inputs on which the generator has no answer.
#[derive(Debug, PartialEq, Eq)]
pub enum IrError {
    /// An `if` statement in a function body.
    IfStatement,
    /// A string literal in an expression.
    StringLiteral,
    /// A comparison or logical operator.
    UnsupportedOp(BinaryOp),
    /// A variable without an id (never resolved).
    MissingId(String),
    /// A variable whose slot was never allocated.
    MissingRegister(String),
    /// A variable without a data type (never resolved).
    MissingType(String),
    /// A counter that would pass `usize::MAX`.
    Overflow,
}

pub ghost enum SpecIrError {
    IfStatement,
    StringLiteral,
    UnsupportedOp(BinaryOp),
    MissingId(Seq<char>),
    MissingRegister(Seq<char>),
    MissingType(Seq<char>),
    Overflow,
}

impl View for IrError {
    type V = SpecIrError;

    open spec fn view(&self) -> SpecIrError {
        match self {
            IrError::IfStatement => SpecIrError::IfStatement,
            IrError::StringLiteral => SpecIrError::StringLiteral,
            IrError::UnsupportedOp(op) => SpecIrError::UnsupportedOp(*op),
            IrError::MissingId(s) => SpecIrError::MissingId(s@),
            IrError::MissingRegister(s) => SpecIrError::MissingRegister(s@),
            IrError::MissingType(s) => SpecIrError::MissingType(s@),
            IrError::Overflow => SpecIrError::Overflow,
        }
    }
}

// ---------------------------------------------------------------------------
// The model of code generation: the text written so far, the slots with
// their version counters (in the order they were allocated), and the counter
// of temporaries of the current function.
// ---------------------------------------------------------------------------
pub ghost struct IrState {
    pub out: Seq<char>,
    pub regs: Seq<(Seq<char>, Register)>,
    pub counter: int,
}

pub type IrRes<T> = Result<(IrState, T), (SpecIrError, IrState)>;

pub open spec fn ir_type(dt: DataType) -> Seq<char> {
    match dt {
        DataType::Int => "i32"@,
        DataType::CharPtr => "char*"@,
        DataType::Void => "void"@,
    }
}

pub open spec fn op_type(op: BinaryOp) -> Option<Seq<char>> {
    match op {
        BinaryOp::Add => Some("add"@),
        BinaryOp::Sub => Some("sub"@),
        BinaryOp::Mul => Some("mul"@),
        BinaryOp::Div => Some("sdiv"@),
        BinaryOp::Modulo => Some("srem"@),
        _ => None,
    }
}

/// Appends one line.
pub open spec fn emit(st: IrState, line: Seq<char>) -> IrState {
    IrState { out: st.out + line + "\n"@, ..st }
}

/// `%name_id`, the stack slot of a variable.
pub open spec fn alloca_name(name: Seq<char>, id: usize) -> Seq<char> {
    "%"@ + name + "_"@ + nat_decimal(id as nat)
}

/// Index of the slot called `k`, searching from the most recent, or -1.
pub open spec fn reg_index(regs: Seq<(Seq<char>, Register)>, k: Seq<char>) -> int
    decreases regs.len(),
{
    if regs.len() == 0 {
        -1
    } else if regs.last().0 == k {
        regs.len() - 1
    } else {
        reg_index(regs.drop_last(), k)
    }
}

/// A new slot starts at version 0 with 0 next; an existing one moves to its
/// next version. `None` where the next version would pass `usize::MAX`.
pub open spec fn update_reg(st: IrState, k: Seq<char>) -> Option<IrState> {
    let j = reg_index(st.regs, k);
    if j < 0 {
        Some(IrState { regs: st.regs.push((k, Register { curr_c: 0, next_c: 0 })), ..st })
    } else {
        let r = st.regs[j].1;
        if r.next_c == usize::MAX {
            None
        } else {
            Some(
                IrState {
                    regs: st.regs.update(j, (k, Register { curr_c: r.next_c, next_c: (r.next_c + 1) as usize })),
                    ..st
                },
            )
        }
    }
}

/// `%name_id_value_c`, the value of a variable at its current version.
pub open spec fn load_name_spec(st: IrState, name: Seq<char>, id: Option<usize>) -> Result<Seq<char>, SpecIrError> {
    match id {
        None => Err(SpecIrError::MissingId(name)),
        Some(id) => {
            let a = alloca_name(name, id);
            let j = reg_index(st.regs, a);
            if j < 0 {
                Err(SpecIrError::MissingRegister(a))
            } else {
                Ok(a + "_value_"@ + nat_decimal(st.regs[j].1.curr_c as nat))
            }
        },
    }
}

/// The type and the value (a constant or a register) of an expression,
/// with the instructions that compute it. `name` prefixes the temporaries.
pub open spec fn expr_ir(st: IrState, name: Seq<char>, e: SpecExpr) -> IrRes<(Seq<char>, Seq<char>)>
    decreases e,
{
    match e {
        SpecExpr::Int32(v) => Ok((st, ("i32"@, int_decimal(v as int)))),
        SpecExpr::Str(_) => Err((SpecIrError::StringLiteral, st)),
        SpecExpr::Ident(i) => match load_name_spec(st, i.name, i.id) {
            Err(x) => Err((x, st)),
            Ok(ln) => match i.data_type {
                None => Err((SpecIrError::MissingType(i.name), st)),
                Some(dt) => Ok((st, (ir_type(dt), ln))),
            },
        },
        SpecExpr::Binary(l, op, r) => match op_type(op) {
            None => Err((SpecIrError::UnsupportedOp(op), st)),
            Some(o) => match expr_ir(st, name, *l) {
                Err(x) => Err(x),
                Ok((st1, lhs)) => match expr_ir(st1, name, *r) {
                    Err(x) => Err(x),
                    Ok((st2, rhs)) => if st2.counter >= usize::MAX {
                        Err((SpecIrError::Overflow, st2))
                    } else {
                        let temp = name + "_"@ + o + "_"@ + nat_decimal(st2.counter as nat);
                        let st3 = IrState { counter: st2.counter + 1, ..st2 };
                        let line = "    "@ + temp + " = "@ + o + " "@ + lhs.0 + " "@ + lhs.1 + ", "@
                            + rhs.1;
                        Ok((emit(st3, line), (lhs.0, temp)))
                    },
                },
            },
        },
        SpecExpr::Empty => Ok((st, (""@, ""@))),
    }
}

/// A variable declaration: its slot, then, unless the value is empty, the
/// store of its value and a load under the slot's current version.
pub open spec fn var_ir(st: IrState, v: SpecVar) -> Result<IrState, (SpecIrError, IrState)> {
    match v.id {
        None => Err((SpecIrError::MissingId(v.name), st)),
        Some(id) => {
            let a = alloca_name(v.name, id);
            match update_reg(st, a) {
                None => Err((SpecIrError::Overflow, st)),
                Some(st1) => {
                    let st2 = emit(st1, "    "@ + a + " = alloca "@ + ir_type(v.data_type));
                    match expr_ir(st2, a, v.value) {
                        Err(x) => Err(x),
                        Ok((st3, (dt, val))) => if dt.len() == 0 && val.len() == 0 {
                            Ok(st3)
                        } else {
                            match load_name_spec(st3, v.name, v.id) {
                                Err(x) => Err((x, st3)),
                                Ok(ln) => {
                                    let st4 = emit(st3, "    store "@ + dt + " "@ + val + ", ptr "@ + a);
                                    let st5 = emit(st4, "    "@ + ln + " = load "@ + dt + ", ptr "@ + a);
                                    match update_reg(st5, a) {
                                        None => Err((SpecIrError::Overflow, st5)),
                                        Some(st6) => Ok(st6),
                                    }
                                },
                            }
                        },
                    }
                },
            }
        },
    }
}

/// An assignment to a variable: the value, a new version of the slot, then
/// the store and a load under that version. Other targets are passed over.
pub open spec fn assign_ir(st: IrState, a: SpecAssign) -> Result<IrState, (SpecIrError, IrState)> {
    match a.target {
        SpecExpr::Ident(i) => match i.id {
            None => Err((SpecIrError::MissingId(i.name), st)),
            Some(id) => {
                let an = alloca_name(i.name, id);
                match expr_ir(st, an, a.value) {
                    Err(x) => Err(x),
                    Ok((st1, (dt, val))) => match update_reg(st1, an) {
                        None => Err((SpecIrError::Overflow, st1)),
                        Some(st2) => match load_name_spec(st2, i.name, i.id) {
                            Err(x) => Err((x, st2)),
                            Ok(ln) => {
                                let st3 = emit(st2, "    store "@ + dt + " "@ + val + ", ptr "@ + an);
                                Ok(emit(st3, "    "@ + ln + " = load "@ + dt + ", ptr "@ + an))
                            },
                        },
                    },
                }
            },
        },
        _ => Ok(st),
    }
}

/// One statement of a function body. The temporaries of a returned value
/// are named after `%ret`, so that each is a local value of the function.
pub open spec fn stmt_ir(st: IrState, s: SpecStmt) -> Result<IrState, (SpecIrError, IrState)> {
    match s {
        SpecStmt::Return(e) => match expr_ir(st, "%ret"@, e) {
            Err(x) => Err(x),
            Ok((st1, (dt, val))) => if dt.len() == 0 && val.len() == 0 {
                Ok(emit(st1, "    ret void"@))
            } else {
                Ok(emit(st1, "    ret "@ + dt + " "@ + val))
            },
        },
        SpecStmt::Var(v) => var_ir(st, v),
        SpecStmt::Assign(a) => assign_ir(st, a),
        SpecStmt::If(_) => Err((SpecIrError::IfStatement, st)),
    }
}

/// The statements of a function body from index `i` on.
pub open spec fn stmts_ir(st: IrState, stmts: Seq<SpecStmt>, i: int) -> Result<IrState, (SpecIrError, IrState)>
    decreases stmts.len() - i,
{
    if i < 0 || i >= stmts.len() {
        Ok(st)
    } else {
        match stmt_ir(st, stmts[i]) {
            Err(x) => Err(x),
            Ok(st1) => stmts_ir(st1, stmts, i + 1),
        }
    }
}

/// A function: its header and entry label, its body, and the closing brace.
/// Temporaries are numbered from 0 in each function.
pub open spec fn fn_ir(st: IrState, f: SpecFunc) -> Result<IrState, (SpecIrError, IrState)> {
    let st1 = IrState { counter: 0, ..st };
    let st2 = emit(st1, "define "@ + ir_type(f.return_type) + " @"@ + f.name + "() {"@);
    let st3 = emit(st2, "entry:"@);
    match stmts_ir(st3, f.body.stmts, 0) {
        Err(x) => Err(x),
        Ok(st4) => Ok(emit(st4, "}"@)),
    }
}

#[verifier::opaque]
pub open spec fn decl_ir(st: IrState, d: SpecDecl) -> Result<IrState, (SpecIrError, IrState)> {
    match d {
        SpecDecl::FuncDef(f) => fn_ir(st, f),
        SpecDecl::Var(v) => var_ir(st, v),
    }
}

/// The declarations from index `i` on, in order.
pub open spec fn decls_ir(st: IrState, decls: Seq<SpecDecl>, i: int) -> Result<IrState, (SpecIrError, IrState)>
    decreases decls.len() - i,
{
    if i < 0 || i >= decls.len() {
        Ok(st)
    } else {
        match decl_ir(st, decls[i]) {
            Err(x) => Err(x),
            Ok(st1) => decls_ir(st1, decls, i + 1),
        }
    }
}

/// `n` updates of the slot `k` in turn; `None` once one of them fails.
pub open spec fn update_n(st: IrState, k: Seq<char>, n: nat) -> Option<IrState>
    decreases n,
{
    if n == 0 {
        Some(st)
    } else {
        match update_n(st, k, (n - 1) as nat) {
            Some(s) => update_reg(s, k),
            None => None,
        }
    }
}

proof fn lemma_reg_index_update(regs: Seq<(Seq<char>, Register)>, k: Seq<char>, r: Register)
    requires
        reg_index(regs, k) >= 0,
    ensures
        reg_index(regs.update(reg_index(regs, k), (k, r)), k) == reg_index(regs, k),
        reg_index(regs, k) < regs.len(),
    decreases regs.len(),
{
    let j = reg_index(regs, k);
    let u = regs.update(j, (k, r));
    if regs.last().0 != k {
        lemma_reg_index_update(regs.drop_last(), k, r);
        assert(u.drop_last() =~= regs.drop_last().update(j, (k, r)));
        assert(u.last() == regs.last());
    }
}

proof fn lemma_reg_index_push(regs: Seq<(Seq<char>, Register)>, k: Seq<char>, r: Register)
    ensures
        reg_index(regs.push((k, r)), k) == regs.len(),
{
    assert(regs.push((k, r)).last() == (k, r));
}

/// The versions of a slot: after its first update (which makes it) it stands
/// at version 0 with 0 next; each update after that makes the next version
/// current and raises the next one by one. So after `n` updates it stands at
/// version `n - 2` (0 after one or two) with `n - 1` next.
pub proof fn lemma_register_versions(st: IrState, k: Seq<char>, n: nat)
    requires
        reg_index(st.regs, k) < 0,
        1 <= n <= usize::MAX,
    ensures
        update_n(st, k, n) is Some,
        ({
            let s = update_n(st, k, n).unwrap();
            let j = reg_index(s.regs, k);
            &&& 0 <= j < s.regs.len()
            &&& s.regs[j].1 == Register {
                curr_c: if n >= 2 { (n - 2) as usize } else { 0 },
                next_c: (n - 1) as usize,
            }
            &&& s.out == st.out
            &&& s.counter == st.counter
        }),
    decreases n,
{
    if n == 1 {
        assert(update_n(st, k, 0) == Some(st));
        lemma_reg_index_push(st.regs, k, Register { curr_c: 0, next_c: 0 });
    } else {
        lemma_register_versions(st, k, (n - 1) as nat);
        let s = update_n(st, k, (n - 1) as nat).unwrap();
        let j = reg_index(s.regs, k);
        let r = s.regs[j].1;
        lemma_reg_index_update(s.regs, k, Register { curr_c: r.next_c, next_c: (r.next_c + 1) as usize });
    }
}

/// The number of lines ended in a text.
pub open spec fn line_count(s: Seq<char>) -> nat
    decreases s.len(),
{
    if s.len() == 0 {
        0
    } else {
        line_count(s.drop_last()) + if s.last() == '\n' { 1nat } else { 0nat }
    }
}

/// The number of binary operators in an expression.
pub open spec fn op_count(e: SpecExpr) -> nat
    decreases e,
{
    match e {
        SpecExpr::Binary(l, _, r) => 1 + op_count(*l) + op_count(*r),
        _ => 0,
    }
}

/// Every variable named in the expression has a name without a line break.
pub open spec fn names_one_line(e: SpecExpr) -> bool
    decreases e,
{
    match e {
        SpecExpr::Ident(i) => one_line(i.name),
        SpecExpr::Binary(l, _, r) => names_one_line(*l) && names_one_line(*r),
        _ => true,
    }
}

proof fn lemma_line_count_add(a: Seq<char>, b: Seq<char>)
    ensures
        line_count(a + b) == line_count(a) + line_count(b),
    decreases b.len(),
{
    if b.len() > 0 {
        lemma_line_count_add(a, b.drop_last());
        assert((a + b).drop_last() =~= a + b.drop_last());
        assert((a + b).last() == b.last());
    } else {
        assert(a + b =~= a);
    }
}

proof fn lemma_one_line_count(s: Seq<char>)
    requires
        one_line(s),
    ensures
        line_count(s) == 0,
    decreases s.len(),
{
    if s.len() > 0 {
        assert(s.last() == s[s.len() - 1]);
        lemma_one_line_count(s.drop_last());
    }
}

proof fn lemma_literals_one_line()
    ensures
        one_line("    "@),
        one_line(" = "@),
        one_line(" "@),
        one_line(", "@),
        one_line("_"@),
        one_line("%"@),
        one_line("_value_"@),
        one_line("i32"@),
        one_line("char*"@),
        one_line("void"@),
        one_line("add"@),
        one_line("sub"@),
        one_line("mul"@),
        one_line("sdiv"@),
        one_line("srem"@),
        one_line("-"@),
        one_line(""@),
        "\n"@ == seq!['\n'],
{
    reveal_strlit("    ");
    reveal_strlit(" = ");
    reveal_strlit(" ");
    reveal_strlit(", ");
    reveal_strlit("_");
    reveal_strlit("%");
    reveal_strlit("_value_");
    reveal_strlit("i32");
    reveal_strlit("char*");
    reveal_strlit("void");
    reveal_strlit("add");
    reveal_strlit("sub");
    reveal_strlit("mul");
    reveal_strlit("sdiv");
    reveal_strlit("srem");
    reveal_strlit("-");
    reveal_strlit("");
    reveal_strlit("\n");
}

proof fn lemma_load_one_line(st: IrState, name: Seq<char>, id: Option<usize>)
    requires
        one_line(name),
    ensures
        load_name_spec(st, name, id) matches Ok(ln) ==> one_line(ln),
{
    lemma_literals_one_line();
    if let Some(id) = id {
        lemma_decimal_one_line(id as nat);
        let a = alloca_name(name, id);
        lemma_concat_one_line("%"@, name);
        lemma_concat_one_line("%"@ + name, "_"@);
        lemma_concat_one_line("%"@ + name + "_"@, nat_decimal(id as nat));
        let j = reg_index(st.regs, a);
        if j >= 0 {
            lemma_decimal_one_line(st.regs[j].1.curr_c as nat);
            lemma_concat_one_line(a, "_value_"@);
            lemma_concat_one_line(a + "_value_"@, nat_decimal(st.regs[j].1.curr_c as nat));
        }
    }
}

proof fn lemma_instr_one_line(name: Seq<char>, o: Seq<char>, n: nat, dt: Seq<char>, lv: Seq<char>, rv: Seq<char>)
    requires
        one_line(name),
        one_line(o),
        one_line(dt),
        one_line(lv),
        one_line(rv),
    ensures
        one_line(name + "_"@ + o + "_"@ + nat_decimal(n)),
        one_line("    "@ + (name + "_"@ + o + "_"@ + nat_decimal(n)) + " = "@ + o + " "@ + dt + " "@ + lv + ", "@ + rv),
{
    lemma_literals_one_line();
    lemma_decimal_one_line(n);
    let temp = name + "_"@ + o + "_"@ + nat_decimal(n);
    lemma_concat_one_line(name, "_"@);
    lemma_concat_one_line(name + "_"@, o);
    lemma_concat_one_line(name + "_"@ + o, "_"@);
    lemma_concat_one_line(name + "_"@ + o + "_"@, nat_decimal(n));
    lemma_concat_one_line("    "@, temp);
    lemma_concat_one_line("    "@ + temp, " = "@);
    lemma_concat_one_line("    "@ + temp + " = "@, o);
    lemma_concat_one_line("    "@ + temp + " = "@ + o, " "@);
    lemma_concat_one_line("    "@ + temp + " = "@ + o + " "@, dt);
    lemma_concat_one_line("    "@ + temp + " = "@ + o + " "@ + dt, " "@);
    lemma_concat_one_line("    "@ + temp + " = "@ + o + " "@ + dt + " "@, lv);
    lemma_concat_one_line("    "@ + temp + " = "@ + o + " "@ + dt + " "@ + lv, ", "@);
    lemma_concat_one_line("    "@ + temp + " = "@ + o + " "@ + dt + " "@ + lv + ", "@, rv);
}

proof fn lemma_three_parts(o0: Seq<char>, o1: Seq<char>, o2: Seq<char>, line: Seq<char>, n1: nat, n2: nat)
    requires
        one_line(line),
        o0.len() <= o1.len(),
        o1.take(o0.len() as int) == o0,
        line_count(o1.skip(o0.len() as int)) == n1,
        o1.len() <= o2.len(),
        o2.take(o1.len() as int) == o1,
        line_count(o2.skip(o1.len() as int)) == n2,
        "\n"@ == seq!['\n'],
    ensures
        ({
            let o3 = o2 + line + "\n"@;
            &&& o0.len() <= o3.len()
            &&& o3.take(o0.len() as int) == o0
            &&& line_count(o3.skip(o0.len() as int)) == n1 + n2 + 1
        }),
{
    let a1 = o1.skip(o0.len() as int);
    let a2 = o2.skip(o1.len() as int);
    let a3 = line + "\n"@;
    let o3 = o2 + line + "\n"@;
    assert(o1 =~= o0 + a1);
    assert(o2 =~= o1 + a2);
    assert(o3.skip(o0.len() as int) =~= a1 + a2 + a3);
    assert(o3.take(o0.len() as int) =~= o0);
    lemma_one_line_count(line);
    lemma_line_count_add(line, "\n"@);
    assert(line_count(seq!['\n']) == 1) by {
        let nl = seq!['\n'];
        assert(nl.drop_last() =~= Seq::<char>::empty());
        assert(line_count(Seq::<char>::empty()) == 0);
        assert(nl.last() == '\n');
    }
    lemma_line_count_add(a1, a2);
    lemma_line_count_add(a1 + a2, a3);
}

/// What an expression adds to the text: one line, and one step of the
/// temporary counter, for each binary operator in it; slots are untouched,
/// and what was written before stays. (Names without line breaks are
/// assumed, so that each instruction takes one line.)
pub proof fn lemma_expr_lines(st: IrState, name: Seq<char>, e: SpecExpr)
    requires
        one_line(name),
        names_one_line(e),
    ensures
        expr_ir(st, name, e) matches Ok((st2, (dt, v))) ==> {
            &&& st2.counter == st.counter + op_count(e)
            &&& st2.regs == st.regs
            &&& st.out.len() <= st2.out.len()
            &&& st2.out.take(st.out.len() as int) == st.out
            &&& line_count(st2.out.skip(st.out.len() as int)) == op_count(e)
            &&& one_line(dt)
            &&& one_line(v)
        },
    decreases e,
{
    lemma_literals_one_line();
    assert(st.out.skip(st.out.len() as int) =~= Seq::<char>::empty());
    assert(st.out.take(st.out.len() as int) =~= st.out);
    match e {
        SpecExpr::Int32(v) => {
            lemma_int_decimal_one_line(v as int);
        },
        SpecExpr::Ident(i) => {
            lemma_load_one_line(st, i.name, i.id);
        },
        SpecExpr::Binary(l, op, r) => {
            if let Some(o) = op_type(op) {
                lemma_expr_lines(st, name, *l);
                if let Ok((st1, lhs)) = expr_ir(st, name, *l) {
                    lemma_expr_lines(st1, name, *r);
                    if let Ok((st2, rhs)) = expr_ir(st1, name, *r) {
                        if st2.counter < usize::MAX {
                            lemma_instr_one_line(name, o, st2.counter as nat, lhs.0, lhs.1, rhs.1);
                            let temp = name + "_"@ + o + "_"@ + nat_decimal(st2.counter as nat);
                            let line = "    "@ + temp + " = "@ + o + " "@ + lhs.0 + " "@ + lhs.1 + ", "@
                                + rhs.1;
                            lemma_three_parts(st.out, st1.out, st2.out, line, op_count(*l), op_count(*r));
                        }
                    }
                }
            }
        },
        _ => {},
    }
}

/// No slot name occurs twice among the slots.
pub open spec fn regs_unique(regs: Seq<(Seq<char>, Register)>) -> bool {
    forall|a: int, b: int| 0 <= a < b < regs.len() ==> #[trigger] regs[a].0 != #[trigger] regs[b].0
}

proof fn lemma_reg_index_absent(regs: Seq<(Seq<char>, Register)>, k: Seq<char>)
    requires
        reg_index(regs, k) < 0,
    ensures
        forall|a: int| 0 <= a < regs.len() ==> #[trigger] regs[a].0 != k,
    decreases regs.len(),
{
    if regs.len() > 0 {
        lemma_reg_index_absent(regs.drop_last(), k);
        assert forall|a: int| 0 <= a < regs.len() implies #[trigger] regs[a].0 != k by {
            if a < regs.len() - 1 {
                assert(regs[a] == regs.drop_last()[a]);
            }
        }
    }
}

proof fn lemma_update_unique(st: IrState, k: Seq<char>)
    requires
        regs_unique(st.regs),
    ensures
        update_reg(st, k) matches Some(s2) ==> regs_unique(s2.regs),
{
    let j = reg_index(st.regs, k);
    if j < 0 {
        lemma_reg_index_absent(st.regs, k);
        let r2 = st.regs.push((k, Register { curr_c: 0, next_c: 0 }));
        assert forall|a: int, b: int| 0 <= a < b < r2.len() implies #[trigger] r2[a].0 != #[trigger] r2[b].0 by {
            assert(r2[a] == st.regs[a]);
            if b < st.regs.len() {
                assert(r2[b] == st.regs[b]);
            }
        }
    } else {
        let r = st.regs[j].1;
        lemma_reg_index_update(st.regs, k, Register { curr_c: r.next_c, next_c: (r.next_c + 1) as usize });
        lemma_reg_index_key(st.regs, k);
    }
}

proof fn lemma_reg_index_key(regs: Seq<(Seq<char>, Register)>, k: Seq<char>)
    requires
        reg_index(regs, k) >= 0,
    ensures
        reg_index(regs, k) < regs.len(),
        regs[reg_index(regs, k)].0 == k,
    decreases regs.len(),
{
    if regs.last().0 != k {
        lemma_reg_index_key(regs.drop_last(), k);
        assert(regs[reg_index(regs, k)] == regs.drop_last()[reg_index(regs, k)]);
    }
}

proof fn lemma_expr_keeps_regs(st: IrState, name: Seq<char>, e: SpecExpr)
    ensures
        expr_ir(st, name, e) matches Ok((s2, _)) ==> s2.regs == st.regs,
    decreases e,
{
    if let SpecExpr::Binary(l, op, r) = e {
        lemma_expr_keeps_regs(st, name, *l);
        if let Ok((s1, _)) = expr_ir(st, name, *l) {
            lemma_expr_keeps_regs(s1, name, *r);
        }
    }
}

proof fn lemma_stmt_unique(st: IrState, s: SpecStmt)
    requires
        regs_unique(st.regs),
    ensures
        stmt_ir(st, s) matches Ok(s2) ==> regs_unique(s2.regs),
{
    match s {
        SpecStmt::Return(e) => lemma_expr_keeps_regs(st, "%ret"@, e),
        SpecStmt::Var(v) => {
            if let Some(id) = v.id {
                let a = alloca_name(v.name, id);
                lemma_update_unique(st, a);
                if let Some(st1) = update_reg(st, a) {
                    let st2 = emit(st1, "    "@ + a + " = alloca "@ + ir_type(v.data_type));
                    lemma_expr_keeps_regs(st2, a, v.value);
                    if let Ok((st3, (dt, val))) = expr_ir(st2, a, v.value) {
                        if let Ok(ln) = load_name_spec(st3, v.name, v.id) {
                            let st4 = emit(st3, "    store "@ + dt + " "@ + val + ", ptr "@ + a);
                            let st5 = emit(st4, "    "@ + ln + " = load "@ + dt + ", ptr "@ + a);
                            lemma_update_unique(st5, a);
                        }
                    }
                }
            }
        },
        SpecStmt::Assign(a) => {
            if let SpecExpr::Ident(i) = a.target {
                if let Some(id) = i.id {
                    let an = alloca_name(i.name, id);
                    lemma_expr_keeps_regs(st, an, a.value);
                    if let Ok((st1, _)) = expr_ir(st, an, a.value) {
                        lemma_update_unique(st1, an);
                    }
                }
            }
        },
        SpecStmt::If(_) => {},
    }
}

proof fn lemma_stmts_unique(st: IrState, stmts: Seq<SpecStmt>, i: int)
    requires
        regs_unique(st.regs),
    ensures
        stmts_ir(st, stmts, i) matches Ok(s2) ==> regs_unique(s2.regs),
    decreases stmts.len() - i,
{
    if 0 <= i < stmts.len() {
        lemma_stmt_unique(st, stmts[i]);
        if let Ok(st1) = stmt_ir(st, stmts[i]) {
            lemma_stmts_unique(st1, stmts, i + 1);
        }
    }
}

/// A slot is made once: however a program is written, no two slots of the
/// generator bear the same name. A new name is added only when no slot has
/// it; an existing slot only moves to a new version.
pub proof fn lemma_slots_unique(st: IrState, decls: Seq<SpecDecl>, i: int)
    requires
        regs_unique(st.regs),
    ensures
        decls_ir(st, decls, i) matches Ok(s2) ==> regs_unique(s2.regs),
    decreases decls.len() - i,
{
    if 0 <= i < decls.len() {
        reveal(decl_ir);
        match decls[i] {
            SpecDecl::Var(v) => lemma_stmt_unique(st, SpecStmt::Var(v)),
            SpecDecl::FuncDef(f) => {
                let st1 = IrState { counter: 0, ..st };
                let st2 = emit(st1, "define "@ + ir_type(f.return_type) + " @"@ + f.name + "() {"@);
                let st3 = emit(st2, "entry:"@);
                lemma_stmts_unique(st3, f.body.stmts, 0);
            },
        }
        if let Ok(st1) = decl_ir(st, decls[i]) {
            lemma_slots_unique(st1, decls, i + 1);
        }
    }
}

/// The number of binary operators in the expression a statement computes.
pub open spec fn stmt_ops(s: SpecStmt) -> nat {
    match s {
        SpecStmt::Return(e) => op_count(e),
        SpecStmt::Var(v) => op_count(v.value),
        SpecStmt::Assign(a) => match a.target {
            SpecExpr::Ident(_) => op_count(a.value),
            _ => 0,
        },
        SpecStmt::If(_) => 0,
    }
}

/// The number of binary operators in the statements from index `i` on.
pub open spec fn body_ops(ss: Seq<SpecStmt>, i: int) -> nat
    decreases ss.len() - i,
{
    if i < 0 || i >= ss.len() {
        0
    } else {
        stmt_ops(ss[i]) + body_ops(ss, i + 1)
    }
}

proof fn lemma_expr_counter(st: IrState, name: Seq<char>, e: SpecExpr)
    ensures
        expr_ir(st, name, e) matches Ok((s2, _)) ==> s2.counter == st.counter + op_count(e),
    decreases e,
{
    if let SpecExpr::Binary(l, op, r) = e {
        lemma_expr_counter(st, name, *l);
        if let Ok((s1, _)) = expr_ir(st, name, *l) {
            lemma_expr_counter(s1, name, *r);
        }
    }
}

/// A statement numbers its temporaries on from where the one before left
/// off: the temporary counter after it is the counter before it plus the
/// number of operators it computes. No statement starts the count again.
pub proof fn lemma_stmt_counter(st: IrState, s: SpecStmt)
    ensures
        stmt_ir(st, s) matches Ok(s2) ==> s2.counter == st.counter + stmt_ops(s),
{
    match s {
        SpecStmt::Return(e) => lemma_expr_counter(st, "%ret"@, e),
        SpecStmt::Var(v) => {
            if let Some(id) = v.id {
                let a = alloca_name(v.name, id);
                if let Some(st1) = update_reg(st, a) {
                    let st2 = emit(st1, "    "@ + a + " = alloca "@ + ir_type(v.data_type));
                    lemma_expr_counter(st2, a, v.value);
                    if let Ok((st3, (dt, val))) = expr_ir(st2, a, v.value) {
                        if let Ok(ln) = load_name_spec(st3, v.name, v.id) {
                            let st4 = emit(st3, "    store "@ + dt + " "@ + val + ", ptr "@ + a);
                            let st5 = emit(st4, "    "@ + ln + " = load "@ + dt + ", ptr "@ + a);
                            assert(update_reg(st5, a) matches Some(s6) ==> s6.counter == st5.counter);
                        }
                    }
                }
            }
        },
        SpecStmt::Assign(a) => {
            if let SpecExpr::Ident(i) = a.target {
                if let Some(id) = i.id {
                    let an = alloca_name(i.name, id);
                    lemma_expr_counter(st, an, a.value);
                }
            }
        },
        SpecStmt::If(_) => {},
    }
}

/// The statements of a body number their temporaries one after another: the
/// counter rises by exactly the number of operators in them.
pub proof fn lemma_body_counter(st: IrState, ss: Seq<SpecStmt>, i: int)
    ensures
        stmts_ir(st, ss, i) matches Ok(s2) ==> s2.counter == st.counter + body_ops(ss, i),
    decreases ss.len() - i,
{
    if 0 <= i < ss.len() {
        lemma_stmt_counter(st, ss[i]);
        if let Ok(s1) = stmt_ir(st, ss[i]) {
            lemma_body_counter(s1, ss, i + 1);
        }
    }
}

/// The temporaries of one function are numbered `0, 1, 2, ...` through its
/// whole body, each operator taking the next number, so no two of its
/// temporaries share a number: when the function is written, the counter
/// stands at the number of operators in its body.
pub proof fn lemma_function_temporaries(st: IrState, f: SpecFunc)
    ensures
        fn_ir(st, f) matches Ok(s2) ==> s2.counter == body_ops(f.body.stmts, 0),
{
    let st1 = IrState { counter: 0, ..st };
    let st2 = emit(st1, "define "@ + ir_type(f.return_type) + " @"@ + f.name + "() {"@);
    let st3 = emit(st2, "entry:"@);
    lemma_body_counter(st3, f.body.stmts, 0);
}

pub open spec fn initial_ir_state() -> IrState {
    IrState { out: Seq::empty(), regs: Seq::empty(), counter: 0 }
}


pub open spec fn regs_view(v: Seq<(String, Register)>) -> Seq<(Seq<char>, Register)> {
    v.map_values(|e: (String, Register)| (e.0@, e.1))
}

pub open spec fn ir_outcome(r: Result<(), IrError>, st: IrState) -> Result<IrState, (SpecIrError, IrState)> {
    match r {
        Ok(()) => Ok(st),
        Err(e) => Err((e@, st)),
    }
}

pub open spec fn expr_outcome(r: Result<(String, String), IrError>, st: IrState) -> IrRes<(Seq<char>, Seq<char>)> {
    match r {
        Ok((dt, v)) => Ok((st, (dt@, v@))),
        Err(e) => Err((e@, st)),
    }
}

/// Writes LLVM IR text for a program.
pub struct IrGen<'i> {
    ast: &'i Ast,
    ir_source: String,
    registers: Vec<(String, Register)>,
    counter: usize,
}

fn get_ir_type(dt: DataType) -> (r: &'static str)
    ensures
        r@ == ir_type(dt),
{
    match dt {
        DataType::Int => "i32",
        DataType::CharPtr => "char*",
        DataType::Void => "void",
    }
}

fn get_op_type(op: BinaryOp) -> (r: Result<&'static str, IrError>)
    ensures
        match r {
            Ok(s) => op_type(op) == Some(s@),
            Err(e) => op_type(op) is None && e@ == SpecIrError::UnsupportedOp(op),
        },
{
    match op {
        BinaryOp::Add => Ok("add"),
        BinaryOp::Sub => Ok("sub"),
        BinaryOp::Mul => Ok("mul"),
        BinaryOp::Div => Ok("sdiv"),
        BinaryOp::Modulo => Ok("srem"),
        _ => Err(IrError::UnsupportedOp(op)),
    }
}

/// `%name_id`; a variable without an id has no slot.
fn get_alloca_name(name: &String, id: Option<usize>) -> (r: Result<String, IrError>)
    ensures
        match r {
            Ok(a) => id is Some && a@ == alloca_name(name@, id.unwrap()),
            Err(e) => id is None && e@ == SpecIrError::MissingId(name@),
        },
{
    match id {
        None => Err(IrError::MissingId(name.clone())),
        Some(id) => {
            let mut a = String::new();
            a.append("%");
            a.append(name.as_str());
            a.append("_");
            push_decimal(&mut a, id as u64);
            assert(a@ =~= alloca_name(name@, id));
            Ok(a)
        },
    }
}

impl<'i> IrGen<'i> {
    /// The text written, the slots, and the temporary counter.
    pub closed spec fn ir_state(&self) -> IrState {
        IrState { out: self.ir_source@, regs: regs_view(self.registers@), counter: self.counter as int }
    }

    /// The program the text is written for.
    pub closed spec fn source_ast(&self) -> Seq<SpecDecl> {
        self.ast@
    }

    pub fn new(ast: &'i Ast) -> (g: Self)
        ensures
            g.ir_state() == initial_ir_state(),
            g.source_ast() == ast@,
    {
        let g = Self { ast, ir_source: String::new(), registers: Vec::new(), counter: 0 };
        assert(regs_view(g.registers@) =~= Seq::<(Seq<char>, Register)>::empty());
        g
    }

    /// Writes the whole program, which must be one the generator can write.
    pub fn gen_ir(&mut self)
        requires
            decls_ir(old(self).ir_state(), old(self).source_ast(), 0) is Ok,
        ensures
            final(self).source_ast() == old(self).source_ast(),
            decls_ir(old(self).ir_state(), old(self).source_ast(), 0) == Ok::<IrState, (SpecIrError, IrState)>(
                final(self).ir_state(),
            ),
    {
        let r = self.try_gen_ir();
        match r {
            Ok(()) => {},
            Err(_) => {},
        }
    }

    /// Writes the whole program; an error names the first construct it
    /// cannot write, and the text is then as far as it got.
    pub fn try_gen_ir(&mut self) -> (r: Result<(), IrError>)
        ensures
            final(self).source_ast() == old(self).source_ast(),
            decls_ir(old(self).ir_state(), old(self).source_ast(), 0) == ir_outcome(r, final(self).ir_state()),
    {
        self.process_ast()
    }

    /// The text written.
    pub fn get_ir(self) -> (s: String)
        ensures
            s@ == self.ir_state().out,
    {
        self.ir_source
    }

    fn process_ast(&mut self) -> (r: Result<(), IrError>)
        ensures
            final(self).ast == old(self).ast,
            decls_ir(old(self).ir_state(), old(self).source_ast(), 0) == ir_outcome(r, final(self).ir_state()),
    {
        let ast = self.ast;
        let ghost ds = ast@;
        let n = ast.decls.len();
        let mut i: usize = 0;
        while i < n
            invariant
                self.ast == ast,
                ast == old(self).ast,
                n == ast.decls.len(),
                ds == ast@,
                i <= n,
                decls_ir(old(self).ir_state(), ds, 0) == decls_ir(self.ir_state(), ds, i as int),
            decreases n - i,
        {
            let decl = &ast.decls[i];
            assert(ds[i as int] == decl@);
            let ghost before = self.ir_state();
            let r = self.process_decl(decl);
            if let Err(e) = r {
                assert(decls_ir(before, ds, i as int) == Err::<IrState, (SpecIrError, IrState)>((e@, self.ir_state())));
                return Err(e);
            }
            i = i + 1;
        }
        Ok(())
    }

    fn process_decl(&mut self, decl: &Decl) -> (r: Result<(), IrError>)
        ensures
            final(self).ast == old(self).ast,
            decl_ir(old(self).ir_state(), decl@) == ir_outcome(r, final(self).ir_state()),
    {
        reveal(decl_ir);
        match decl {
            Decl::FuncDef(fd) => self.process_fd(fd),
            Decl::Var(vs) => self.process_vs(vs),
        }
    }

    /// Appends `line` and a newline.
    fn push(&mut self, line: &str)
        ensures
            final(self).ast == old(self).ast,
            final(self).ir_state() == emit(old(self).ir_state(), line@),
    {
        self.ir_source.append(line);
        self.ir_source.append("\n");
    }

    /// Index of the slot called `k`, searching from the most recent.
    fn find_register(&self, k: &String) -> (r: Option<usize>)
        ensures
            match r {
                Some(j) => j as int == reg_index(self.ir_state().regs, k@) && j < self.registers.len(),
                None => reg_index(self.ir_state().regs, k@) == -1,
            },
    {
        let ghost rv = self.ir_state().regs;
        let mut j = self.registers.len();
        assert(rv.take(j as int) =~= rv);
        while j > 0
            invariant
                j <= self.registers.len(),
                rv == self.ir_state().regs,
                reg_index(rv, k@) == reg_index(rv.take(j as int), k@),
            decreases j,
        {
            j = j - 1;
            assert(rv.take(j + 1).drop_last() =~= rv.take(j as int));
            if text_eq(self.registers[j].0.as_str(), k.as_str()) {
                return Some(j);
            }
        }
        None
    }

    fn update_register(&mut self, alloca_name: String) -> (r: Result<(), IrError>)
        ensures
            final(self).ast == old(self).ast,
            match update_reg(old(self).ir_state(), alloca_name@) {
                Some(st) => r is Ok && final(self).ir_state() == st,
                None => r matches Err(e) && e@ == SpecIrError::Overflow && final(self).ir_state() == old(
                    self,
                ).ir_state(),
            },
    {
        match self.find_register(&alloca_name) {
            Some(j) => {
                let reg = self.registers[j].1;
                if reg.next_c == usize::MAX {
                    return Err(IrError::Overflow);
                }
                let new_reg = Register { curr_c: reg.next_c, next_c: reg.next_c + 1 };
                self.registers.set(j, (alloca_name, new_reg));
                assert(regs_view(self.registers@) =~= regs_view(old(self).registers@).update(
                    j as int,
                    (alloca_name@, new_reg),
                ));
                Ok(())
            },
            None => {
                self.registers.push((alloca_name, Register { curr_c: 0, next_c: 0 }));
                assert(regs_view(self.registers@) =~= regs_view(old(self).registers@).push(
                    (alloca_name@, Register { curr_c: 0, next_c: 0 }),
                ));
                Ok(())
            },
        }
    }

    fn get_load_name(&self, name: &String, id: Option<usize>) -> (r: Result<String, IrError>)
        ensures
            match r {
                Ok(s) => load_name_spec(self.ir_state(), name@, id) == Ok::<Seq<char>, SpecIrError>(s@),
                Err(e) => load_name_spec(self.ir_state(), name@, id) == Err::<Seq<char>, SpecIrError>(e@),
            },
    {
        let alloca_name = get_alloca_name(name, id)?;
        match self.find_register(&alloca_name) {
            None => Err(IrError::MissingRegister(alloca_name)),
            Some(j) => {
                let c = self.registers[j].1.curr_c;
                let mut s = alloca_name;
                s.append("_value_");
                push_decimal(&mut s, c as u64);
                Ok(s)
            },
        }
    }

    /// `prefix_op_n` with the next temporary number `n`.
    fn temp_name(&mut self, prefix: &String, op: &str) -> (r: Result<String, IrError>)
        ensures
            final(self).ast == old(self).ast,
            final(self).ir_source == old(self).ir_source,
            final(self).registers == old(self).registers,
            old(self).counter == usize::MAX ==> (r matches Err(e) && e@ == SpecIrError::Overflow
                && final(self).counter == old(self).counter),
            old(self).counter < usize::MAX ==> (r matches Ok(t) && t@ == prefix@ + "_"@ + op@ + "_"@
                + nat_decimal(old(self).counter as nat) && final(self).counter == old(self).counter + 1),
    {
        if self.counter == usize::MAX {
            return Err(IrError::Overflow);
        }
        let n = self.counter;
        self.counter = self.counter + 1;
        let mut t = prefix.clone();
        t.append("_");
        t.append(op);
        t.append("_");
        push_decimal(&mut t, n as u64);
        Ok(t)
    }

    fn process_expr(&mut self, name: &String, expr: &Expr) -> (r: Result<(String, String), IrError>)
        ensures
            final(self).ast == old(self).ast,
            expr_ir(old(self).ir_state(), name@, expr@) == expr_outcome(r, final(self).ir_state()),
        decreases expr,
    {
        proof {
            reveal_strlit("");
        }
        match expr {
            Expr::Int32(value) => {
                let mut dt = String::new();
                dt.append("i32");
                assert(dt@ =~= "i32"@);
                Ok((dt, i32_to_string(*value)))
            },
            Expr::String(_) => Err(IrError::StringLiteral),
            Expr::Ident(e) => {
                let load = self.get_load_name(&e.name, e.id)?;
                match e.data_type {
                    None => Err(IrError::MissingType(e.name.clone())),
                    Some(dt) => {
                        let mut t = String::new();
                        t.append(get_ir_type(dt));
                        assert(t@ =~= ir_type(dt));
                        Ok((t, load))
                    },
                }
            },
            Expr::BinaryExpr(b) => {
                assert(expr@ == SpecExpr::Binary(Box::new(b.left@), b.op, Box::new(b.right@)));
                self.process_binary_expr(name, b)
            },
            Expr::Empty => {
                let a = String::new();
                let b = String::new();
                assert(a@ =~= ""@);
                Ok((a, b))
            },
        }
    }

    fn process_binary_expr(&mut self, name: &String, expr: &BinaryExpr) -> (r: Result<(String, String), IrError>)
        ensures
            final(self).ast == old(self).ast,
            expr_ir(
                old(self).ir_state(),
                name@,
                SpecExpr::Binary(Box::new(expr.left@), expr.op, Box::new(expr.right@)),
            ) == expr_outcome(r, final(self).ir_state()),
        decreases expr,
    {
        let op = get_op_type(expr.op)?;
        let lhs = self.process_expr(name, &expr.left)?;
        let rhs = self.process_expr(name, &expr.right)?;
        let temp = self.temp_name(name, op)?;
        let mut line = String::new();
        line.append("    ");
        line.append(temp.as_str());
        line.append(" = ");
        line.append(op);
        line.append(" ");
        line.append(lhs.0.as_str());
        line.append(" ");
        line.append(lhs.1.as_str());
        line.append(", ");
        line.append(rhs.1.as_str());
        self.push(line.as_str());
        Ok((lhs.0, temp))
    }

    fn process_vs(&mut self, vs: &VarStmt) -> (r: Result<(), IrError>)
        ensures
            final(self).ast == old(self).ast,
            var_ir(old(self).ir_state(), vs@) == ir_outcome(r, final(self).ir_state()),
    {
        proof {
            reveal_strlit("");
        }
        let alloca_dt = get_ir_type(vs.data_type);
        let alloca_name = get_alloca_name(&vs.name, vs.id)?;
        self.update_register(alloca_name.clone())?;
        let mut line = String::new();
        line.append("    ");
        line.append(alloca_name.as_str());
        line.append(" = alloca ");
        line.append(alloca_dt);
        self.push(line.as_str());
        let (dt, value) = self.process_expr(&alloca_name, &vs.value)?;
        if dt.as_str().is_empty() && value.as_str().is_empty() {
            return Ok(());
        }
        let load_name = self.get_load_name(&vs.name, vs.id)?;
        let mut store = String::new();
        store.append("    store ");
        store.append(dt.as_str());
        store.append(" ");
        store.append(value.as_str());
        store.append(", ptr ");
        store.append(alloca_name.as_str());
        self.push(store.as_str());
        let mut load = String::new();
        load.append("    ");
        load.append(load_name.as_str());
        load.append(" = load ");
        load.append(dt.as_str());
        load.append(", ptr ");
        load.append(alloca_name.as_str());
        self.push(load.as_str());
        self.update_register(alloca_name)
    }

    fn process_assign_stmt(&mut self, stmt: &AssignStmt) -> (r: Result<(), IrError>)
        ensures
            final(self).ast == old(self).ast,
            assign_ir(old(self).ir_state(), stmt@) == ir_outcome(r, final(self).ir_state()),
    {
        if let Expr::Ident(expr) = &stmt.target {
            let alloca_name = get_alloca_name(&expr.name, expr.id)?;
            let (dt, value) = self.process_expr(&alloca_name, &stmt.value)?;
            self.update_register(alloca_name.clone())?;
            let load_name = self.get_load_name(&expr.name, expr.id)?;
            let mut store = String::new();
            store.append("    store ");
            store.append(dt.as_str());
            store.append(" ");
            store.append(value.as_str());
            store.append(", ptr ");
            store.append(alloca_name.as_str());
            self.push(store.as_str());
            let mut load = String::new();
            load.append("    ");
            load.append(load_name.as_str());
            load.append(" = load ");
            load.append(dt.as_str());
            load.append(", ptr ");
            load.append(alloca_name.as_str());
            self.push(load.as_str());
        }
        Ok(())
    }

    fn process_stmt(&mut self, stmt: &Stmt) -> (r: Result<(), IrError>)
        ensures
            final(self).ast == old(self).ast,
            stmt_ir(old(self).ir_state(), stmt@) == ir_outcome(r, final(self).ir_state()),
    {
        proof {
            reveal_strlit("");
        }
        match stmt {
            Stmt::Return(expr) => {
                let mut prefix = String::new();
                prefix.append("%ret");
                proof {
                    reveal_strlit("%ret");
                }
                assert(prefix@ =~= "%ret"@);
                let (dt, value) = self.process_expr(&prefix, expr)?;
                if dt.as_str().is_empty() && value.as_str().is_empty() {
                    self.push("    ret void");
                } else {
                    let mut line = String::new();
                    line.append("    ret ");
                    line.append(dt.as_str());
                    line.append(" ");
                    line.append(value.as_str());
                    self.push(line.as_str());
                }
                Ok(())
            },
            Stmt::Var(vs) => self.process_vs(vs),
            Stmt::Assign(a) => self.process_assign_stmt(a),
            Stmt::IfStmt(_) => Err(IrError::IfStatement),
        }
    }

    fn process_fd(&mut self, fd: &FunctionDef) -> (r: Result<(), IrError>)
        ensures
            final(self).ast == old(self).ast,
            fn_ir(old(self).ir_state(), fd@) == ir_outcome(r, final(self).ir_state()),
    {
        proof {
            reveal_strlit("");
        }
        self.counter = 0;
        let rt = get_ir_type(fd.return_type);
        let mut header = String::new();
        header.append("define ");
        header.append(rt);
        header.append(" @");
        header.append(fd.name.as_str());
        header.append("() {");
        self.push(header.as_str());
        self.push("entry:");
        let ghost ss = fd@.body.stmts;
        let n = fd.body.stmts.len();
        proof {
            crate::ast::lemma_stmts_view(fd.body.stmts@);
        }
        let mut i: usize = 0;
        while i < n
            invariant
                self.ast == old(self).ast,
                n == fd.body.stmts.len(),
                ss == crate::ast::stmts_view(fd.body.stmts@),
                ss.len() == n,
                forall|k: int| 0 <= k < n ==> #[trigger] ss[k] == crate::ast::stmt_view(fd.body.stmts@[k]),
                i <= n,
                stmts_ir(
                    emit(
                        emit(
                            IrState { counter: 0, ..old(self).ir_state() },
                            "define "@ + ir_type(fd.return_type) + " @"@ + fd.name@ + "() {"@,
                        ),
                        "entry:"@,
                    ),
                    ss,
                    0,
                ) == stmts_ir(self.ir_state(), ss, i as int),
            decreases n - i,
        {
            let stmt = &fd.body.stmts[i];
            assert(ss[i as int] == stmt@);
            self.process_stmt(stmt)?;
            i = i + 1;
        }
        self.push("}");
        Ok(())
    }
}

} // verus!
