use vstd::prelude::*;

use crate::ast::{
    AssignStmt, Ast, BinaryExpr, Block, Decl, Expr, FunctionDef, IdentExpr, SpecAssign, SpecBlock,
    SpecDecl, SpecExpr, SpecFunc, SpecIdent, SpecStmt, SpecVar, Stmt, VarStmt,
};
use crate::text::text_eq;
use crate::types::DataType;

verus! {

/// The number of variable declarations among the statements, if it fits in
/// a `usize`.
fn stmt_count(stmts: &Vec<Stmt>) -> (r: Option<usize>)
    ensures
        match r {
            Some(n) => n == stmt_var_count(crate::ast::stmts_view(stmts@)),
            None => stmt_var_count(crate::ast::stmts_view(stmts@)) > usize::MAX,
        },
{
    let ghost sv = crate::ast::stmts_view(stmts@);
    proof {
        crate::ast::lemma_stmts_view(stmts@);
    }
    let mut n: usize = 0;
    let mut i: usize = 0;
    assert(sv.skip(0) =~= sv);
    while i < stmts.len()
        invariant
            sv == crate::ast::stmts_view(stmts@),
            sv.len() == stmts.len(),
            forall|k: int| 0 <= k < sv.len() ==> #[trigger] sv[k] == crate::ast::stmt_view(stmts@[k]),
            i <= stmts.len(),
            n + stmt_var_count(sv.skip(i as int)) == stmt_var_count(sv),
        decreases stmts.len() - i,
    {
        assert(sv.skip(i as int).drop_first() =~= sv.skip(i + 1));
        assert(sv.skip(i as int)[0] == sv[i as int]);
        if let Stmt::Var(_) = &stmts[i] {
            if n == usize::MAX {
                return None;
            }
            n = n + 1;
        }
        i = i + 1;
    }
    assert(sv.skip(i as int) =~= Seq::<SpecStmt>::empty());
    Some(n)
}

/// The number of variable declarations of a program, global ones and those
/// in function bodies, if it fits in a `usize`: the count that `analyze`
/// needs room for in its id counter.
pub fn var_count(ast: &Ast) -> (r: Option<usize>)
    ensures
        match r {
            Some(n) => n == decl_var_count(ast@),
            None => decl_var_count(ast@) > usize::MAX,
        },
{
    let ghost ds = ast@;
    let mut n: usize = 0;
    let mut i: usize = 0;
    assert(ds.skip(0) =~= ds);
    while i < ast.decls.len()
        invariant
            ds == ast@,
            ds.len() == ast.decls.len(),
            i <= ast.decls.len(),
            n + decl_var_count(ds.skip(i as int)) == decl_var_count(ds),
        decreases ast.decls.len() - i,
    {
        assert(ds.skip(i as int).drop_first() =~= ds.skip(i + 1));
        assert(ds.skip(i as int)[0] == ds[i as int]);
        assert(ds[i as int] == ast.decls@[i as int]@);
        let k: usize = match &ast.decls[i] {
            Decl::Var(_) => 1,
            Decl::FuncDef(f) => match stmt_count(&f.body.stmts) {
                Some(k) => k,
                None => {
                    return None;
                },
            },
        };
        if n > usize::MAX - k {
            return None;
        }
        n = n + k;
        i = i + 1;
    }
    assert(ds.skip(i as int) =~= Seq::<SpecDecl>::empty());
    Some(n)
}

/// What a name stands for in a scope: the id it was declared with (none for
/// a literal's type) and its data type.
#[derive(Debug, Clone, Copy, PartialEq, Eq, Structural)]
pub struct ScopeData {
    pub id: Option<usize>,
    pub data_type: DataType,
}

impl ScopeData {
    pub fn new(id: Option<usize>, data_type: DataType) -> (s: Self)
        ensures
            s == (ScopeData { id, data_type }),
    {
        Self { id, data_type }
    }
}

/// Why a declaration or a function body was rejected.
#[derive(Debug, PartialEq, Eq)]
pub enum SemanticError {
    /// A returned expression does not have the function's return type
    /// (return type, expression type).
    ReturnTypeMismatch(DataType, DataType),
    /// A variable's initial value does not have its type (declared, value).
    VarTypeMismatch(DataType, DataType),
    /// An assignment's two sides have different types (target, value).
    AssignTypeMismatch(DataType, DataType),
    /// A binary operation on operands of different types (left, right).
    OperandTypeMismatch(DataType, DataType),
    /// A name used without a declaration in scope.
    UndeclaredIdentifier(String),
    /// A name declared twice in one scope.
    Redefinition(String),
}

pub ghost enum SpecSemanticError {
    ReturnTypeMismatch(DataType, DataType),
    VarTypeMismatch(DataType, DataType),
    AssignTypeMismatch(DataType, DataType),
    OperandTypeMismatch(DataType, DataType),
    UndeclaredIdentifier(Seq<char>),
    Redefinition(Seq<char>),
}

impl View for SemanticError {
    type V = SpecSemanticError;

    open spec fn view(&self) -> SpecSemanticError {
        match self {
            SemanticError::ReturnTypeMismatch(a, b) => SpecSemanticError::ReturnTypeMismatch(*a, *b),
            SemanticError::VarTypeMismatch(a, b) => SpecSemanticError::VarTypeMismatch(*a, *b),
            SemanticError::AssignTypeMismatch(a, b) => SpecSemanticError::AssignTypeMismatch(*a, *b),
            SemanticError::OperandTypeMismatch(a, b) => SpecSemanticError::OperandTypeMismatch(*a, *b),
            SemanticError::UndeclaredIdentifier(s) => SpecSemanticError::UndeclaredIdentifier(s@),
            SemanticError::Redefinition(s) => SpecSemanticError::Redefinition(s@),
        }
    }
}

// ---------------------------------------------------------------------------
// The model of scope checking. A scope is the list of its declarations in
// order; the scopes are listed from the outermost to the innermost.
// ---------------------------------------------------------------------------
pub type SpecScope = Seq<(Seq<char>, ScopeData)>;

/// The state the analysis carries: its scopes and the next id to give.
pub ghost struct SemState {
    pub scopes: Seq<SpecScope>,
    pub counter: int,
}

/// What `name` is declared as in one scope.
pub open spec fn scope_get(sc: SpecScope, name: Seq<char>) -> Option<ScopeData>
    decreases sc.len(),
{
    if sc.len() == 0 {
        None
    } else if sc.last().0 == name {
        Some(sc.last().1)
    } else {
        scope_get(sc.drop_last(), name)
    }
}

/// What `name` means: its declaration in the innermost scope that has one.
pub open spec fn lookup_spec(scopes: Seq<SpecScope>, name: Seq<char>) -> Option<ScopeData>
    decreases scopes.len(),
{
    if scopes.len() == 0 {
        None
    } else {
        match scope_get(scopes.last(), name) {
            Some(d) => Some(d),
            None => lookup_spec(scopes.drop_last(), name),
        }
    }
}

/// Declares `name` in the innermost scope, with the next id; a name already
/// declared there is a redefinition.
pub open spec fn declare_spec(st: SemState, name: Seq<char>, dt: DataType) -> Result<(SemState, int), SpecSemanticError> {
    if scope_get(st.scopes.last(), name) is Some {
        Err(SpecSemanticError::Redefinition(name))
    } else {
        let entry = (name, ScopeData { id: Some(st.counter as usize), data_type: dt });
        Ok(
            (
                SemState {
                    scopes: st.scopes.update(st.scopes.len() - 1, st.scopes.last().push(entry)),
                    counter: st.counter + 1,
                },
                st.counter,
            ),
        )
    }
}

/// The type of an expression, with each name in it resolved to its id and
/// type. On an error the expression is given back as far as it was resolved.
pub open spec fn resolve_spec(scopes: Seq<SpecScope>, e: SpecExpr) -> (SpecExpr, Result<ScopeData, SpecSemanticError>)
    decreases e,
{
    match e {
        SpecExpr::Int32(_) => (e, Ok(ScopeData { id: None, data_type: DataType::Int })),
        SpecExpr::Str(_) => (e, Ok(ScopeData { id: None, data_type: DataType::CharPtr })),
        SpecExpr::Ident(i) => match lookup_spec(scopes, i.name) {
            None => (e, Err(SpecSemanticError::UndeclaredIdentifier(i.name))),
            Some(sd) => (
                SpecExpr::Ident(SpecIdent { name: i.name, id: sd.id, data_type: Some(sd.data_type) }),
                Ok(sd),
            ),
        },
        SpecExpr::Binary(l, op, r) => {
            let (l2, lr) = resolve_spec(scopes, *l);
            match lr {
                Err(x) => (SpecExpr::Binary(Box::new(l2), op, r), Err(x)),
                Ok(ls) => {
                    let (r2, rr) = resolve_spec(scopes, *r);
                    let e2 = SpecExpr::Binary(Box::new(l2), op, Box::new(r2));
                    match rr {
                        Err(x) => (e2, Err(x)),
                        Ok(rs) => if ls.data_type != rs.data_type {
                            (e2, Err(SpecSemanticError::OperandTypeMismatch(ls.data_type, rs.data_type)))
                        } else {
                            (e2, Ok(ls))
                        },
                    }
                },
            }
        },
        SpecExpr::Empty => (e, Ok(ScopeData { id: None, data_type: DataType::Void })),
    }
}

/// A variable declaration: its value must have its type, then it is declared
/// in the innermost scope and given its id.
pub open spec fn analyze_var_spec(st: SemState, v: SpecVar) -> (SemState, SpecVar, Result<(), SpecSemanticError>) {
    let (val, r) = resolve_spec(st.scopes, v.value);
    let v1 = SpecVar { value: val, ..v };
    match r {
        Err(x) => (st, v1, Err(x)),
        Ok(sd) => if v.data_type != sd.data_type {
            (st, v1, Err(SpecSemanticError::VarTypeMismatch(v.data_type, sd.data_type)))
        } else {
            match declare_spec(st, v.name, v.data_type) {
                Err(x) => (st, v1, Err(x)),
                Ok((st2, id)) => (st2, SpecVar { id: Some(id as usize), ..v1 }, Ok(())),
            }
        },
    }
}

/// An assignment: the target is resolved and its type compared with that
/// of the target resolved a second time; the value is left as it is.
pub open spec fn analyze_assign_spec(scopes: Seq<SpecScope>, a: SpecAssign) -> (SpecAssign, Result<(), SpecSemanticError>) {
    let (t1, r1) = resolve_spec(scopes, a.target);
    match r1 {
        Err(x) => (SpecAssign { target: t1, value: a.value }, Err(x)),
        Ok(ts) => {
            let (t2, r2) = resolve_spec(scopes, t1);
            match r2 {
                Err(x) => (SpecAssign { target: t2, value: a.value }, Err(x)),
                Ok(vs) => if ts.data_type != vs.data_type {
                    (
                        SpecAssign { target: t2, value: a.value },
                        Err(SpecSemanticError::AssignTypeMismatch(ts.data_type, vs.data_type)),
                    )
                } else {
                    (SpecAssign { target: t2, value: a.value }, Ok(()))
                },
            }
        },
    }
}

/// The statements of a function body from index `i` on, in a function that
/// returns `rt`. The first error ends the walk.
pub open spec fn analyze_stmts_spec(st: SemState, rt: DataType, stmts: Seq<SpecStmt>, i: int) -> (SemState, Seq<SpecStmt>, Result<(), SpecSemanticError>)
    decreases stmts.len() - i,
{
    if i < 0 || i >= stmts.len() {
        (st, stmts, Ok(()))
    } else {
        match stmts[i] {
            SpecStmt::Return(e) => {
                let (e2, r) = resolve_spec(st.scopes, e);
                let stmts2 = stmts.update(i, SpecStmt::Return(e2));
                match r {
                    Err(x) => (st, stmts2, Err(x)),
                    Ok(sd) => if rt != sd.data_type {
                        (st, stmts2, Err(SpecSemanticError::ReturnTypeMismatch(rt, sd.data_type)))
                    } else {
                        analyze_stmts_spec(st, rt, stmts2, i + 1)
                    },
                }
            },
            SpecStmt::Var(v) => {
                let (st2, v2, r) = analyze_var_spec(st, v);
                let stmts2 = stmts.update(i, SpecStmt::Var(v2));
                match r {
                    Err(x) => (st2, stmts2, Err(x)),
                    Ok(()) => analyze_stmts_spec(st2, rt, stmts2, i + 1),
                }
            },
            SpecStmt::Assign(a) => {
                let (a2, r) = analyze_assign_spec(st.scopes, a);
                let stmts2 = stmts.update(i, SpecStmt::Assign(a2));
                match r {
                    Err(x) => (st, stmts2, Err(x)),
                    Ok(()) => analyze_stmts_spec(st, rt, stmts2, i + 1),
                }
            },
            SpecStmt::If(_) => analyze_stmts_spec(st, rt, stmts, i + 1),
        }
    }
}

/// A function definition: its body is checked in a new scope, which is
/// closed when the whole body passes and left open when it does not.
pub open spec fn analyze_fn_spec(st: SemState, f: SpecFunc) -> (SemState, SpecFunc, Result<(), SpecSemanticError>) {
    let inner = SemState { scopes: st.scopes.push(Seq::empty()), counter: st.counter };
    let (st2, stmts, r) = analyze_stmts_spec(inner, f.return_type, f.body.stmts, 0);
    let f2 = SpecFunc { body: SpecBlock { stmts }, ..f };
    match r {
        Err(x) => (st2, f2, Err(x)),
        Ok(()) => (SemState { scopes: st2.scopes.drop_last(), counter: st2.counter }, f2, Ok(())),
    }
}

pub open spec fn analyze_decl_spec(st: SemState, d: SpecDecl) -> (SemState, SpecDecl, Result<(), SpecSemanticError>) {
    match d {
        SpecDecl::Var(v) => {
            let (st2, v2, r) = analyze_var_spec(st, v);
            (st2, SpecDecl::Var(v2), r)
        },
        SpecDecl::FuncDef(f) => {
            let (st2, f2, r) = analyze_fn_spec(st, f);
            (st2, SpecDecl::FuncDef(f2), r)
        },
    }
}

/// The declarations from index `i` on: each is checked in turn, and each
/// error is recorded and passed over.
pub ghost struct AnalyzeOut {
    pub state: SemState,
    pub decls: Seq<SpecDecl>,
    pub errors: Seq<SpecSemanticError>,
}

pub open spec fn analyze_decls_spec(st: SemState, decls: Seq<SpecDecl>, i: int) -> AnalyzeOut
    decreases decls.len() - i,
{
    if i < 0 || i >= decls.len() {
        AnalyzeOut { state: st, decls, errors: Seq::empty() }
    } else {
        let (st2, d2, r) = analyze_decl_spec(st, decls[i]);
        let rest = analyze_decls_spec(st2, decls.update(i, d2), i + 1);
        match r {
            Ok(()) => rest,
            Err(x) => AnalyzeOut { errors: seq![x] + rest.errors, ..rest },
        }
    }
}

/// A whole program: checked in a new global scope, after which the innermost
/// scope is closed.
pub open spec fn analyze_spec(st: SemState, decls: Seq<SpecDecl>) -> AnalyzeOut {
    let out = analyze_decls_spec(SemState { scopes: st.scopes.push(Seq::empty()), counter: st.counter }, decls, 0);
    AnalyzeOut { state: SemState { scopes: out.state.scopes.drop_last(), ..out.state }, ..out }
}


/// Number of variable declarations among the statements.
pub open spec fn stmt_var_count(stmts: Seq<SpecStmt>) -> nat
    decreases stmts.len(),
{
    if stmts.len() == 0 {
        0
    } else {
        (if stmts[0] is Var { 1nat } else { 0nat }) + stmt_var_count(stmts.drop_first())
    }
}

/// Number of variable declarations in a program: the global ones and those
/// in function bodies.
pub open spec fn decl_var_count(decls: Seq<SpecDecl>) -> nat
    decreases decls.len(),
{
    if decls.len() == 0 {
        0
    } else {
        (match decls[0] {
            SpecDecl::Var(_) => 1nat,
            SpecDecl::FuncDef(f) => stmt_var_count(f.body.stmts),
        }) + decl_var_count(decls.drop_first())
    }
}

pub open spec fn scope_view(v: Seq<(String, ScopeData)>) -> SpecScope {
    v.map_values(|e: (String, ScopeData)| (e.0@, e.1))
}

pub open spec fn scopes_view(v: Seq<Vec<(String, ScopeData)>>) -> Seq<SpecScope> {
    v.map_values(|s: Vec<(String, ScopeData)>| scope_view(s@))
}

pub open spec fn sem_result<T>(r: Result<T, SemanticError>) -> Result<T, SpecSemanticError> {
    match r {
        Ok(v) => Ok(v),
        Err(e) => Err(e@),
    }
}

pub open spec fn sem_error_views(v: Seq<SemanticError>) -> Seq<SpecSemanticError> {
    v.map_values(|e: SemanticError| e@)
}

/// Checks that names are declared before use and that types agree, and
/// gives each declared variable, and each use of it, its id.
pub struct Semantic {
    scopes: Vec<Vec<(String, ScopeData)>>,
    id_counter: usize,
    pub errors: Vec<SemanticError>,
}

impl Semantic {
    /// The scopes, outermost first, and the next id.
    pub closed spec fn state(&self) -> SemState {
        SemState { scopes: scopes_view(self.scopes@), counter: self.id_counter as int }
    }

    /// The errors met so far.
    pub closed spec fn error_seq(&self) -> Seq<SpecSemanticError> {
        sem_error_views(self.errors@)
    }

    /// The errors met so far (the field `errors`), for verified callers.
    pub fn error_list(&self) -> (r: &Vec<SemanticError>)
        ensures
            sem_error_views(r@) == self.error_seq(),
    {
        &self.errors
    }

    pub fn new() -> (s: Self)
        ensures
            s.state() == (SemState { scopes: Seq::empty(), counter: 0 }),
            s.error_seq() == Seq::<SpecSemanticError>::empty(),
    {
        let s = Self { scopes: Vec::new(), id_counter: 0, errors: Vec::new() };
        assert(scopes_view(s.scopes@) =~= Seq::<SpecScope>::empty());
        assert(sem_error_views(s.errors@) =~= Seq::<SpecSemanticError>::empty());
        s
    }

    fn entry_scope(&mut self)
        ensures
            final(self).state() == (SemState {
                scopes: old(self).state().scopes.push(Seq::empty()),
                ..old(self).state()
            }),
            final(self).scopes.len() == old(self).scopes.len() + 1,
            final(self).errors == old(self).errors,
    {
        let v: Vec<(String, ScopeData)> = Vec::new();
        assert(scope_view(v@) =~= Seq::<(Seq<char>, ScopeData)>::empty());
        self.scopes.push(v);
        assert(scopes_view(self.scopes@) =~= scopes_view(old(self).scopes@).push(Seq::empty()));
    }

    fn exit_scope(&mut self)
        requires
            old(self).scopes.len() > 0,
        ensures
            final(self).state() == (SemState {
                scopes: old(self).state().scopes.drop_last(),
                ..old(self).state()
            }),
            final(self).scopes.len() == old(self).scopes.len() - 1,
            final(self).errors == old(self).errors,
    {
        self.scopes.pop();
        assert(scopes_view(self.scopes@) =~= scopes_view(old(self).scopes@).drop_last());
    }

    /// What `name` is declared as in scope `k`.
    fn scope_lookup(&self, k: usize, name: &String) -> (r: Option<ScopeData>)
        requires
            k < self.scopes.len(),
        ensures
            r == scope_get(self.state().scopes[k as int], name@),
    {
        let sc = &self.scopes[k];
        let ghost sv = scope_view(sc@);
        let mut j = sc.len();
        assert(sv.take(j as int) =~= sv);
        while j > 0
            invariant
                j <= sc.len(),
                sv == scope_view(sc@),
                sv == self.state().scopes[k as int],
                scope_get(sv, name@) == scope_get(sv.take(j as int), name@),
            decreases j,
        {
            j = j - 1;
            assert(sv.take(j + 1).drop_last() =~= sv.take(j as int));
            if text_eq(sc[j].0.as_str(), name.as_str()) {
                return Some(sc[j].1);
            }
        }
        None
    }

    /// What `name` means in the innermost scope that declares it.
    fn lookup(&self, name: &String) -> (r: Option<ScopeData>)
        ensures
            r == lookup_spec(self.state().scopes, name@),
    {
        let ghost all = self.state().scopes;
        let mut k = self.scopes.len();
        assert(all.take(k as int) =~= all);
        while k > 0
            invariant
                k <= self.scopes.len(),
                all == self.state().scopes,
                lookup_spec(all, name@) == lookup_spec(all.take(k as int), name@),
            decreases k,
        {
            k = k - 1;
            assert(all.take(k + 1).drop_last() =~= all.take(k as int));
            if let Some(s) = self.scope_lookup(k, name) {
                return Some(s);
            }
        }
        None
    }

    fn declare(&mut self, name: String, data_type: DataType) -> (r: Result<usize, SemanticError>)
        requires
            old(self).scopes.len() > 0,
            old(self).id_counter < usize::MAX,
        ensures
            final(self).errors == old(self).errors,
            final(self).scopes.len() == old(self).scopes.len(),
            match declare_spec(old(self).state(), name@, data_type) {
                Ok((st, id)) => r == Ok::<usize, SemanticError>(id as usize) && final(self).state() == st,
                Err(e) => r matches Err(x) && x@ == e && final(self).state() == old(self).state(),
            },
    {
        let n = self.scopes.len();
        if let Some(_) = self.scope_lookup(n - 1, &name) {
            return Err(SemanticError::Redefinition(name));
        }
        let id = self.id_counter;
        self.id_counter = self.id_counter + 1;
        let mut last = self.scopes.pop().unwrap();
        let ghost lv = scope_view(last@);
        last.push((name, ScopeData::new(Some(id), data_type)));
        assert(scope_view(last@) =~= lv.push((name@, ScopeData { id: Some(id), data_type })));
        self.scopes.push(last);
        assert(scopes_view(self.scopes@) =~= scopes_view(old(self).scopes@).update(
            n - 1,
            scope_view(last@),
        ));
        Ok(id)
    }

    /// The type of `expr`, with each name in it resolved; on an error, the
    /// expression as far as it was resolved.
    fn get_scope_data(&self, expr: Expr) -> (r: (Expr, Result<ScopeData, SemanticError>))
        ensures
            (r.0@, sem_result(r.1)) == resolve_spec(self.state().scopes, expr@),
        decreases expr,
    {
        match expr {
            Expr::Int32(v) => (Expr::Int32(v), Ok(ScopeData::new(None, DataType::Int))),
            Expr::String(s) => (Expr::String(s), Ok(ScopeData::new(None, DataType::CharPtr))),
            Expr::Ident(i) => {
                match self.lookup(&i.name) {
                    None => {
                        let name = i.name.clone();
                        (Expr::Ident(i), Err(SemanticError::UndeclaredIdentifier(name)))
                    },
                    Some(scope) => {
                        let IdentExpr { name, id: _, data_type: _ } = i;
                        (
                            Expr::Ident(
                                IdentExpr { name, id: scope.id, data_type: Some(scope.data_type) },
                            ),
                            Ok(scope),
                        )
                    },
                }
            },
            Expr::BinaryExpr(b) => {
                let BinaryExpr { left, op, right } = *b;
                let (left, lr) = self.get_scope_data(left);
                let left_scope = match lr {
                    Err(e) => {
                        return (Expr::BinaryExpr(Box::new(BinaryExpr { left, op, right })), Err(e));
                    },
                    Ok(s) => s,
                };
                let (right, rr) = self.get_scope_data(right);
                let e2 = Expr::BinaryExpr(Box::new(BinaryExpr { left, op, right }));
                match rr {
                    Err(e) => (e2, Err(e)),
                    Ok(right_scope) => {
                        if left_scope.data_type != right_scope.data_type {
                            (
                                e2,
                                Err(
                                    SemanticError::OperandTypeMismatch(
                                        left_scope.data_type,
                                        right_scope.data_type,
                                    ),
                                ),
                            )
                        } else {
                            (e2, Ok(left_scope))
                        }
                    },
                }
            },
            Expr::Empty => (Expr::Empty, Ok(ScopeData::new(None, DataType::Void))),
        }
    }

    fn analyze_var(&mut self, vs: VarStmt) -> (r: (VarStmt, Result<(), SemanticError>))
        requires
            old(self).scopes.len() > 0,
            old(self).id_counter < usize::MAX,
        ensures
            final(self).errors == old(self).errors,
            final(self).scopes.len() == old(self).scopes.len(),
            (final(self).state(), r.0@, sem_result(r.1)) == analyze_var_spec(old(self).state(), vs@),
    {
        let VarStmt { data_type, name, value, id, is_global } = vs;
        let (value, res) = self.get_scope_data(value);
        let scope = match res {
            Err(e) => {
                return (VarStmt { data_type, name, value, id, is_global }, Err(e));
            },
            Ok(s) => s,
        };
        if data_type != scope.data_type {
            return (
                VarStmt { data_type, name, value, id, is_global },
                Err(SemanticError::VarTypeMismatch(data_type, scope.data_type)),
            );
        }
        match self.declare(name.clone(), data_type) {
            Err(e) => (VarStmt { data_type, name, value, id, is_global }, Err(e)),
            Ok(new_id) => (VarStmt { data_type, name, value, id: Some(new_id), is_global }, Ok(())),
        }
    }

    fn analyze_assign(&self, stmt: AssignStmt) -> (r: (AssignStmt, Result<(), SemanticError>))
        ensures
            (r.0@, sem_result(r.1)) == analyze_assign_spec(self.state().scopes, stmt@),
    {
        let AssignStmt { target, value } = stmt;
        let (target, tr) = self.get_scope_data(target);
        let target_scope = match tr {
            Err(e) => {
                return (AssignStmt { target, value }, Err(e));
            },
            Ok(s) => s,
        };
        let (target, vr) = self.get_scope_data(target);
        let value_scope = match vr {
            Err(e) => {
                return (AssignStmt { target, value }, Err(e));
            },
            Ok(s) => s,
        };
        if target_scope.data_type != value_scope.data_type {
            return (
                AssignStmt { target, value },
                Err(SemanticError::AssignTypeMismatch(target_scope.data_type, value_scope.data_type)),
            );
        }
        (AssignStmt { target, value }, Ok(()))
    }

    fn analyze_fn(&mut self, fd: FunctionDef) -> (r: (FunctionDef, Result<(), SemanticError>))
        requires
            old(self).id_counter + stmt_var_count(fd@.body.stmts) <= usize::MAX,
        ensures
            final(self).errors == old(self).errors,
            final(self).scopes.len() >= old(self).scopes.len(),
            final(self).id_counter <= old(self).id_counter + stmt_var_count(fd@.body.stmts),
            (final(self).state(), r.0@, sem_result(r.1)) == analyze_fn_spec(old(self).state(), fd@),
    {
        let ghost f0 = fd@;
        let FunctionDef { return_type, name, params, body } = fd;
        let Block { stmts } = body;
        let ghost sv = stmts@;
        let ghost ss = crate::ast::stmts_view(sv);
        proof {
            crate::ast::lemma_stmts_view(sv);
        }
        self.entry_scope();
        let ghost st0 = self.state();
        let ghost c0 = self.id_counter as int;
        let mut done: Vec<Stmt> = Vec::new();
        let mut err: Option<SemanticError> = None;
        proof {
            assert(crate::ast::stmts_view(done@) + ss.skip(0) =~= ss);
        }
        for s in it: stmts.into_iter()
            invariant
                it.seq() == sv,
                ss == crate::ast::stmts_view(sv),
                ss.len() == sv.len(),
                forall|i: int| 0 <= i < sv.len() ==> #[trigger] ss[i] == crate::ast::stmt_view(sv[i]),
                done@.len() == it.index(),
                self.scopes.len() > old(self).scopes.len(),
                self.errors == old(self).errors,
                self.id_counter + stmt_var_count(ss.skip(it.index() as int)) <= c0 + stmt_var_count(ss),
                c0 + stmt_var_count(ss) <= usize::MAX,
                match err {
                    None => analyze_stmts_spec(st0, return_type, ss, 0) == analyze_stmts_spec(
                        self.state(),
                        return_type,
                        crate::ast::stmts_view(done@) + ss.skip(it.index() as int),
                        it.index() as int,
                    ),
                    Some(e) => analyze_stmts_spec(st0, return_type, ss, 0) == (
                        self.state(),
                        crate::ast::stmts_view(done@) + ss.skip(it.index() as int),
                        Err::<(), SpecSemanticError>(e@),
                    ),
                },
        {
            let ghost k = it.index() as int;
            let ghost dv = crate::ast::stmts_view(done@);
            let ghost dd = done@;
            proof {
                assert(s == sv[k]);
                assert(ss.skip(k).drop_first() =~= ss.skip(k + 1));
                assert(ss.skip(k)[0] == ss[k]);
                crate::ast::lemma_stmts_view(dd);
            }
            if err.is_some() {
                done.push(s);
                proof {
                    assert(done@.drop_last() =~= dd);
                    assert(crate::ast::stmts_view(done@) + ss.skip(k + 1) =~= dv + ss.skip(k));
                }
            } else {
            let ghost t = dv + ss.skip(k);
            match s {
                Stmt::Return(e) => {
                    let (e2, r) = self.get_scope_data(e);
                    done.push(Stmt::Return(e2));
                    proof {
                        assert(done@.drop_last() =~= dd);
                        assert(t[k] == ss[k]);
                        assert(t.update(k, crate::ast::stmt_view(Stmt::Return(e2))) =~= crate::ast::stmts_view(done@) + ss.skip(k + 1));
                    }
                    match r {
                        Err(x) => {
                            err = Some(x);
                        },
                        Ok(sd) => {
                            if return_type != sd.data_type {
                                err = Some(SemanticError::ReturnTypeMismatch(return_type, sd.data_type));
                            }
                        },
                    }
                },
                Stmt::Var(v) => {
                    let (v2, r) = self.analyze_var(v);
                    done.push(Stmt::Var(v2));
                    proof {
                        assert(done@.drop_last() =~= dd);
                        assert(t[k] == ss[k]);
                        assert(t.update(k, crate::ast::stmt_view(Stmt::Var(v2))) =~= crate::ast::stmts_view(done@) + ss.skip(k + 1));
                    }
                    if let Err(x) = r {
                        err = Some(x);
                    }
                },
                Stmt::Assign(a) => {
                    let (a2, r) = self.analyze_assign(a);
                    done.push(Stmt::Assign(a2));
                    proof {
                        assert(done@.drop_last() =~= dd);
                        assert(t[k] == ss[k]);
                        assert(t.update(k, crate::ast::stmt_view(Stmt::Assign(a2))) =~= crate::ast::stmts_view(done@) + ss.skip(k + 1));
                    }
                    if let Err(x) = r {
                        err = Some(x);
                    }
                },
                Stmt::IfStmt(i) => {
                    done.push(Stmt::IfStmt(i));
                    proof {
                        assert(done@.drop_last() =~= dd);
                        assert(t[k] == ss[k]);
                        assert(crate::ast::stmts_view(done@) + ss.skip(k + 1) =~= t);
                    }
                },
            }
            }
        }
        proof {
            assert(ss.skip(sv.len() as int) =~= Seq::<SpecStmt>::empty());
            assert(crate::ast::stmts_view(done@) + ss.skip(sv.len() as int) =~= crate::ast::stmts_view(done@));
        }
        let ghost dvf = crate::ast::stmts_view(done@);
        proof {
            assert(f0.body.stmts == ss);
            assert(st0 == (SemState { scopes: old(self).state().scopes.push(Seq::empty()), counter: old(self).state().counter }));
            assert(done@.len() == sv.len());
            crate::ast::lemma_stmts_view(done@);
            if err is None {
                assert(analyze_stmts_spec(self.state(), return_type, dvf, sv.len() as int) == (self.state(), dvf, Ok::<(), SpecSemanticError>(())));
                assert(analyze_stmts_spec(st0, return_type, ss, 0) == (self.state(), dvf, Ok::<(), SpecSemanticError>(())));
            }
        }
        let f = FunctionDef { return_type, name, params, body: Block { stmts: done } };
        assert(f@.body == SpecBlock { stmts: dvf });
        assert(f@ == SpecFunc { body: SpecBlock { stmts: dvf }, ..f0 });
        match err {
            Some(e) => (f, Err(e)),
            None => {
                self.exit_scope();
                (f, Ok(()))
            },
        }
    }

    /// Checks a whole program in a new global scope: every error is appended
    /// to `errors`, declarations get their ids and uses of names their id and
    /// type, in place.
    pub fn analyze(&mut self, ast: &mut Ast)
        requires
            old(self).state().counter + decl_var_count(old(ast)@) <= usize::MAX,
        ensures
            ({
                let out = analyze_spec(old(self).state(), old(ast)@);
                &&& final(self).state() == out.state
                &&& final(ast)@ == out.decls
                &&& final(self).error_seq() == old(self).error_seq() + out.errors
            }),
    {
        let ghost a0 = ast@;
        let ghost e0 = sem_error_views(self.errors@);
        self.entry_scope();
        let ghost st0 = self.state();
        let ghost c0 = self.id_counter as int;
        let ghost whole = analyze_decls_spec(st0, a0, 0);
        let mut decls: Vec<Decl> = Vec::new();
        std::mem::swap(&mut decls, &mut ast.decls);
        let ghost dv = decls@;
        assert(a0 == dv.map_values(|d: Decl| d@));
        let mut done: Vec<Decl> = Vec::new();
        proof {
            assert(done@.map_values(|d: Decl| d@) + a0.skip(0) =~= a0);
        }
        for d in it: decls.into_iter()
            invariant
                it.seq() == dv,
                a0 == dv.map_values(|d: Decl| d@),
                done@.len() == it.index(),
                self.scopes.len() > 0,
                self.id_counter + decl_var_count(a0.skip(it.index() as int)) <= c0 + decl_var_count(a0),
                c0 + decl_var_count(a0) <= usize::MAX,
                ({
                    let rest = analyze_decls_spec(
                        self.state(),
                        done@.map_values(|d: Decl| d@) + a0.skip(it.index() as int),
                        it.index() as int,
                    );
                    &&& rest.state == whole.state
                    &&& rest.decls == whole.decls
                    &&& sem_error_views(self.errors@) + rest.errors == e0 + whole.errors
                }),
        {
            let ghost k = it.index() as int;
            let ghost dd = done@;
            let ghost t = dd.map_values(|d: Decl| d@) + a0.skip(k);
            let ghost ee = sem_error_views(self.errors@);
            proof {
                assert(d == dv[k]);
                assert(a0.skip(k).drop_first() =~= a0.skip(k + 1));
                assert(a0.skip(k)[0] == a0[k]);
                assert(t[k] == a0[k]);
            }
            let (d2, r) = match d {
                Decl::Var(vs) => {
                    let (v2, r) = self.analyze_var(vs);
                    (Decl::Var(v2), r)
                },
                Decl::FuncDef(fd) => {
                    let (f2, r) = self.analyze_fn(fd);
                    (Decl::FuncDef(f2), r)
                },
            };
            done.push(d2);
            proof {
                assert(t.update(k, d2@) =~= done@.map_values(|d: Decl| d@) + a0.skip(k + 1));
            }
            if let Err(e) = r {
                self.errors.push(e);
                assert(sem_error_views(self.errors@) =~= ee.push(e@));
                let ghost rest2 = analyze_decls_spec(
                    self.state(),
                    done@.map_values(|d: Decl| d@) + a0.skip(k + 1),
                    k + 1,
                );
                assert(ee + (seq![e@] + rest2.errors) =~= ee.push(e@) + rest2.errors);
            }
        }
        proof {
            assert(done@.len() == dv.len());
            assert(a0.skip(dv.len() as int) =~= Seq::<SpecDecl>::empty());
            assert(done@.map_values(|d: Decl| d@) + a0.skip(dv.len() as int) =~= done@.map_values(|d: Decl| d@));
            assert(sem_error_views(self.errors@) =~= e0 + whole.errors);
        }
        ast.decls = done;
        self.exit_scope();
    }
}

} // verus!

verus! {

/// A name just declared means what it was declared as, with the next id;
/// every other name keeps its meaning, and the next id moves on by one.
pub proof fn lemma_declare_then_lookup(st: SemState, name: Seq<char>, dt: DataType, other: Seq<char>)
    requires
        st.scopes.len() > 0,
        declare_spec(st, name, dt) is Ok,
    ensures
        match declare_spec(st, name, dt) {
            Ok((st2, id)) => {
                &&& id == st.counter
                &&& st2.counter == st.counter + 1
                &&& lookup_spec(st2.scopes, name) == Some(ScopeData { id: Some(id as usize), data_type: dt })
                &&& other != name ==> lookup_spec(st2.scopes, other) == lookup_spec(st.scopes, other)
            },
            Err(_) => false,
        },
{
    let st2 = SemState {
        scopes: st.scopes.update(
            st.scopes.len() - 1,
            st.scopes.last().push((name, ScopeData { id: Some(st.counter as usize), data_type: dt })),
        ),
        counter: st.counter + 1,
    };
    let last = st.scopes.last();
    let entry = (name, ScopeData { id: Some(st.counter as usize), data_type: dt });
    assert(st2.scopes.last() == last.push(entry));
    assert(st2.scopes.drop_last() =~= st.scopes.drop_last());
    assert(last.push(entry).drop_last() =~= last);
}

/// Entering a new, empty scope changes the meaning of no name, and leaving
/// it again gives back the scopes as they were.
pub proof fn lemma_enter_scope_keeps_meaning(scopes: Seq<SpecScope>, name: Seq<char>)
    ensures
        lookup_spec(scopes.push(Seq::empty()), name) == lookup_spec(scopes, name),
        scopes.push(Seq::empty()).drop_last() == scopes,
{
    assert(scopes.push(Seq::empty()).drop_last() =~= scopes);
    assert(scope_get(Seq::<(Seq<char>, ScopeData)>::empty(), name) is None);
}

proof fn lemma_var_keeps_outer(st: SemState, v: SpecVar)
    requires
        st.scopes.len() > 0,
    ensures
        ({
            let (st2, _, _) = analyze_var_spec(st, v);
            &&& st2.scopes.len() == st.scopes.len()
            &&& st2.scopes.drop_last() == st.scopes.drop_last()
            &&& st2.counter >= st.counter
        }),
{
    let (val, r) = resolve_spec(st.scopes, v.value);
    if let Ok(sd) = r {
        if v.data_type == sd.data_type {
            if let Ok((st2, id)) = declare_spec(st, v.name, v.data_type) {
                assert(st2.scopes.drop_last() =~= st.scopes.drop_last());
            }
        }
    }
}

proof fn lemma_stmts_keep_outer(st: SemState, rt: DataType, stmts: Seq<SpecStmt>, i: int)
    requires
        st.scopes.len() > 0,
    ensures
        ({
            let (st2, _, r) = analyze_stmts_spec(st, rt, stmts, i);
            &&& st2.scopes.len() == st.scopes.len()
            &&& st2.scopes.drop_last() == st.scopes.drop_last()
            &&& st2.counter >= st.counter
        }),
    decreases stmts.len() - i,
{
    if 0 <= i < stmts.len() {
        match stmts[i] {
            SpecStmt::Return(e) => {
                let (e2, r) = resolve_spec(st.scopes, e);
                let stmts2 = stmts.update(i, SpecStmt::Return(e2));
                lemma_stmts_keep_outer(st, rt, stmts2, i + 1);
            },
            SpecStmt::Var(v) => {
                let (st2, v2, r) = analyze_var_spec(st, v);
                lemma_var_keeps_outer(st, v);
                let stmts2 = stmts.update(i, SpecStmt::Var(v2));
                lemma_stmts_keep_outer(st2, rt, stmts2, i + 1);
            },
            SpecStmt::Assign(a) => {
                let (a2, r) = analyze_assign_spec(st.scopes, a);
                let stmts2 = stmts.update(i, SpecStmt::Assign(a2));
                lemma_stmts_keep_outer(st, rt, stmts2, i + 1);
            },
            SpecStmt::If(_) => {
                lemma_stmts_keep_outer(st, rt, stmts, i + 1);
            },
        }
    }
}

proof fn lemma_decls_restore_scopes(st: SemState, decls: Seq<SpecDecl>, i: int)
    requires
        st.scopes.len() > 0,
    ensures
        analyze_decls_spec(st, decls, i).state.counter >= st.counter,
        analyze_decls_spec(st, decls, i).errors.len() == 0 ==> {
            &&& analyze_decls_spec(st, decls, i).state.scopes.len() == st.scopes.len()
            &&& analyze_decls_spec(st, decls, i).state.scopes.drop_last() == st.scopes.drop_last()
        },
    decreases decls.len() - i,
{
    if 0 <= i < decls.len() {
        let (st2, d2, r) = analyze_decl_spec(st, decls[i]);
        match decls[i] {
            SpecDecl::Var(v) => {
                lemma_var_keeps_outer(st, v);
            },
            SpecDecl::FuncDef(f) => {
                let inner = SemState { scopes: st.scopes.push(Seq::empty()), counter: st.counter };
                let (st3, stmts, r3) = analyze_stmts_spec(inner, f.return_type, f.body.stmts, 0);
                lemma_stmts_keep_outer(inner, f.return_type, f.body.stmts, 0);
                assert(inner.scopes.drop_last() =~= st.scopes);
                if r3 is Ok {
                    assert(st3.scopes.drop_last().drop_last() =~= st.scopes.drop_last());
                }
            },
        }
        lemma_decls_restore_scopes(st2, decls.update(i, d2), i + 1);
    }
}

/// Checking a program never takes an id back; and a program without errors
/// leaves the analyzer's scopes as it found them.
pub proof fn lemma_clean_program_restores_scopes(st: SemState, decls: Seq<SpecDecl>)
    ensures
        analyze_spec(st, decls).state.counter >= st.counter,
        analyze_spec(st, decls).errors.len() == 0 ==> analyze_spec(st, decls).state.scopes
            == st.scopes,
{
    let inner = SemState { scopes: st.scopes.push(Seq::empty()), counter: st.counter };
    lemma_decls_restore_scopes(inner, decls, 0);
    let out = analyze_decls_spec(inner, decls, 0);
    if out.errors.len() == 0 {
        assert(inner.scopes.drop_last() =~= st.scopes);
        assert(out.state.scopes =~= out.state.scopes.drop_last().push(out.state.scopes.last()));
        assert(out.state.scopes.drop_last() =~= st.scopes);
    }
}


/// The id a variable declaration holds, as a list of none or one.
pub open spec fn var_ids(v: SpecVar) -> Seq<usize> {
    match v.id {
        Some(id) => seq![id],
        None => Seq::empty(),
    }
}

/// The ids held by the variable declarations among the statements, in order.
pub open spec fn stmt_ids(stmts: Seq<SpecStmt>) -> Seq<usize>
    decreases stmts.len(),
{
    if stmts.len() == 0 {
        Seq::empty()
    } else {
        (match stmts[0] {
            SpecStmt::Var(v) => var_ids(v),
            _ => Seq::empty(),
        }) + stmt_ids(stmts.drop_first())
    }
}

/// The ids held by the variable declarations of a program, global ones and
/// those in function bodies, in order.
pub open spec fn decl_ids(decls: Seq<SpecDecl>) -> Seq<usize>
    decreases decls.len(),
{
    if decls.len() == 0 {
        Seq::empty()
    } else {
        (match decls[0] {
            SpecDecl::Var(v) => var_ids(v),
            SpecDecl::FuncDef(f) => stmt_ids(f.body.stmts),
        }) + decl_ids(decls.drop_first())
    }
}

/// A statement that is no variable declaration, or one without an id yet.
pub open spec fn stmt_unnumbered(s: SpecStmt) -> bool {
    match s {
        SpecStmt::Var(v) => v.id is None,
        _ => true,
    }
}

/// A declaration in which no variable declaration holds an id yet.
pub open spec fn decl_unnumbered(d: SpecDecl) -> bool {
    match d {
        SpecDecl::Var(v) => v.id is None,
        SpecDecl::FuncDef(f) => forall|j: int|
            0 <= j < f.body.stmts.len() ==> stmt_unnumbered(#[trigger] f.body.stmts[j]),
    }
}

/// A program in which no variable declaration holds an id yet.
pub open spec fn unnumbered(decls: Seq<SpecDecl>) -> bool {
    forall|k: int| 0 <= k < decls.len() ==> decl_unnumbered(#[trigger] decls[k])
}

proof fn lemma_unnumbered_stmt_ids(stmts: Seq<SpecStmt>)
    requires
        forall|j: int| 0 <= j < stmts.len() ==> stmt_unnumbered(#[trigger] stmts[j]),
    ensures
        stmt_ids(stmts).len() == 0,
    decreases stmts.len(),
{
    if stmts.len() > 0 {
        assert(stmt_unnumbered(stmts[0]));
        let rest = stmts.drop_first();
        assert forall|j: int| 0 <= j < rest.len() implies stmt_unnumbered(#[trigger] rest[j]) by {
            assert(rest[j] == stmts[j + 1]);
        }
        lemma_unnumbered_stmt_ids(rest);
    }
}

proof fn lemma_unnumbered_decl_ids(decls: Seq<SpecDecl>)
    requires
        unnumbered(decls),
    ensures
        decl_ids(decls).len() == 0,
    decreases decls.len(),
{
    if decls.len() > 0 {
        assert(decl_unnumbered(decls[0]));
        if let SpecDecl::FuncDef(f) = decls[0] {
            lemma_unnumbered_stmt_ids(f.body.stmts);
        }
        let rest = decls.drop_first();
        assert forall|k: int| 0 <= k < rest.len() implies decl_unnumbered(#[trigger] rest[k]) by {
            assert(rest[k] == decls[k + 1]);
        }
        lemma_unnumbered_decl_ids(rest);
    }
}

/// The ids `lo, lo + 1, ..., hi - 1`, in this order.
pub open spec fn fresh_ids(ids: Seq<usize>, lo: int, hi: int) -> bool {
    &&& ids.len() == hi - lo
    &&& forall|k: int| 0 <= k < ids.len() ==> #[trigger] ids[k] == lo + k
}

proof fn lemma_fresh_concat(x: Seq<usize>, y: Seq<usize>, lo: int, mid: int, hi: int)
    requires
        fresh_ids(x, lo, mid),
        fresh_ids(y, mid, hi),
    ensures
        fresh_ids(x + y, lo, hi),
{
    assert forall|k: int| 0 <= k < (x + y).len() implies #[trigger] (x + y)[k] == lo + k by {
        if k < x.len() {
            assert((x + y)[k] == x[k]);
        } else {
            assert((x + y)[k] == y[k - x.len()]);
        }
    }
}

proof fn lemma_var_ids(st: SemState, v: SpecVar)
    requires
        v.id is None,
        0 <= st.counter < usize::MAX,
    ensures
        ({
            let (st2, v2, r) = analyze_var_spec(st, v);
            &&& st.counter <= st2.counter <= st.counter + 1
            &&& fresh_ids(var_ids(v2), st.counter, st2.counter)
        }),
{
    let (st2, v2, r) = analyze_var_spec(st, v);
    if r is Ok {
        assert(var_ids(v2) =~= seq![st.counter as usize]);
    } else {
        assert(var_ids(v2) =~= Seq::<usize>::empty());
    }
}

proof fn lemma_stmts_ids(st: SemState, rt: DataType, stmts: Seq<SpecStmt>, i: int)
    requires
        0 <= i <= stmts.len(),
        0 <= st.counter,
        st.counter + stmt_var_count(stmts.skip(i)) <= usize::MAX,
        stmt_ids(stmts.skip(i)).len() == 0,
    ensures
        ({
            let (st2, out, _) = analyze_stmts_spec(st, rt, stmts, i);
            &&& out.len() == stmts.len()
            &&& forall|j: int| 0 <= j < i ==> out[j] == stmts[j]
            &&& st.counter <= st2.counter <= st.counter + stmt_var_count(stmts.skip(i))
            &&& fresh_ids(stmt_ids(out.skip(i)), st.counter, st2.counter)
        }),
    decreases stmts.len() - i,
{
    let (st2, out, r) = analyze_stmts_spec(st, rt, stmts, i);
    if i == stmts.len() {
        assert(stmts.skip(i) =~= Seq::<SpecStmt>::empty());
        assert(out.skip(i) =~= Seq::<SpecStmt>::empty());
        assert(stmt_ids(out.skip(i)) =~= Seq::<usize>::empty());
    } else {
        let tail = stmts.skip(i + 1);
        assert(stmts.skip(i).drop_first() =~= tail);
        assert(stmts.skip(i)[0] == stmts[i]);
        let own = match stmts[i] {
            SpecStmt::Var(v) => var_ids(v),
            _ => Seq::<usize>::empty(),
        };
        assert(stmt_ids(stmts.skip(i)) == own + stmt_ids(tail));
        assert(own.len() == 0 && stmt_ids(tail).len() == 0);
        match stmts[i] {
            SpecStmt::Var(v) => {
                assert(v.id is None) by {
                    if v.id is Some {
                        assert(var_ids(v).len() == 1);
                    }
                }
                lemma_var_ids(st, v);
                let (sv, v2, rv) = analyze_var_spec(st, v);
                let stmts2 = stmts.update(i, SpecStmt::Var(v2));
                assert(stmts2.skip(i + 1) =~= tail);
                if rv is Ok {
                    lemma_stmts_ids(sv, rt, stmts2, i + 1);
                    assert(out.skip(i).drop_first() =~= out.skip(i + 1));
                    assert(out[i] == stmts2[i]);
                    assert(out.skip(i)[0] == out[i]);
                    assert(stmt_ids(out.skip(i)) == var_ids(v2) + stmt_ids(out.skip(i + 1)));
                    lemma_fresh_concat(var_ids(v2), stmt_ids(out.skip(i + 1)), st.counter, sv.counter, st2.counter);
                } else {
                    assert(out == stmts2);
                    assert(out.skip(i).drop_first() =~= out.skip(i + 1));
                    assert(out.skip(i + 1) =~= tail);
                    assert(out.skip(i)[0] == SpecStmt::Var(v2));
                    assert(stmt_ids(out.skip(i)) == var_ids(v2) + stmt_ids(tail));
                    assert(stmt_ids(out.skip(i)) =~= Seq::<usize>::empty());
                }
            },
            SpecStmt::Return(e) => {
                let (e2, re) = resolve_spec(st.scopes, e);
                let stmts2 = stmts.update(i, SpecStmt::Return(e2));
                assert(stmts2.skip(i + 1) =~= tail);
                if re is Ok && rt == re->Ok_0.data_type {
                    lemma_stmts_ids(st, rt, stmts2, i + 1);
                    assert(out.skip(i).drop_first() =~= out.skip(i + 1));
                    assert(out[i] == stmts2[i]);
                    assert(out.skip(i)[0] == out[i]);
                    assert(stmt_ids(out.skip(i)) =~= stmt_ids(out.skip(i + 1)));
                } else {
                    assert(out == stmts2);
                    assert(out.skip(i).drop_first() =~= out.skip(i + 1));
                    assert(out.skip(i + 1) =~= tail);
                    assert(out.skip(i)[0] == SpecStmt::Return(e2));
                    assert(stmt_ids(out.skip(i)) =~= Seq::<usize>::empty());
                }
            },
            SpecStmt::Assign(a) => {
                let (a2, ra) = analyze_assign_spec(st.scopes, a);
                let stmts2 = stmts.update(i, SpecStmt::Assign(a2));
                assert(stmts2.skip(i + 1) =~= tail);
                if ra is Ok {
                    lemma_stmts_ids(st, rt, stmts2, i + 1);
                    assert(out.skip(i).drop_first() =~= out.skip(i + 1));
                    assert(out[i] == stmts2[i]);
                    assert(out.skip(i)[0] == out[i]);
                    assert(stmt_ids(out.skip(i)) =~= stmt_ids(out.skip(i + 1)));
                } else {
                    assert(out == stmts2);
                    assert(out.skip(i).drop_first() =~= out.skip(i + 1));
                    assert(out.skip(i + 1) =~= tail);
                    assert(out.skip(i)[0] == SpecStmt::Assign(a2));
                    assert(stmt_ids(out.skip(i)) =~= Seq::<usize>::empty());
                }
            },
            SpecStmt::If(_) => {
                lemma_stmts_ids(st, rt, stmts, i + 1);
                assert(out.skip(i).drop_first() =~= out.skip(i + 1));
                assert(out.skip(i)[0] == stmts[i]);
                assert(stmt_ids(out.skip(i)) =~= stmt_ids(out.skip(i + 1)));
            },
        }
    }
}

proof fn lemma_single_decl(d: SpecDecl)
    ensures
        decl_ids(seq![d]) == match d {
            SpecDecl::Var(v) => var_ids(v),
            SpecDecl::FuncDef(f) => stmt_ids(f.body.stmts),
        },
        decl_var_count(seq![d]) == match d {
            SpecDecl::Var(_) => 1nat,
            SpecDecl::FuncDef(f) => stmt_var_count(f.body.stmts),
        },
{
    let e = Seq::<SpecDecl>::empty();
    assert(seq![d].drop_first() =~= e);
    assert(seq![d][0] == d);
    assert(decl_ids(e) == Seq::<usize>::empty());
    assert(decl_var_count(e) == 0);
    assert(decl_ids(seq![d]) =~= match d {
        SpecDecl::Var(v) => var_ids(v),
        SpecDecl::FuncDef(f) => stmt_ids(f.body.stmts),
    });
}

proof fn lemma_decl_ids(st: SemState, d: SpecDecl)
    requires
        0 <= st.counter,
        st.counter + decl_var_count(seq![d]) <= usize::MAX,
        decl_ids(seq![d]).len() == 0,
    ensures
        ({
            let (st2, d2, _) = analyze_decl_spec(st, d);
            &&& st.counter <= st2.counter <= st.counter + decl_var_count(seq![d])
            &&& fresh_ids(decl_ids(seq![d2]), st.counter, st2.counter)
        }),
{
    let (st2, d2, _) = analyze_decl_spec(st, d);
    lemma_single_decl(d);
    lemma_single_decl(d2);
    match d {
        SpecDecl::Var(v) => {
            assert(decl_ids(seq![d]) == var_ids(v) + Seq::<usize>::empty());
            assert(v.id is None) by {
                if v.id is Some {
                    assert(var_ids(v).len() == 1);
                }
            }
            lemma_var_ids(st, v);
            let (_, v2, _) = analyze_var_spec(st, v);
            assert(decl_ids(seq![d2]) =~= var_ids(v2));
        },
        SpecDecl::FuncDef(f) => {
            let ss = f.body.stmts;
            assert(decl_ids(seq![d]) =~= stmt_ids(ss));
            assert(decl_var_count(seq![d]) == stmt_var_count(ss));
            assert(ss.skip(0) =~= ss);
            let inner = SemState { scopes: st.scopes.push(Seq::empty()), counter: st.counter };
            lemma_stmts_ids(inner, f.return_type, ss, 0);
            let (_, out, _) = analyze_stmts_spec(inner, f.return_type, ss, 0);
            assert(out.skip(0) =~= out);
            assert(decl_ids(seq![d2]) =~= stmt_ids(out));
        },
    }
}

proof fn lemma_decls_ids(st: SemState, decls: Seq<SpecDecl>, i: int)
    requires
        0 <= i <= decls.len(),
        0 <= st.counter,
        st.counter + decl_var_count(decls.skip(i)) <= usize::MAX,
        decl_ids(decls.skip(i)).len() == 0,
    ensures
        ({
            let out = analyze_decls_spec(st, decls, i);
            &&& out.decls.len() == decls.len()
            &&& forall|j: int| 0 <= j < i ==> out.decls[j] == decls[j]
            &&& st.counter <= out.state.counter <= st.counter + decl_var_count(decls.skip(i))
            &&& fresh_ids(decl_ids(out.decls.skip(i)), st.counter, out.state.counter)
        }),
    decreases decls.len() - i,
{
    let out = analyze_decls_spec(st, decls, i);
    if i == decls.len() {
        assert(out.decls.skip(i) =~= Seq::<SpecDecl>::empty());
        assert(decl_ids(out.decls.skip(i)) =~= Seq::<usize>::empty());
    } else {
        let d = decls[i];
        let tail = decls.skip(i + 1);
        assert(decls.skip(i).drop_first() =~= tail);
        assert(decls.skip(i)[0] == d);
        lemma_single_decl(d);
        let own = match d {
            SpecDecl::Var(v) => var_ids(v),
            SpecDecl::FuncDef(f) => stmt_ids(f.body.stmts),
        };
        assert(decl_ids(seq![d]) =~= own);
        assert(decl_ids(decls.skip(i)) == own + decl_ids(tail));
        assert(decl_var_count(seq![d]) + decl_var_count(tail) == decl_var_count(decls.skip(i)));
        lemma_decl_ids(st, d);
        let (st2, d2, _) = analyze_decl_spec(st, d);
        let decls2 = decls.update(i, d2);
        assert(decls2.skip(i + 1) =~= tail);
        lemma_decls_ids(st2, decls2, i + 1);
        let rest = analyze_decls_spec(st2, decls2, i + 1);
        assert(out.decls == rest.decls && out.state == rest.state);
        assert(decls2[i] == d2);
        assert forall|j: int| 0 <= j < i implies rest.decls[j] == decls[j] by {
            assert(decls2[j] == decls[j]);
        }
        assert(rest.decls[i] == d2);
        assert(rest.decls.skip(i).drop_first() =~= rest.decls.skip(i + 1));
        assert(rest.decls.skip(i)[0] == d2);
        lemma_single_decl(d2);
        assert(decl_ids(seq![d2]) =~= match d2 {
            SpecDecl::Var(v) => var_ids(v),
            SpecDecl::FuncDef(f) => stmt_ids(f.body.stmts),
        });
        assert(decl_ids(rest.decls.skip(i)) == decl_ids(seq![d2]) + decl_ids(rest.decls.skip(i + 1)));
        lemma_fresh_concat(
            decl_ids(seq![d2]),
            decl_ids(rest.decls.skip(i + 1)),
            st.counter,
            st2.counter,
            rest.state.counter,
        );
    }
}

/// Every variable declaration that the analysis accepts gets an id of its
/// own: in a program whose declarations hold no id yet (as the parser leaves
/// them, see `lemma_parse_leaves_unnumbered`), the ids after the analysis
/// are, in program order, exactly the counter before the analysis, the next
/// number, and so on up to just below the counter after it. So the ids are
/// consecutive, no two declarations share one, and no later analysis by the
/// same analyzer gives one out again.
pub proof fn lemma_ids_are_fresh(st: SemState, decls: Seq<SpecDecl>)
    requires
        0 <= st.counter,
        st.counter + decl_var_count(decls) <= usize::MAX,
        unnumbered(decls),
    ensures
        fresh_ids(decl_ids(analyze_spec(st, decls).decls), st.counter, analyze_spec(st, decls).state.counter),
{
    let inner = SemState { scopes: st.scopes.push(Seq::empty()), counter: st.counter };
    lemma_unnumbered_decl_ids(decls);
    assert(decls.skip(0) =~= decls);
    lemma_decls_ids(inner, decls, 0);
    let out = analyze_decls_spec(inner, decls, 0);
    assert(out.decls.skip(0) =~= out.decls);
}


/// An expression with every name's id and type taken away.
pub open spec fn erase_expr(e: SpecExpr) -> SpecExpr
    decreases e,
{
    match e {
        SpecExpr::Ident(i) => SpecExpr::Ident(SpecIdent { name: i.name, id: None, data_type: None }),
        SpecExpr::Binary(l, op, r) => SpecExpr::Binary(Box::new(erase_expr(*l)), op, Box::new(erase_expr(*r))),
        _ => e,
    }
}

pub open spec fn erase_var(v: SpecVar) -> SpecVar {
    SpecVar { value: erase_expr(v.value), id: None, ..v }
}

/// A statement with the ids and types that the analysis fills taken away.
pub open spec fn erase_stmt(s: SpecStmt) -> SpecStmt {
    match s {
        SpecStmt::Return(e) => SpecStmt::Return(erase_expr(e)),
        SpecStmt::Var(v) => SpecStmt::Var(erase_var(v)),
        SpecStmt::Assign(a) => SpecStmt::Assign(
            SpecAssign { target: erase_expr(a.target), value: erase_expr(a.value) },
        ),
        SpecStmt::If(i) => SpecStmt::If(i),
    }
}

/// A declaration with the ids and types that the analysis fills taken away.
pub open spec fn erase_decl(d: SpecDecl) -> SpecDecl {
    match d {
        SpecDecl::Var(v) => SpecDecl::Var(erase_var(v)),
        SpecDecl::FuncDef(f) => SpecDecl::FuncDef(
            SpecFunc { body: SpecBlock { stmts: f.body.stmts.map_values(|s: SpecStmt| erase_stmt(s)) }, ..f },
        ),
    }
}

pub open spec fn erase_decls(ds: Seq<SpecDecl>) -> Seq<SpecDecl> {
    ds.map_values(|d: SpecDecl| erase_decl(d))
}

proof fn lemma_resolve_erase(scopes: Seq<SpecScope>, e: SpecExpr)
    ensures
        erase_expr(resolve_spec(scopes, e).0) == erase_expr(e),
    decreases e,
{
    if let SpecExpr::Binary(l, op, r) = e {
        lemma_resolve_erase(scopes, *l);
        let (l2, lr) = resolve_spec(scopes, *l);
        if lr is Ok {
            lemma_resolve_erase(scopes, *r);
        }
    }
}

proof fn lemma_stmts_erase(st: SemState, rt: DataType, stmts: Seq<SpecStmt>, i: int)
    ensures
        analyze_stmts_spec(st, rt, stmts, i).1.map_values(|s: SpecStmt| erase_stmt(s))
            == stmts.map_values(|s: SpecStmt| erase_stmt(s)),
    decreases stmts.len() - i,
{
    if 0 <= i < stmts.len() {
        let x = match stmts[i] {
            SpecStmt::Return(e) => SpecStmt::Return(resolve_spec(st.scopes, e).0),
            SpecStmt::Var(v) => SpecStmt::Var(analyze_var_spec(st, v).1),
            SpecStmt::Assign(a) => SpecStmt::Assign(analyze_assign_spec(st.scopes, a).0),
            SpecStmt::If(f) => SpecStmt::If(f),
        };
        match stmts[i] {
            SpecStmt::Return(e) => lemma_resolve_erase(st.scopes, e),
            SpecStmt::Var(v) => lemma_resolve_erase(st.scopes, v.value),
            SpecStmt::Assign(a) => {
                lemma_resolve_erase(st.scopes, a.target);
                lemma_resolve_erase(st.scopes, resolve_spec(st.scopes, a.target).0);
            },
            SpecStmt::If(_) => {},
        }
        assert(erase_stmt(x) == erase_stmt(stmts[i]));
        let stmts2 = stmts.update(i, x);
        assert(stmts2.map_values(|s: SpecStmt| erase_stmt(s)) =~= stmts.map_values(|s: SpecStmt| erase_stmt(s)));
        match stmts[i] {
            SpecStmt::Return(e) => lemma_stmts_erase(st, rt, stmts2, i + 1),
            SpecStmt::Var(v) => lemma_stmts_erase(analyze_var_spec(st, v).0, rt, stmts2, i + 1),
            SpecStmt::Assign(a) => lemma_stmts_erase(st, rt, stmts2, i + 1),
            SpecStmt::If(_) => {
                assert(stmts2 =~= stmts);
                lemma_stmts_erase(st, rt, stmts, i + 1);
            },
        }
    }
}

proof fn lemma_decls_erase(st: SemState, decls: Seq<SpecDecl>, i: int)
    ensures
        erase_decls(analyze_decls_spec(st, decls, i).decls) == erase_decls(decls),
    decreases decls.len() - i,
{
    if 0 <= i < decls.len() {
        let (st2, d2, _) = analyze_decl_spec(st, decls[i]);
        match decls[i] {
            SpecDecl::Var(v) => lemma_resolve_erase(st.scopes, v.value),
            SpecDecl::FuncDef(f) => {
                let inner = SemState { scopes: st.scopes.push(Seq::empty()), counter: st.counter };
                lemma_stmts_erase(inner, f.return_type, f.body.stmts, 0);
            },
        }
        assert(erase_decl(d2) == erase_decl(decls[i]));
        let decls2 = decls.update(i, d2);
        assert(erase_decls(decls2) =~= erase_decls(decls));
        lemma_decls_erase(st2, decls2, i + 1);
    }
}

/// The analysis changes nothing in a program but ids and types: the id of
/// each variable declaration, and the id and type of each name in an
/// expression. Everything else, `if` statements included, stays as it was.
pub proof fn lemma_analysis_only_numbers(st: SemState, decls: Seq<SpecDecl>)
    ensures
        erase_decls(analyze_spec(st, decls).decls) == erase_decls(decls),
{
    let inner = SemState { scopes: st.scopes.push(Seq::empty()), counter: st.counter };
    lemma_decls_erase(inner, decls, 0);
}


/// No name is declared twice in one scope.
pub open spec fn scope_unique(sc: SpecScope) -> bool {
    forall|a: int, b: int| 0 <= a < b < sc.len() ==> #[trigger] sc[a].0 != #[trigger] sc[b].0
}

pub open spec fn scopes_unique(scopes: Seq<SpecScope>) -> bool {
    forall|k: int| 0 <= k < scopes.len() ==> scope_unique(#[trigger] scopes[k])
}

proof fn lemma_scope_get_absent(sc: SpecScope, name: Seq<char>)
    requires
        scope_get(sc, name) is None,
    ensures
        forall|a: int| 0 <= a < sc.len() ==> #[trigger] sc[a].0 != name,
    decreases sc.len(),
{
    if sc.len() > 0 {
        lemma_scope_get_absent(sc.drop_last(), name);
        assert forall|a: int| 0 <= a < sc.len() implies #[trigger] sc[a].0 != name by {
            if a < sc.len() - 1 {
                assert(sc[a] == sc.drop_last()[a]);
            }
        }
    }
}

proof fn lemma_declare_unique(st: SemState, name: Seq<char>, dt: DataType)
    requires
        scopes_unique(st.scopes),
        st.scopes.len() > 0,
    ensures
        declare_spec(st, name, dt) matches Ok((s2, _)) ==> scopes_unique(s2.scopes) && s2.scopes.len()
            == st.scopes.len(),
{
    if scope_get(st.scopes.last(), name) is None {
        lemma_scope_get_absent(st.scopes.last(), name);
        let last = st.scopes.last();
        let entry = (name, ScopeData { id: Some(st.counter as usize), data_type: dt });
        let l2 = last.push(entry);
        let sc2 = st.scopes.update(st.scopes.len() - 1, l2);
        assert(scope_unique(last));
        assert(scope_unique(l2)) by {
            assert forall|a: int, b: int| 0 <= a < b < l2.len() implies #[trigger] l2[a].0 != #[trigger] l2[b].0 by {
                assert(l2[a] == last[a]);
                if b < last.len() {
                    assert(l2[b] == last[b]);
                }
            }
        }
        assert forall|k: int| 0 <= k < sc2.len() implies scope_unique(#[trigger] sc2[k]) by {
            if k < st.scopes.len() - 1 {
                assert(sc2[k] == st.scopes[k]);
            }
        }
    }
}

proof fn lemma_stmts_unique(st: SemState, rt: DataType, stmts: Seq<SpecStmt>, i: int)
    requires
        scopes_unique(st.scopes),
        st.scopes.len() > 0,
    ensures
        scopes_unique(analyze_stmts_spec(st, rt, stmts, i).0.scopes),
        analyze_stmts_spec(st, rt, stmts, i).0.scopes.len() == st.scopes.len(),
    decreases stmts.len() - i,
{
    if 0 <= i < stmts.len() {
        match stmts[i] {
            SpecStmt::Return(e) => {
                let (e2, r) = resolve_spec(st.scopes, e);
                lemma_stmts_unique(st, rt, stmts.update(i, SpecStmt::Return(e2)), i + 1);
            },
            SpecStmt::Var(v) => {
                lemma_declare_unique(st, v.name, v.data_type);
                let (st2, v2, r) = analyze_var_spec(st, v);
                lemma_stmts_unique(st2, rt, stmts.update(i, SpecStmt::Var(v2)), i + 1);
            },
            SpecStmt::Assign(a) => {
                let (a2, r) = analyze_assign_spec(st.scopes, a);
                lemma_stmts_unique(st, rt, stmts.update(i, SpecStmt::Assign(a2)), i + 1);
            },
            SpecStmt::If(_) => lemma_stmts_unique(st, rt, stmts, i + 1),
        }
    }
}

proof fn lemma_decls_unique(st: SemState, decls: Seq<SpecDecl>, i: int)
    requires
        scopes_unique(st.scopes),
        st.scopes.len() > 0,
    ensures
        scopes_unique(analyze_decls_spec(st, decls, i).state.scopes),
        analyze_decls_spec(st, decls, i).state.scopes.len() >= st.scopes.len(),
    decreases decls.len() - i,
{
    if 0 <= i < decls.len() {
        let (st2, d2, _) = analyze_decl_spec(st, decls[i]);
        match decls[i] {
            SpecDecl::Var(v) => {
                lemma_declare_unique(st, v.name, v.data_type);
            },
            SpecDecl::FuncDef(f) => {
                let inner = SemState { scopes: st.scopes.push(Seq::empty()), counter: st.counter };
                assert forall|k: int| 0 <= k < inner.scopes.len() implies scope_unique(#[trigger] inner.scopes[k]) by {
                    if k < st.scopes.len() {
                        assert(inner.scopes[k] == st.scopes[k]);
                    }
                }
                lemma_stmts_unique(inner, f.return_type, f.body.stmts, 0);
                let out = analyze_stmts_spec(inner, f.return_type, f.body.stmts, 0).0;
                assert forall|k: int| 0 <= k < out.scopes.drop_last().len() implies scope_unique(
                    #[trigger] out.scopes.drop_last()[k],
                ) by {
                    assert(out.scopes.drop_last()[k] == out.scopes[k]);
                }
            },
        }
        assert(st2.scopes.len() > 0) by {
            lemma_var_or_fn_keeps_depth(st, decls[i]);
        }
        lemma_decls_unique(st2, decls.update(i, d2), i + 1);
    }
}

proof fn lemma_var_or_fn_keeps_depth(st: SemState, d: SpecDecl)
    requires
        st.scopes.len() > 0,
    ensures
        analyze_decl_spec(st, d).0.scopes.len() >= st.scopes.len(),
{
    match d {
        SpecDecl::Var(v) => lemma_var_keeps_outer(st, v),
        SpecDecl::FuncDef(f) => {
            let inner = SemState { scopes: st.scopes.push(Seq::empty()), counter: st.counter };
            lemma_stmts_keep_outer(inner, f.return_type, f.body.stmts, 0);
        },
    }
}

/// No name is ever declared twice in one scope: starting from scopes in
/// which each name occurs at most once (as a new analyzer has them), the
/// analysis of any program leaves them so. A declaration enters a scope
/// only when that scope does not hold its name.
pub proof fn lemma_scopes_stay_unique(st: SemState, decls: Seq<SpecDecl>)
    requires
        scopes_unique(st.scopes),
    ensures
        scopes_unique(analyze_spec(st, decls).state.scopes),
{
    let inner = SemState { scopes: st.scopes.push(Seq::empty()), counter: st.counter };
    assert forall|k: int| 0 <= k < inner.scopes.len() implies scope_unique(#[trigger] inner.scopes[k]) by {
        if k < st.scopes.len() {
            assert(inner.scopes[k] == st.scopes[k]);
        }
    }
    lemma_decls_unique(inner, decls, 0);
    let out = analyze_decls_spec(inner, decls, 0).state;
    assert forall|k: int| 0 <= k < out.scopes.drop_last().len() implies scope_unique(
        #[trigger] out.scopes.drop_last()[k],
    ) by {
        assert(out.scopes.drop_last()[k] == out.scopes[k]);
    }
}


/// The type of a resolved expression: an integer literal is `int`, a string
/// `char*`, the empty expression `void`, a name the type it was resolved
/// to, and a binary expression the type of its left operand.
pub open spec fn expr_type(e: SpecExpr) -> Option<DataType>
    decreases e,
{
    match e {
        SpecExpr::Int32(_) => Some(DataType::Int),
        SpecExpr::Str(_) => Some(DataType::CharPtr),
        SpecExpr::Ident(i) => i.data_type,
        SpecExpr::Binary(l, _, _) => expr_type(*l),
        SpecExpr::Empty => Some(DataType::Void),
    }
}

/// Every `return` among the statements returns a value of type `rt`.
pub open spec fn returns_typed(ss: Seq<SpecStmt>, rt: DataType) -> bool {
    forall|k: int| 0 <= k < ss.len() ==> (#[trigger] ss[k] matches SpecStmt::Return(e) ==> expr_type(e) == Some(rt))
}

proof fn lemma_resolve_type(scopes: Seq<SpecScope>, e: SpecExpr)
    ensures
        resolve_spec(scopes, e).1 matches Ok(sd) ==> expr_type(resolve_spec(scopes, e).0) == Some(sd.data_type),
    decreases e,
{
    if let SpecExpr::Binary(l, op, r) = e {
        lemma_resolve_type(scopes, *l);
    }
}

proof fn lemma_stmts_keep_prefix(st: SemState, rt: DataType, stmts: Seq<SpecStmt>, i: int)
    requires
        0 <= i,
    ensures
        analyze_stmts_spec(st, rt, stmts, i).1.len() == stmts.len(),
        forall|j: int| 0 <= j < i && j < stmts.len() ==> #[trigger] analyze_stmts_spec(st, rt, stmts, i).1[j]
            == stmts[j],
    decreases stmts.len() - i,
{
    if i < stmts.len() {
        match stmts[i] {
            SpecStmt::Return(e) => {
                let s2 = stmts.update(i, SpecStmt::Return(resolve_spec(st.scopes, e).0));
                lemma_stmts_keep_prefix(st, rt, s2, i + 1);
            },
            SpecStmt::Var(v) => {
                let (st2, v2, _) = analyze_var_spec(st, v);
                lemma_stmts_keep_prefix(st2, rt, stmts.update(i, SpecStmt::Var(v2)), i + 1);
            },
            SpecStmt::Assign(a) => {
                let s2 = stmts.update(i, SpecStmt::Assign(analyze_assign_spec(st.scopes, a).0));
                lemma_stmts_keep_prefix(st, rt, s2, i + 1);
            },
            SpecStmt::If(_) => lemma_stmts_keep_prefix(st, rt, stmts, i + 1),
        }
    }
}

proof fn lemma_returns_checked(st: SemState, rt: DataType, stmts: Seq<SpecStmt>, i: int)
    requires
        0 <= i,
    ensures
        ({
            let (_, out, r) = analyze_stmts_spec(st, rt, stmts, i);
            r is Ok ==> forall|k: int|
                i <= k < out.len() ==> (#[trigger] out[k] matches SpecStmt::Return(e) ==> expr_type(e) == Some(rt))
        }),
    decreases stmts.len() - i,
{
    if i < stmts.len() {
        let (_, out, r) = analyze_stmts_spec(st, rt, stmts, i);
        match stmts[i] {
            SpecStmt::Return(e) => {
                let (e2, re) = resolve_spec(st.scopes, e);
                let s2 = stmts.update(i, SpecStmt::Return(e2));
                lemma_resolve_type(st.scopes, e);
                lemma_returns_checked(st, rt, s2, i + 1);
                lemma_stmts_keep_prefix(st, rt, s2, i + 1);
                if r is Ok {
                    assert(out[i] == s2[i]);
                }
            },
            SpecStmt::Var(v) => {
                let (st2, v2, _) = analyze_var_spec(st, v);
                let s2 = stmts.update(i, SpecStmt::Var(v2));
                lemma_returns_checked(st2, rt, s2, i + 1);
                lemma_stmts_keep_prefix(st2, rt, s2, i + 1);
                if r is Ok {
                    assert(out[i] == s2[i]);
                }
            },
            SpecStmt::Assign(a) => {
                let s2 = stmts.update(i, SpecStmt::Assign(analyze_assign_spec(st.scopes, a).0));
                lemma_returns_checked(st, rt, s2, i + 1);
                lemma_stmts_keep_prefix(st, rt, s2, i + 1);
                if r is Ok {
                    assert(out[i] == s2[i]);
                }
            },
            SpecStmt::If(_) => {
                lemma_returns_checked(st, rt, stmts, i + 1);
                lemma_stmts_keep_prefix(st, rt, stmts, i + 1);
            },
        }
    }
}

/// A function passes the analysis only if each of its `return` statements
/// returns a value of the function's type: a `void` function may return
/// nothing, and an `int` function an `int`.
pub proof fn lemma_function_returns_its_type(st: SemState, f: SpecFunc)
    ensures
        ({
            let (_, f2, r) = analyze_fn_spec(st, f);
            &&& f2.return_type == f.return_type
            &&& r is Ok ==> returns_typed(f2.body.stmts, f.return_type)
        }),
{
    let inner = SemState { scopes: st.scopes.push(Seq::empty()), counter: st.counter };
    lemma_returns_checked(inner, f.return_type, f.body.stmts, 0);
}

proof fn lemma_decls_keep_prefix(st: SemState, decls: Seq<SpecDecl>, i: int)
    requires
        0 <= i,
    ensures
        analyze_decls_spec(st, decls, i).decls.len() == decls.len(),
        forall|j: int| 0 <= j < i && j < decls.len() ==> #[trigger] analyze_decls_spec(st, decls, i).decls[j]
            == decls[j],
    decreases decls.len() - i,
{
    if i < decls.len() {
        let (st2, d2, _) = analyze_decl_spec(st, decls[i]);
        lemma_decls_keep_prefix(st2, decls.update(i, d2), i + 1);
    }
}

proof fn lemma_decls_returns(st: SemState, decls: Seq<SpecDecl>, i: int)
    requires
        0 <= i,
    ensures
        ({
            let out = analyze_decls_spec(st, decls, i);
            out.errors.len() == 0 ==> forall|k: int|
                i <= k < out.decls.len() ==> (#[trigger] out.decls[k] matches SpecDecl::FuncDef(f)
                    ==> returns_typed(f.body.stmts, f.return_type))
        }),
    decreases decls.len() - i,
{
    if i < decls.len() {
        let (st2, d2, r) = analyze_decl_spec(st, decls[i]);
        let decls2 = decls.update(i, d2);
        lemma_decls_returns(st2, decls2, i + 1);
        lemma_decls_keep_prefix(st2, decls2, i + 1);
        let out = analyze_decls_spec(st, decls, i);
        if out.errors.len() == 0 {
            assert(r is Ok);
            assert(out.decls[i] == d2);
            if let SpecDecl::FuncDef(f) = decls[i] {
                lemma_function_returns_its_type(st, f);
            }
        }
    }
}

/// In a program the analysis reports no error for, every `return` of every
/// function returns a value of the function's type.
pub proof fn lemma_clean_program_returns_typed(st: SemState, decls: Seq<SpecDecl>)
    ensures
        ({
            let out = analyze_spec(st, decls);
            out.errors.len() == 0 ==> forall|k: int|
                0 <= k < out.decls.len() ==> (#[trigger] out.decls[k] matches SpecDecl::FuncDef(f)
                    ==> returns_typed(f.body.stmts, f.return_type))
        }),
{
    let inner = SemState { scopes: st.scopes.push(Seq::empty()), counter: st.counter };
    lemma_decls_returns(inner, decls, 0);
}

} // verus!
