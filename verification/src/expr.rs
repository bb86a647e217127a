use vstd::prelude::*;

verus! {

broadcast use vstd::std_specs::vec::group_vec_axioms;

/// Literal values and primitive operations built into the core language.
#[derive(Debug, Clone, PartialEq, Eq, Hash)]
pub enum Builtin {
    String(String),
    StringTy,
    Num(usize),
    NumTy,
    Bool(bool),
    BoolTy,
    StringCmp,
    NumCmp,
    BoolCmp,
    Fix,
    TypeHole,
}

/// Errors recorded inside an expression tree.
#[derive(Debug, Clone, PartialEq, Eq, Hash)]
pub enum ExprError<T> {
    MissingBinder(T),
    MissingValue(T),
    MissingType(T),
    InvalidBinder(T),
    InvalidBinderName(T),
    InvalidBinderParam(T),
    ArbitraryBinding(T),
    ArbitraryAnn(T),
    ResolveFailed(String, Vec<usize>, Vec<VarKind<String, String>>),
    Unknown,
}

/// One layer of an expression; `T` is the type of the children.
#[derive(Debug, Clone, PartialEq, Eq, Hash)]
pub enum ExprF<T, A, B, E> {
    Var { idx: A },
    App { func: T, arg: T },
    Lambda { name: B, param_ty: T, body: T },
    Pi { name: B, param_ty: T, ret_ty: T },
    Type,
    Builtin(Builtin),
    Error(ExprError<E>, Vec<T>),
}

/// A variable reference: either by name or by de Bruijn index.
#[derive(Debug, Clone, PartialEq, Eq, Hash)]
pub enum VarKind<A, B> {
    Named(A),
    Idx(B),
}

/// An expression tree; each variant mirrors the layer of the same name in [`ExprF`].
#[derive(Debug, PartialEq, Eq)]
pub enum GExpr<A, B, E> {
    Var { idx: A },
    App { func: Box<GExpr<A, B, E>>, arg: Box<GExpr<A, B, E>> },
    Lambda { name: B, param_ty: Box<GExpr<A, B, E>>, body: Box<GExpr<A, B, E>> },
    Pi { name: B, param_ty: Box<GExpr<A, B, E>>, ret_ty: Box<GExpr<A, B, E>> },
    Type,
    Builtin(Builtin),
    Error(ExprError<E>, Vec<Box<GExpr<A, B, E>>>),
}

/// Expressions with de Bruijn indices; the string is a name hint for binders.
pub type Expr = GExpr<usize, String, Vec<usize>>;

/// Expressions whose variables may still be names.
pub type NamedExpr = GExpr<VarKind<String, usize>, VarKind<String, String>, Vec<usize>>;

// ---------------------------------------------------------------------------
// Mathematical model
// ---------------------------------------------------------------------------

/// The value of a builtin, with strings seen as character sequences.
pub enum BuiltinV {
    String(Seq<char>),
    StringTy,
    Num(usize),
    NumTy,
    Bool(bool),
    BoolTy,
    StringCmp,
    NumCmp,
    BoolCmp,
    Fix,
    TypeHole,
}

impl View for Builtin {
    type V = BuiltinV;

    open spec fn view(&self) -> BuiltinV {
        match self {
            Builtin::String(s) => BuiltinV::String(s@),
            Builtin::StringTy => BuiltinV::StringTy,
            Builtin::Num(n) => BuiltinV::Num(*n),
            Builtin::NumTy => BuiltinV::NumTy,
            Builtin::Bool(b) => BuiltinV::Bool(*b),
            Builtin::BoolTy => BuiltinV::BoolTy,
            Builtin::StringCmp => BuiltinV::StringCmp,
            Builtin::NumCmp => BuiltinV::NumCmp,
            Builtin::BoolCmp => BuiltinV::BoolCmp,
            Builtin::Fix => BuiltinV::Fix,
            Builtin::TypeHole => BuiltinV::TypeHole,
        }
    }
}

impl<A: View, B: View> View for VarKind<A, B> {
    type V = VarKind<A::V, B::V>;

    open spec fn view(&self) -> VarKind<A::V, B::V> {
        match self {
            VarKind::Named(a) => VarKind::Named(a@),
            VarKind::Idx(b) => VarKind::Idx(b@),
        }
    }
}

/// The value of an error record, with paths and names seen as sequences.
pub enum ExprErrorV {
    MissingBinder(Seq<usize>),
    MissingValue(Seq<usize>),
    MissingType(Seq<usize>),
    InvalidBinder(Seq<usize>),
    InvalidBinderName(Seq<usize>),
    InvalidBinderParam(Seq<usize>),
    ArbitraryBinding(Seq<usize>),
    ArbitraryAnn(Seq<usize>),
    ResolveFailed(Seq<char>, Seq<usize>, Seq<VarKind<Seq<char>, Seq<char>>>),
    Unknown,
}

impl View for ExprError<Vec<usize>> {
    type V = ExprErrorV;

    open spec fn view(&self) -> ExprErrorV {
        match self {
            ExprError::MissingBinder(p) => ExprErrorV::MissingBinder(p@),
            ExprError::MissingValue(p) => ExprErrorV::MissingValue(p@),
            ExprError::MissingType(p) => ExprErrorV::MissingType(p@),
            ExprError::InvalidBinder(p) => ExprErrorV::InvalidBinder(p@),
            ExprError::InvalidBinderName(p) => ExprErrorV::InvalidBinderName(p@),
            ExprError::InvalidBinderParam(p) => ExprErrorV::InvalidBinderParam(p@),
            ExprError::ArbitraryBinding(p) => ExprErrorV::ArbitraryBinding(p@),
            ExprError::ArbitraryAnn(p) => ExprErrorV::ArbitraryAnn(p@),
            ExprError::ResolveFailed(s, p, ctx) => ExprErrorV::ResolveFailed(
                s@,
                p@,
                ctx@.map_values(|k: VarKind<String, String>| k@),
            ),
            ExprError::Unknown => ExprErrorV::Unknown,
        }
    }
}

/// The mathematical value of an expression tree.
pub enum Tm<A, B> {
    Var(A),
    App(Box<Tm<A, B>>, Box<Tm<A, B>>),
    Lam(B, Box<Tm<A, B>>, Box<Tm<A, B>>),
    Pi(B, Box<Tm<A, B>>, Box<Tm<A, B>>),
    Type,
    Lit(BuiltinV),
    Fail(ExprErrorV, Seq<Tm<A, B>>),
}

/// Terms over de Bruijn indices.
pub type Term = Tm<usize, Seq<char>>;

/// Terms whose variables may be names.
pub type NamedTerm = Tm<VarKind<Seq<char>, usize>, VarKind<Seq<char>, Seq<char>>>;

pub open spec fn tm_of<A: View, B: View>(e: GExpr<A, B, Vec<usize>>) -> Tm<A::V, B::V>
    decreases e, 0nat,
{
    match e {
        GExpr::Var { idx } => Tm::Var(idx@),
        GExpr::App { func, arg } => Tm::App(Box::new(tm_of(*func)), Box::new(tm_of(*arg))),
        GExpr::Lambda { name, param_ty, body } => Tm::Lam(
            name@,
            Box::new(tm_of(*param_ty)),
            Box::new(tm_of(*body)),
        ),
        GExpr::Pi { name, param_ty, ret_ty } => Tm::Pi(
            name@,
            Box::new(tm_of(*param_ty)),
            Box::new(tm_of(*ret_ty)),
        ),
        GExpr::Type => Tm::Type,
        GExpr::Builtin(b) => Tm::Lit(b@),
        GExpr::Error(err, items) => Tm::Fail(err@, tms_of(items@)),
    }
}

pub open spec fn tms_of<A: View, B: View>(s: Seq<Box<GExpr<A, B, Vec<usize>>>>) -> Seq<
    Tm<A::V, B::V>,
>
    decreases s, s.len(),
{
    if s.len() == 0 {
        Seq::empty()
    } else {
        tms_of(s.drop_last()).push(tm_of(*s.last()))
    }
}

impl View for GExpr<usize, String, Vec<usize>> {
    type V = Term;

    open spec fn view(&self) -> Term {
        tm_of(*self)
    }
}

impl View for GExpr<VarKind<String, usize>, VarKind<String, String>, Vec<usize>> {
    type V = NamedTerm;

    open spec fn view(&self) -> NamedTerm {
        tm_of(*self)
    }
}

pub proof fn lemma_tms_of_push<A: View, B: View>(s: Seq<Box<GExpr<A, B, Vec<usize>>>>, x: Box<GExpr<A, B, Vec<usize>>>)
    ensures
        tms_of(s.push(x)) == tms_of(s).push(tm_of(*x)),
{
    assert(s.push(x).drop_last() =~= s);
}

pub proof fn lemma_tms_of_len<A: View, B: View>(s: Seq<Box<GExpr<A, B, Vec<usize>>>>)
    ensures
        tms_of(s).len() == s.len(),
        forall|i: int| 0 <= i < s.len() ==> #[trigger] tms_of(s)[i] == tm_of(*s[i]),
    decreases s.len(),
{
    if s.len() > 0 {
        lemma_tms_of_len(s.drop_last());
    }
}

// ---------------------------------------------------------------------------
// Copies and comparisons
// ---------------------------------------------------------------------------

/// Copies a path.
pub fn clone_path(p: &Vec<usize>) -> (r: Vec<usize>)
    ensures
        r@ == p@,
{
    let r = p.clone();
    assert(r@ =~= p@);
    r
}

/// Copies a binder name of a named expression.
pub fn clone_var_kind(k: &VarKind<String, String>) -> (r: VarKind<String, String>)
    ensures
        r@ == k@,
{
    match k {
        VarKind::Named(s) => VarKind::Named(s.clone()),
        VarKind::Idx(s) => VarKind::Idx(s.clone()),
    }
}

/// Copies a builtin.
pub fn clone_builtin(b: &Builtin) -> (r: Builtin)
    ensures
        r@ == b@,
{
    match b {
        Builtin::String(s) => Builtin::String(s.clone()),
        Builtin::StringTy => Builtin::StringTy,
        Builtin::Num(n) => Builtin::Num(*n),
        Builtin::NumTy => Builtin::NumTy,
        Builtin::Bool(x) => Builtin::Bool(*x),
        Builtin::BoolTy => Builtin::BoolTy,
        Builtin::StringCmp => Builtin::StringCmp,
        Builtin::NumCmp => Builtin::NumCmp,
        Builtin::BoolCmp => Builtin::BoolCmp,
        Builtin::Fix => Builtin::Fix,
        Builtin::TypeHole => Builtin::TypeHole,
    }
}

/// Copies an error record.
pub fn clone_error(e: &ExprError<Vec<usize>>) -> (r: ExprError<Vec<usize>>)
    ensures
        r@ == e@,
{
    match e {
        ExprError::MissingBinder(p) => ExprError::MissingBinder(clone_path(p)),
        ExprError::MissingValue(p) => ExprError::MissingValue(clone_path(p)),
        ExprError::MissingType(p) => ExprError::MissingType(clone_path(p)),
        ExprError::InvalidBinder(p) => ExprError::InvalidBinder(clone_path(p)),
        ExprError::InvalidBinderName(p) => ExprError::InvalidBinderName(clone_path(p)),
        ExprError::InvalidBinderParam(p) => ExprError::InvalidBinderParam(clone_path(p)),
        ExprError::ArbitraryBinding(p) => ExprError::ArbitraryBinding(clone_path(p)),
        ExprError::ArbitraryAnn(p) => ExprError::ArbitraryAnn(clone_path(p)),
        ExprError::ResolveFailed(s, p, ctx) => {
            let mut c: Vec<VarKind<String, String>> = Vec::new();
            let mut i: usize = 0;
            while i < ctx.len()
                invariant
                    i <= ctx.len(),
                    c@.len() == i,
                    forall|j: int| 0 <= j < i ==> #[trigger] c@[j]@ == ctx@[j]@,
                decreases ctx.len() - i,
            {
                c.push(clone_var_kind(&ctx[i]));
                i = i + 1;
            }
            assert(c@.map_values(|k: VarKind<String, String>| k@) =~= ctx@.map_values(
                |k: VarKind<String, String>| k@,
            ));
            ExprError::ResolveFailed(s.clone(), clone_path(p), c)
        },
        ExprError::Unknown => ExprError::Unknown,
    }
}

/// Copies an expression.
#[verifier::loop_isolation(false)]
pub fn clone_expr(e: &Expr) -> (r: Expr)
    ensures
        r@ == e@,
    decreases e,
{
    match e {
        GExpr::Var { idx } => GExpr::Var { idx: *idx },
        GExpr::App { func, arg } => GExpr::App {
            func: Box::new(clone_expr(func)),
            arg: Box::new(clone_expr(arg)),
        },
        GExpr::Lambda { name, param_ty, body } => GExpr::Lambda {
            name: name.clone(),
            param_ty: Box::new(clone_expr(param_ty)),
            body: Box::new(clone_expr(body)),
        },
        GExpr::Pi { name, param_ty, ret_ty } => GExpr::Pi {
            name: name.clone(),
            param_ty: Box::new(clone_expr(param_ty)),
            ret_ty: Box::new(clone_expr(ret_ty)),
        },
        GExpr::Type => GExpr::Type,
        GExpr::Builtin(b) => GExpr::Builtin(clone_builtin(b)),
        GExpr::Error(err, items) => {
            let mut c: Vec<Box<Expr>> = Vec::new();
            let mut i: usize = 0;
            while i < items.len()
                invariant
                    i <= items.len(),
                    tms_of(c@) == tms_of(items@.take(i as int)),
                decreases items.len() - i,
            {
                proof {
                    assert(decreases_to!(*e => *items));
                    assert(decreases_to!(*items => items@));
                    assert(decreases_to!(items@ => items@[i as int]));
                }
                let x = Box::new(clone_expr(&items[i]));
                proof {
                    lemma_tms_of_push(c@, x);
                    lemma_tms_of_push(items@.take(i as int), items@[i as int]);
                    assert(items@.take(i as int).push(items@[i as int]) =~= items@.take(i + 1));
                }
                c.push(x);
                i = i + 1;
            }
            assert(items@.take(items.len() as int) =~= items@);
            GExpr::Error(clone_error(err), c)
        },
    }
}

/// Compares two paths.
pub fn path_eq(p: &Vec<usize>, q: &Vec<usize>) -> (r: bool)
    ensures
        r == (p@ == q@),
{
    if p.len() != q.len() {
        return false;
    }
    let mut i: usize = 0;
    while i < p.len()
        invariant
            i <= p.len(),
            p.len() == q.len(),
            forall|j: int| 0 <= j < i ==> p@[j] == q@[j],
        decreases p.len() - i,
    {
        if p[i] != q[i] {
            return false;
        }
        i = i + 1;
    }
    assert(p@ =~= q@);
    true
}

fn string_eq(a: &String, b: &String) -> (r: bool)
    ensures
        r == (a@ == b@),
{
    *a == *b
}

fn var_kind_eq(a: &VarKind<String, String>, b: &VarKind<String, String>) -> (r: bool)
    ensures
        r == (a@ == b@),
{
    match (a, b) {
        (VarKind::Named(x), VarKind::Named(y)) => string_eq(x, y),
        (VarKind::Idx(x), VarKind::Idx(y)) => string_eq(x, y),
        _ => false,
    }
}

/// Compares two builtins.
pub fn builtin_eq(a: &Builtin, b: &Builtin) -> (r: bool)
    ensures
        r == (a@ == b@),
{
    match (a, b) {
        (Builtin::String(x), Builtin::String(y)) => string_eq(x, y),
        (Builtin::StringTy, Builtin::StringTy) => true,
        (Builtin::Num(x), Builtin::Num(y)) => *x == *y,
        (Builtin::NumTy, Builtin::NumTy) => true,
        (Builtin::Bool(x), Builtin::Bool(y)) => *x == *y,
        (Builtin::BoolTy, Builtin::BoolTy) => true,
        (Builtin::StringCmp, Builtin::StringCmp) => true,
        (Builtin::NumCmp, Builtin::NumCmp) => true,
        (Builtin::BoolCmp, Builtin::BoolCmp) => true,
        (Builtin::Fix, Builtin::Fix) => true,
        (Builtin::TypeHole, Builtin::TypeHole) => true,
        _ => false,
    }
}

/// Compares two error records.
#[verifier::loop_isolation(false)]
pub fn error_eq(a: &ExprError<Vec<usize>>, b: &ExprError<Vec<usize>>) -> (r: bool)
    ensures
        r == (a@ == b@),
{
    match (a, b) {
        (ExprError::MissingBinder(p), ExprError::MissingBinder(q)) => path_eq(p, q),
        (ExprError::MissingValue(p), ExprError::MissingValue(q)) => path_eq(p, q),
        (ExprError::MissingType(p), ExprError::MissingType(q)) => path_eq(p, q),
        (ExprError::InvalidBinder(p), ExprError::InvalidBinder(q)) => path_eq(p, q),
        (ExprError::InvalidBinderName(p), ExprError::InvalidBinderName(q)) => path_eq(p, q),
        (ExprError::InvalidBinderParam(p), ExprError::InvalidBinderParam(q)) => path_eq(p, q),
        (ExprError::ArbitraryBinding(p), ExprError::ArbitraryBinding(q)) => path_eq(p, q),
        (ExprError::ArbitraryAnn(p), ExprError::ArbitraryAnn(q)) => path_eq(p, q),
        (ExprError::ResolveFailed(s1, p1, c1), ExprError::ResolveFailed(s2, p2, c2)) => {
            let ghost v1 = c1@.map_values(|k: VarKind<String, String>| k@);
            let ghost v2 = c2@.map_values(|k: VarKind<String, String>| k@);
            if !string_eq(s1, s2) || !path_eq(p1, p2) || c1.len() != c2.len() {
                assert(v1.len() == c1.len() && v2.len() == c2.len());
                return false;
            }
            let mut i: usize = 0;
            while i < c1.len()
                invariant
                    i <= c1.len(),
                    c1.len() == c2.len(),
                    v1 == c1@.map_values(|k: VarKind<String, String>| k@),
                    v2 == c2@.map_values(|k: VarKind<String, String>| k@),
                    forall|j: int| 0 <= j < i ==> v1[j] == v2[j],
                decreases c1.len() - i,
            {
                if !var_kind_eq(&c1[i], &c2[i]) {
                    assert(v1[i as int] != v2[i as int]);
                    assert(v1 != v2);
                    return false;
                }
                i = i + 1;
            }
            assert(v1 =~= v2);
            true
        },
        (ExprError::Unknown, ExprError::Unknown) => true,
        _ => false,
    }
}

/// Structural equality of two expressions, names and strings included.
#[verifier::loop_isolation(false)]
pub fn expr_eq(a: &Expr, b: &Expr) -> (r: bool)
    ensures
        r == (a@ == b@),
    decreases a,
{
    match (a, b) {
        (GExpr::Var { idx: x }, GExpr::Var { idx: y }) => *x == *y,
        (GExpr::App { func: f1, arg: a1 }, GExpr::App { func: f2, arg: a2 }) => expr_eq(f1, f2)
            && expr_eq(a1, a2),
        (
            GExpr::Lambda { name: n1, param_ty: p1, body: b1 },
            GExpr::Lambda { name: n2, param_ty: p2, body: b2 },
        ) => string_eq(n1, n2) && expr_eq(p1, p2) && expr_eq(b1, b2),
        (
            GExpr::Pi { name: n1, param_ty: p1, ret_ty: r1 },
            GExpr::Pi { name: n2, param_ty: p2, ret_ty: r2 },
        ) => string_eq(n1, n2) && expr_eq(p1, p2) && expr_eq(r1, r2),
        (GExpr::Type, GExpr::Type) => true,
        (GExpr::Builtin(x), GExpr::Builtin(y)) => builtin_eq(x, y),
        (GExpr::Error(e1, items1), GExpr::Error(e2, items2)) => {
            if !error_eq(e1, e2) || items1.len() != items2.len() {
                proof {
                    lemma_tms_of_len(items1@);
                    lemma_tms_of_len(items2@);
                }
                return false;
            }
            proof {
                lemma_tms_of_len(items1@);
                lemma_tms_of_len(items2@);
            }
            let mut i: usize = 0;
            while i < items1.len()
                invariant
                    i <= items1.len(),
                    items1.len() == items2.len(),
                    forall|j: int| 0 <= j < i ==> tms_of(items1@)[j] == tms_of(items2@)[j],
                decreases items1.len() - i,
            {
                proof {
                    assert(decreases_to!(*a => *items1));
                    assert(decreases_to!(*items1 => items1@));
                    assert(decreases_to!(items1@ => items1@[i as int]));
                }
                if !expr_eq(&items1[i], &items2[i]) {
                    assert(tms_of(items1@)[i as int] != tms_of(items2@)[i as int]);
                    assert(tms_of(items1@) != tms_of(items2@));
                    return false;
                }
                i = i + 1;
            }
            assert(tms_of(items1@) =~= tms_of(items2@));
            true
        },
        _ => false,
    }
}

// ---------------------------------------------------------------------------
// Conversions and traversals
// ---------------------------------------------------------------------------

/// A term over indices seen as a named term whose variables are all
/// indices and whose binders keep their hints as index names.
pub open spec fn to_named_tm(t: Term) -> NamedTerm
    decreases t,
{
    match t {
        Tm::Var(i) => Tm::Var(VarKind::Idx(i)),
        Tm::App(f, a) => Tm::App(Box::new(to_named_tm(*f)), Box::new(to_named_tm(*a))),
        Tm::Lam(n, p, b) => Tm::Lam(VarKind::Idx(n), Box::new(to_named_tm(*p)), Box::new(to_named_tm(*b))),
        Tm::Pi(n, p, r) => Tm::Pi(VarKind::Idx(n), Box::new(to_named_tm(*p)), Box::new(to_named_tm(*r))),
        Tm::Type => Tm::Type,
        Tm::Lit(b) => Tm::Lit(b),
        Tm::Fail(e, ts) => Tm::Fail(e, Seq::new(ts.len(), |i: int| if 0 <= i < ts.len() { to_named_tm(ts[i]) } else { Tm::Type })),
    }
}

/// `expr` as a named expression, as `to_named_tm` says.
#[verifier::loop_isolation(false)]
pub fn to_named(expr: &Expr) -> (r: NamedExpr)
    ensures
        r@ == to_named_tm(expr@),
    decreases expr,
{
    match expr {
        GExpr::Var { idx } => GExpr::Var { idx: VarKind::Idx(*idx) },
        GExpr::App { func, arg } => GExpr::App { func: Box::new(to_named(func)), arg: Box::new(to_named(arg)) },
        GExpr::Lambda { name, param_ty, body } => GExpr::Lambda {
            name: VarKind::Idx(name.clone()),
            param_ty: Box::new(to_named(param_ty)),
            body: Box::new(to_named(body)),
        },
        GExpr::Pi { name, param_ty, ret_ty } => GExpr::Pi {
            name: VarKind::Idx(name.clone()),
            param_ty: Box::new(to_named(param_ty)),
            ret_ty: Box::new(to_named(ret_ty)),
        },
        GExpr::Type => GExpr::Type,
        GExpr::Builtin(b) => GExpr::Builtin(clone_builtin(b)),
        GExpr::Error(err, items) => {
            let ghost ts = tms_of(items@);
            proof {
                lemma_tms_of_len(items@);
            }
            let mut out: Vec<Box<NamedExpr>> = Vec::new();
            let mut i: usize = 0;
            while i < items.len()
                invariant
                    i <= items@.len(),
                    ts == tms_of(items@),
                    ts.len() == items@.len(),
                    forall|j: int| 0 <= j < items@.len() ==> #[trigger] ts[j] == (*items@[j])@,
                    out@.len() == i,
                    forall|j: int| 0 <= j < i ==> named_of(*#[trigger] out@[j]) == to_named_tm(ts[j]),
                decreases items@.len() - i,
            {
                proof {
                    assert(decreases_to!(*expr => *items));
                    assert(decreases_to!(*items => items@));
                    assert(decreases_to!(items@ => items@[i as int]));
                }
                let y = to_named(&items[i]);
                out.push(Box::new(y));
                i = i + 1;
            }
            proof {
                lemma_tms_of_len(out@);
                let st = match to_named_tm(expr@) { Tm::Fail(_, st) => st, _ => Seq::empty() };
                assert(st.len() == ts.len());
                assert(tms_of(out@) =~= st);
            }
            GExpr::Error(clone_error(err), out)
        },
    }
}

pub open spec fn named_of(e: NamedExpr) -> NamedTerm {
    e@
}

/// The subterm at `path`, read from its last element: 0 and 1 lead into a
/// function and its argument, or into the type and the body of a binder.
/// `None` when the path leads nowhere.
pub open spec fn traverse_spec(t: Term, path: Seq<usize>) -> Option<Term>
    decreases path.len(),
{
    if path.len() == 0 {
        Some(t)
    } else {
        let cur = path.last();
        let rest = path.drop_last();
        match t {
            Tm::App(f, a) => if cur == 0 {
                traverse_spec(*f, rest)
            } else if cur == 1 {
                traverse_spec(*a, rest)
            } else {
                None
            },
            Tm::Lam(_, p, b) | Tm::Pi(_, p, b) => if cur == 0 {
                traverse_spec(*p, rest)
            } else if cur == 1 {
                traverse_spec(*b, rest)
            } else {
                None
            },
            _ => None,
        }
    }
}

impl GExpr<usize, String, Vec<usize>> {
    /// The subexpression at `path`, as `traverse_spec` says.
    pub fn traverse(self, path: Vec<usize>) -> (r: Option<Self>)
        ensures
            match (r, traverse_spec(self@, path@)) {
                (Some(e), Some(t)) => e@ == t,
                (None, None) => true,
                _ => false,
            },
        decreases path@.len(),
    {
        let mut path = path;
        let ghost pv = path@;
        let cur = match path.pop() {
            None => {
                return Some(self);
            },
            Some(c) => c,
        };
        proof {
            assert(path@ == pv.drop_last());
        }
        match self {
            GExpr::App { func, arg } => if cur == 0 {
                (*func).traverse(path)
            } else if cur == 1 {
                (*arg).traverse(path)
            } else {
                None
            },
            GExpr::Lambda { param_ty, body: rest, .. } | GExpr::Pi { param_ty, ret_ty: rest, .. } => if cur == 0 {
                (*param_ty).traverse(path)
            } else if cur == 1 {
                (*rest).traverse(path)
            } else {
                None
            },
            _ => None,
        }
    }
}

/// The children of a layer, in order.
pub open spec fn children<T, A, B, E>(e: ExprF<T, A, B, E>) -> Seq<T> {
    match e {
        ExprF::App { func, arg } => seq![func, arg],
        ExprF::Lambda { param_ty, body, .. } => seq![param_ty, body],
        ExprF::Pi { param_ty, ret_ty, .. } => seq![param_ty, ret_ty],
        ExprF::Error(_, items) => items@,
        _ => Seq::empty(),
    }
}

/// Whether `r` is a possible result of folding `f` over `cs` from `acc`.
pub open spec fn folds_to<T, U, F: Fn(U, T) -> U>(f: F, acc: U, cs: Seq<T>, r: U) -> bool
    decreases cs.len(),
{
    if cs.len() == 0 {
        r == acc
    } else {
        exists|mid: U| #[trigger] call_ensures(f, (acc, cs[0]), mid) && folds_to(f, mid, cs.drop_first(), r)
    }
}

impl<T, A, B, E> ExprF<T, A, B, E> {
    /// Folds `f` over the children of the layer, from the first.
    pub fn fold<U, F: Fn(U, T) -> U>(self, init: U, f: F) -> (r: U)
        requires
            forall|u: U, t: T| call_requires(f, (u, t)),
        ensures
            folds_to(f, init, children(self), r),
    {
        let ghost cs = children(self);
        let mut pending: Vec<T> = match self {
            ExprF::App { func, arg } => vec![arg, func],
            ExprF::Lambda { param_ty, body, .. } => vec![body, param_ty],
            ExprF::Pi { param_ty, ret_ty, .. } => vec![ret_ty, param_ty],
            ExprF::Error(_, items) => {
                let mut items = items;
                let ghost orig = items@;
                let mut rev: Vec<T> = Vec::new();
                while items.len() > 0
                    invariant
                        orig == items@ + rev@.reverse(),
                    decreases items@.len(),
                {
                    let x = items.pop().unwrap();
                    proof {
                        assert(items@.push(x) + rev@.reverse() =~= items@ + rev@.push(x).reverse());
                    }
                    rev.push(x);
                }
                assert(rev@.reverse() =~= orig);
                rev
            },
            _ => Vec::new(),
        };
        proof {
            assert(pending@.reverse() =~= cs);
        }
        let mut acc = init;
        let ghost mut done: Seq<T> = Seq::empty();
        while pending.len() > 0
            invariant
                forall|u: U, t: T| call_requires(f, (u, t)),
                cs == done + pending@.reverse(),
                forall|res: U| folds_to(f, acc, pending@.reverse(), res) ==> folds_to(f, init, cs, res),
            decreases pending@.len(),
        {
            let ghost old_pending = pending@;
            let ghost old_acc = acc;
            let t = pending.pop().unwrap();
            let next = f(acc, t);
            proof {
                assert(old_pending.reverse() =~= seq![t] + pending@.reverse());
                assert(old_pending.reverse()[0] == t);
                assert(old_pending.reverse().drop_first() =~= pending@.reverse());
                assert forall|res: U| folds_to(f, next, pending@.reverse(), res) implies folds_to(f, init, cs, res) by {
                    let s = old_pending.reverse();
                    assert(s.len() > 0);
                    assert(call_ensures(f, (old_acc, s[0]), next));
                    assert(folds_to(f, next, s.drop_first(), res));
                    assert(folds_to(f, old_acc, s, res));
                }
                done = done.push(t);
                assert(cs =~= done + pending@.reverse());
            }
            acc = next;
        }
        proof {
            assert(pending@.reverse() =~= Seq::<T>::empty());
        }
        acc
    }
}

/// Folds `f` over `items` from the first, as `folds_to` says.
pub fn fold_items<T, U, F: Fn(U, T) -> U>(items: Vec<T>, init: U, f: F) -> (r: U)
    requires
        forall|u: U, t: T| call_requires(f, (u, t)),
    ensures
        folds_to(f, init, items@, r),
{
    let ghost cs = items@;
    let mut items = items;
    let mut pending: Vec<T> = Vec::new();
    while items.len() > 0
        invariant
            cs == items@ + pending@.reverse(),
        decreases items@.len(),
    {
        let x = items.pop().unwrap();
        proof {
            assert(items@.push(x) + pending@.reverse() =~= items@ + pending@.push(x).reverse());
        }
        pending.push(x);
    }
    assert(pending@.reverse() =~= cs);
    let mut acc = init;
    let ghost mut done: Seq<T> = Seq::empty();
    while pending.len() > 0
        invariant
            forall|u: U, t: T| call_requires(f, (u, t)),
            cs == done + pending@.reverse(),
            forall|res: U| folds_to(f, acc, pending@.reverse(), res) ==> folds_to(f, init, cs, res),
        decreases pending@.len(),
    {
        let ghost old_pending = pending@;
        let ghost old_acc = acc;
        let t = pending.pop().unwrap();
        let next = f(acc, t);
        proof {
            assert(old_pending.reverse() =~= seq![t] + pending@.reverse());
            assert(old_pending.reverse()[0] == t);
            assert(old_pending.reverse().drop_first() =~= pending@.reverse());
            assert forall|res: U| folds_to(f, next, pending@.reverse(), res) implies folds_to(f, init, cs, res) by {
                let s = old_pending.reverse();
                assert(s.len() > 0);
                assert(call_ensures(f, (old_acc, s[0]), next));
                assert(folds_to(f, next, s.drop_first(), res));
                assert(folds_to(f, old_acc, s, res));
            }
            done = done.push(t);
            assert(cs =~= done + pending@.reverse());
        }
        acc = next;
    }
    proof {
        assert(pending@.reverse() =~= Seq::<T>::empty());
    }
    acc
}

/// Whether `r` is a possible result of folding `alg` over `t` from the
/// leaves up: each layer is handed to `alg` with its children replaced by
/// possible results for them.
pub open spec fn cata_to<A, B, E, R, F: Fn(ExprF<R, A, B, E>) -> R>(t: GExpr<A, B, E>, alg: F, r: R) -> bool
    decreases t,
{
    match t {
        GExpr::Var { idx } => call_ensures(alg, (ExprF::Var { idx },), r),
        GExpr::App { func, arg } => exists|rf: R, ra: R|
            cata_to(*func, alg, rf) && cata_to(*arg, alg, ra) && #[trigger] call_ensures(
                alg,
                (ExprF::App { func: rf, arg: ra },),
                r,
            ),
        GExpr::Lambda { name, param_ty, body } => exists|rp: R, rb: R|
            cata_to(*param_ty, alg, rp) && cata_to(*body, alg, rb) && #[trigger] call_ensures(
                alg,
                (ExprF::Lambda { name, param_ty: rp, body: rb },),
                r,
            ),
        GExpr::Pi { name, param_ty, ret_ty } => exists|rp: R, rr: R|
            cata_to(*param_ty, alg, rp) && cata_to(*ret_ty, alg, rr) && #[trigger] call_ensures(
                alg,
                (ExprF::Pi { name, param_ty: rp, ret_ty: rr },),
                r,
            ),
        GExpr::Type => call_ensures(alg, (ExprF::Type,), r),
        GExpr::Builtin(b) => call_ensures(alg, (ExprF::Builtin(b),), r),
        GExpr::Error(e, items) => exists|rs: Vec<R>|
            rs@.len() == items@.len() && (forall|i: int| 0 <= i < items@.len() ==> cata_to(*items@[i], alg, #[trigger] rs@[i]))
                && #[trigger] call_ensures(alg, (ExprF::Error(e, rs),), r),
    }
}

impl<A, B, E> GExpr<A, B, E> {
    /// Folds `alg` over the expression from the leaves up, as `cata_to`
    /// says.
    #[verifier::loop_isolation(false)]
    pub fn cata<R, F: Fn(ExprF<R, A, B, E>) -> R>(self, alg: &F) -> (r: R)
        requires
            forall|layer: ExprF<R, A, B, E>| call_requires(*alg, (layer,)),
        ensures
            cata_to(self, *alg, r),
        decreases self,
    {
        let ghost me = self;
        match self {
            GExpr::Var { idx } => alg(ExprF::Var { idx }),
            GExpr::App { func, arg } => {
                let rf = (*func).cata(alg);
                let ra = (*arg).cata(alg);
                alg(ExprF::App { func: rf, arg: ra })
            },
            GExpr::Lambda { name, param_ty, body } => {
                let rp = (*param_ty).cata(alg);
                let rb = (*body).cata(alg);
                alg(ExprF::Lambda { name, param_ty: rp, body: rb })
            },
            GExpr::Pi { name, param_ty, ret_ty } => {
                let rp = (*param_ty).cata(alg);
                let rr = (*ret_ty).cata(alg);
                alg(ExprF::Pi { name, param_ty: rp, ret_ty: rr })
            },
            GExpr::Type => alg(ExprF::Type),
            GExpr::Builtin(b) => alg(ExprF::Builtin(b)),
            GExpr::Error(e, items) => {
                let ghost orig = items@;
                let mut items = items;
                let mut rev: Vec<Box<GExpr<A, B, E>>> = Vec::new();
                while items.len() > 0
                    invariant
                        orig == items@ + rev@.reverse(),
                    decreases items@.len(),
                {
                    let x = items.pop().unwrap();
                    proof {
                        assert(items@.push(x) + rev@.reverse() =~= items@ + rev@.push(x).reverse());
                    }
                    rev.push(x);
                }
                assert(rev@.reverse() =~= orig);
                let n = rev.len();
                let mut rs: Vec<R> = Vec::new();
                while rev.len() > 0
                    invariant
                        n == orig.len(),
                        rev@.len() + rs@.len() == n,
                        forall|layer: ExprF<R, A, B, E>| call_requires(*alg, (layer,)),
                        forall|k: int| 0 <= k < rev@.len() ==> #[trigger] rev@[k] == orig[n - 1 - k],
                        forall|i: int| 0 <= i < rs@.len() ==> cata_to(*orig[i], *alg, #[trigger] rs@[i]),
                        me is Error,
                        me->Error_1@ == orig,
                    decreases rev@.len(),
                {
                    let ghost i = rs@.len() as int;
                    let x = rev.pop().unwrap();
                    proof {
                        assert(x == orig[i]);
                        assert(decreases_to!(me => me->Error_1));
                        assert(decreases_to!(me->Error_1 => me->Error_1@));
                        assert(decreases_to!(me->Error_1@ => me->Error_1@[i]));
                        assert(decreases_to!(me => *x));
                    }
                    let r = (*x).cata(alg);
                    rs.push(r);
                }
                alg(ExprF::Error(e, rs))
            },
        }
    }
}

} // verus!
