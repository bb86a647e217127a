//! Desugaring: surface syntax to the core calculus with named variables.
//! Every node of the result records the path of the surface node it came
//! from, so that later errors can be reported at a place in the source.
use vstd::prelude::*;

use crate::ast::{AstKind, AstV, FixAst, LitKind, LitV};
use crate::expr::{Builtin, BuiltinV, ExprError, ExprErrorV, GExpr, NamedExpr, NamedTerm, Tm, VarKind};

verus! {

broadcast use vstd::std_specs::vec::group_vec_axioms;

/// A named expression in which every node carries the path of the surface
/// node it was made from.
#[derive(Debug, PartialEq, Eq)]
pub struct SpannedNamedExpr(pub SpannedNamedNode, pub Vec<usize>);

/// One node of a [`SpannedNamedExpr`]; the variants are those of
/// [`GExpr`].
#[derive(Debug, PartialEq, Eq)]
pub enum SpannedNamedNode {
    Var { idx: VarKind<String, usize> },
    App { func: Box<SpannedNamedExpr>, arg: Box<SpannedNamedExpr> },
    Lambda { name: BinderName, param_ty: Box<SpannedNamedExpr>, body: Box<SpannedNamedExpr> },
    Pi { name: BinderName, param_ty: Box<SpannedNamedExpr>, ret_ty: Box<SpannedNamedExpr> },
    Type,
    Builtin(Builtin),
    Error(ExprError<Vec<usize>>, Vec<Box<SpannedNamedExpr>>),
}

/// A binder's name with the path of the surface node it was written at
/// (the empty path for a binder the desugaring makes up).
pub type BinderName = (VarKind<String, String>, Vec<usize>);

pub type Name = VarKind<Seq<char>, Seq<char>>;

/// A binder's name with its path.
pub type LName = (Name, Seq<usize>);

pub type Var = VarKind<Seq<char>, usize>;

/// A named term whose nodes carry a path.
pub enum LTm {
    Var(Var, Seq<usize>),
    App(Box<LTm>, Box<LTm>, Seq<usize>),
    Lam(LName, Box<LTm>, Box<LTm>, Seq<usize>),
    Pi(LName, Box<LTm>, Box<LTm>, Seq<usize>),
    Type(Seq<usize>),
    Lit(BuiltinV, Seq<usize>),
    Fail(ExprErrorV, Seq<LTm>, Seq<usize>),
}

pub open spec fn ltm_of(e: SpannedNamedExpr) -> LTm
    decreases e, 1nat,
{
    let loc = e.1@;
    match e.0 {
        SpannedNamedNode::Var { idx } => LTm::Var(idx@, loc),
        SpannedNamedNode::App { func, arg } => LTm::App(Box::new(ltm_of(*func)), Box::new(ltm_of(*arg)), loc),
        SpannedNamedNode::Lambda { name, param_ty, body } => LTm::Lam(
            (name.0@, name.1@),
            Box::new(ltm_of(*param_ty)),
            Box::new(ltm_of(*body)),
            loc,
        ),
        SpannedNamedNode::Pi { name, param_ty, ret_ty } => LTm::Pi(
            (name.0@, name.1@),
            Box::new(ltm_of(*param_ty)),
            Box::new(ltm_of(*ret_ty)),
            loc,
        ),
        SpannedNamedNode::Type => LTm::Type(loc),
        SpannedNamedNode::Builtin(b) => LTm::Lit(b@, loc),
        SpannedNamedNode::Error(err, items) => LTm::Fail(err@, ltms_of(items@), loc),
    }
}

pub open spec fn ltms_of(s: Seq<Box<SpannedNamedExpr>>) -> Seq<LTm>
    decreases s, 0nat,
{
    Seq::new(s.len(), |i: int| if 0 <= i < s.len() { ltm_of(*s[i]) } else { LTm::Type(Seq::empty()) })
}

impl View for SpannedNamedExpr {
    type V = LTm;

    open spec fn view(&self) -> LTm {
        ltm_of(*self)
    }
}

/// The path recorded at the root.
pub open spec fn loc_of(t: LTm) -> Seq<usize> {
    match t {
        LTm::Var(_, l) => l,
        LTm::App(_, _, l) => l,
        LTm::Lam(_, _, _, l) => l,
        LTm::Pi(_, _, _, l) => l,
        LTm::Type(l) => l,
        LTm::Lit(_, l) => l,
        LTm::Fail(_, _, l) => l,
    }
}

/// The term without its paths.
pub open spec fn strip(t: LTm) -> NamedTerm
    decreases t,
{
    match t {
        LTm::Var(v, _) => Tm::Var(v),
        LTm::App(f, a, _) => Tm::App(Box::new(strip(*f)), Box::new(strip(*a))),
        LTm::Lam(n, p, b, _) => Tm::Lam(n.0, Box::new(strip(*p)), Box::new(strip(*b))),
        LTm::Pi(n, p, r, _) => Tm::Pi(n.0, Box::new(strip(*p)), Box::new(strip(*r))),
        LTm::Type(_) => Tm::Type,
        LTm::Lit(b, _) => Tm::Lit(b),
        LTm::Fail(e, ts, _) => Tm::Fail(e, Seq::new(ts.len(), |i: int| if 0 <= i < ts.len() { strip(ts[i]) } else { Tm::Type })),
    }
}

/// The term with every path replaced by the empty path.
pub open spec fn zero_span(t: NamedTerm) -> LTm
    decreases t,
{
    match t {
        Tm::Var(v) => LTm::Var(v, Seq::empty()),
        Tm::App(f, a) => LTm::App(Box::new(zero_span(*f)), Box::new(zero_span(*a)), Seq::empty()),
        Tm::Lam(n, p, b) => LTm::Lam((n, Seq::empty()), Box::new(zero_span(*p)), Box::new(zero_span(*b)), Seq::empty()),
        Tm::Pi(n, p, r) => LTm::Pi((n, Seq::empty()), Box::new(zero_span(*p)), Box::new(zero_span(*r)), Seq::empty()),
        Tm::Type => LTm::Type(Seq::empty()),
        Tm::Lit(b) => LTm::Lit(b, Seq::empty()),
        Tm::Fail(e, ts) => LTm::Fail(
            e,
            Seq::new(ts.len(), |i: int| if 0 <= i < ts.len() { zero_span(ts[i]) } else { LTm::Type(Seq::empty()) }),
            Seq::empty(),
        ),
    }
}

// ---------------------------------------------------------------------------
// Numerals and accessors
// ---------------------------------------------------------------------------

/// The binder name of an anonymous binder.
pub open spec fn anon() -> Name {
    VarKind::Idx(Seq::empty())
}

/// The name of a binder the desugaring makes up, at the empty path.
pub open spec fn anon_l() -> LName {
    (anon(), Seq::empty())
}

pub open spec fn ivar(i: usize) -> NamedTerm {
    Tm::Var(VarKind::Idx(i))
}

pub open spec fn lam(p: NamedTerm, b: NamedTerm) -> NamedTerm {
    Tm::Lam(anon(), Box::new(p), Box::new(b))
}

pub open spec fn pi(p: NamedTerm, r: NamedTerm) -> NamedTerm {
    Tm::Pi(anon(), Box::new(p), Box::new(r))
}

/// `$1` applied `k` times to `$0`.
pub open spec fn church_body(k: nat) -> NamedTerm
    decreases k,
{
    if k == 0 {
        ivar(0)
    } else {
        Tm::App(Box::new(ivar(1)), Box::new(church_body((k - 1) as nat)))
    }
}

/// The Church numeral `k`: `Type => ($0 -> $1) => $1 => (f applied k times)`.
pub open spec fn church(k: nat) -> NamedTerm {
    lam(Tm::Type, lam(pi(ivar(0), ivar(1)), lam(ivar(1), church_body(k))))
}

/// The value of a string of decimal digits.
pub open spec fn digits_value(ds: Seq<char>) -> nat
    decreases ds.len(),
{
    if ds.len() == 0 {
        0
    } else {
        digits_value(ds.drop_last()) * 10 + ((ds.last() as u32) - ('0' as u32)) as nat
    }
}

pub open spec fn all_digits(ds: Seq<char>) -> bool {
    forall|i: int| 0 <= i < ds.len() ==> '0' as u32 <= #[trigger] ds[i] as u32 <= '9' as u32
}

/// The lowest 64 bits of a number.
pub open spec fn low64(n: nat) -> nat {
    n % 0x1_0000_0000_0000_0000
}

fn anon_name() -> (n: VarKind<String, String>)
    ensures
        n@ == anon(),
{
    VarKind::Idx(String::new())
}

fn anon_binder() -> (n: BinderName)
    ensures
        (n.0@, n.1@) == anon_l(),
{
    (anon_name(), Vec::new())
}

fn ivar_exec(i: usize) -> (e: NamedExpr)
    ensures
        e@ == ivar(i),
{
    GExpr::Var { idx: VarKind::Idx(i) }
}

fn lam_exec(p: NamedExpr, b: NamedExpr) -> (e: NamedExpr)
    ensures
        e@ == lam(p@, b@),
{
    GExpr::Lambda { name: anon_name(), param_ty: Box::new(p), body: Box::new(b) }
}

fn pi_exec(p: NamedExpr, r: NamedExpr) -> (e: NamedExpr)
    ensures
        e@ == pi(p@, r@),
{
    GExpr::Pi { name: anon_name(), param_ty: Box::new(p), ret_ty: Box::new(r) }
}

/// The lowest 64 bits of the value of a string of decimal digits.
fn low_digit(ds: &str) -> (v: u64)
    requires
        all_digits(ds@),
    ensures
        v == low64(digits_value(ds@)),
{
    let cs = crate::lexer::chars_of(ds);
    let mut v: u64 = 0;
    let mut i: usize = 0;
    while i < cs.len()
        invariant
            i <= cs@.len(),
            cs@ == ds@,
            all_digits(ds@),
            v == low64(digits_value(cs@.take(i as int))),
        decreases cs@.len() - i,
    {
        let d = (cs[i] as u32 - '0' as u32) as u64;
        proof {
            assert(cs@.take(i + 1).drop_last() =~= cs@.take(i as int));
            assert('0' as u32 <= cs@[i as int] as u32 <= '9' as u32);
            let x = digits_value(cs@.take(i as int));
            assert(digits_value(cs@.take(i + 1)) == x * 10 + d);
            lemma_low64_step(x, d as nat);
        }
        v = v.wrapping_mul(10).wrapping_add(d);
        proof {
            let x = digits_value(cs@.take(i as int));
            assert(v == (((low64(x) * 10) % 0x1_0000_0000_0000_0000 + d) % 0x1_0000_0000_0000_0000));
        }
        i = i + 1;
    }
    assert(cs@.take(cs@.len() as int) =~= cs@);
    v
}

/// Whether a string of decimal digits writes the number 0.
fn is_zero_number(ds: &str) -> (b: bool)
    requires
        all_digits(ds@),
    ensures
        b == (digits_value(ds@) == 0),
{
    let cs = crate::lexer::chars_of(ds);
    let mut i: usize = 0;
    while i < cs.len()
        invariant
            i <= cs@.len(),
            cs@ == ds@,
            all_digits(ds@),
            digits_value(cs@.take(i as int)) == 0,
        decreases cs@.len() - i,
    {
        proof {
            assert(cs@.take(i + 1).drop_last() =~= cs@.take(i as int));
            assert('0' as u32 <= cs@[i as int] as u32 <= '9' as u32);
        }
        if cs[i] as u32 != '0' as u32 {
            proof {
                lemma_digits_value_nonzero(cs@, i as int);
            }
            return false;
        }
        i = i + 1;
    }
    assert(cs@.take(cs@.len() as int) =~= cs@);
    true
}

/// A number whose digits are not all zero is not zero.
proof fn lemma_digits_value_nonzero(ds: Seq<char>, i: int)
    requires
        0 <= i < ds.len(),
        all_digits(ds),
        ds[i] as u32 != '0' as u32,
    ensures
        digits_value(ds) != 0,
    decreases ds.len(),
{
    assert('0' as u32 <= ds[i] as u32 <= '9' as u32);
    assert('0' as u32 <= ds.last() as u32 <= '9' as u32);
    if i < ds.len() - 1 {
        assert(ds.drop_last()[i] == ds[i]);
        assert(all_digits(ds.drop_last())) by {
            assert forall|k: int| 0 <= k < ds.drop_last().len() implies '0' as u32 <= #[trigger] ds.drop_last()[k] as u32 <= '9' as u32 by {
                assert(ds.drop_last()[k] == ds[k]);
            }
        }
        lemma_digits_value_nonzero(ds.drop_last(), i);
    } else {
        assert(ds.last() == ds[i]);
    }
}

proof fn lemma_low64_step(x: nat, d: nat)
    ensures
        low64(x * 10 + d) == ((low64(x) * 10) % 0x1_0000_0000_0000_0000 + d) % 0x1_0000_0000_0000_0000,
{
    let m: int = 0x1_0000_0000_0000_0000;
    vstd::arithmetic::div_mod::lemma_mul_mod_noop_left(x as int, 10, m);
    vstd::arithmetic::div_mod::lemma_add_mod_noop((x * 10) as int, d as int, m);
    vstd::arithmetic::div_mod::lemma_add_mod_noop((low64(x) * 10) as int, d as int, m);
    vstd::arithmetic::div_mod::lemma_mod_twice((low64(x) * 10) as int, m);
}

/// The Church numeral of the number written by `num`, taken modulo 2^64.
/// The number must not be 0.
pub fn create_church_num(num: &str) -> (e: NamedExpr)
    requires
        all_digits(num@),
        digits_value(num@) != 0,
    ensures
        e@ == church(low64(digits_value(num@))),
{
    let n = low_digit(num);
    let mut body = ivar_exec(0);
    let mut k: u64 = 0;
    while k < n
        invariant
            k <= n,
            body@ == church_body(k as nat),
        decreases n - k,
    {
        body = GExpr::App { func: Box::new(ivar_exec(1)), arg: Box::new(body) };
        k = k + 1;
    }
    lam_exec(GExpr::Type, lam_exec(pi_exec(ivar_exec(0), ivar_exec(1)), lam_exec(ivar_exec(1), body)))
}

/// `arity` lambdas over `Type` around the variable `$selected`.
pub open spec fn accessor(arity: nat, selected: usize) -> NamedTerm
    decreases arity,
{
    if arity == 0 {
        ivar(selected)
    } else {
        lam(Tm::Type, accessor((arity - 1) as nat, selected))
    }
}

/// The function of `arity` arguments that returns argument `$selected`
/// (counted from the innermost binder).
pub fn create_accessor(arity: usize, selected: usize) -> (e: NamedExpr)
    requires
        arity > 0,
        selected <= arity,
    ensures
        e@ == accessor(arity as nat, selected),
{
    let mut body = ivar_exec(selected);
    let mut k: usize = 0;
    while k < arity
        invariant
            k <= arity,
            body@ == accessor(k as nat, selected),
        decreases arity - k,
    {
        body = lam_exec(GExpr::Type, body);
        k = k + 1;
    }
    body
}

// ---------------------------------------------------------------------------
// The desugaring, as a function of the surface tree
// ---------------------------------------------------------------------------

/// Which role a lone expression plays where a binding is expected.
#[derive(Debug, Clone, Copy, PartialEq, Eq, Structural)]
pub enum BindingPriority {
    /// A name (lambda parameters).
    NameTyVal,
    /// A type (pi and sigma parameters).
    TyNameVal,
    /// A value (tuple fields).
    ValNameTy,
}

/// A binding: a name with its path, a type and a value, each of which may
/// be missing.
pub struct TBind {
    pub name: Option<(Seq<char>, Seq<usize>)>,
    pub ty: Option<LTm>,
    pub val: Option<LTm>,
}

/// A binder: a name with its path, and parameters, each with its path.
pub type BinderV = ((Seq<char>, Seq<usize>), Seq<(TBind, Seq<usize>)>);

/// The outcome of a step: `None` where the computation stops without a
/// result (a literal or operator that is not supported, or an operator
/// without its operands), else the result or the error.
pub type Out<T> = Option<Result<T, ExprErrorV>>;

/// The binder name of a binding with its path.
pub open spec fn name_of(b: TBind) -> LName {
    match b.name {
        Some((s, l)) => (VarKind::Named(s), l),
        None => anon_l(),
    }
}

pub open spec fn lvar(i: usize, loc: Seq<usize>) -> LTm {
    LTm::Var(VarKind::Idx(i), loc)
}

/// The unit value `(Type => $0 => $0)` at `loc`.
pub open spec fn unit_term(loc: Seq<usize>) -> LTm {
    LTm::Lam(
        anon_l(),
        Box::new(LTm::Type(loc)),
        Box::new(LTm::Lam(anon_l(), Box::new(lvar(0, loc)), Box::new(lvar(0, loc)), loc)),
        loc,
    )
}

pub open spec fn rank_d(a: AstV) -> nat {
    if a.kind is Ann || a.kind is Binding {
        3
    } else {
        1
    }
}

/// The desugaring of `a`, found at path `loc` of the surface tree.
pub open spec fn desugar_s(a: AstV, loc: Seq<usize>) -> Out<LTm>
    decreases a, rank_d(a), 0nat,
{
    let items = a.items;
    match a.kind {
        AstKind::Var(name) => Some(Ok(LTm::Var(VarKind::Named(name), loc))),
        AstKind::Lit(LitV::Number(n)) => if all_digits(n) && digits_value(n) != 0 {
            Some(Ok(zero_span(church(low64(digits_value(n))))))
        } else {
            None
        },
        AstKind::Lit(LitV::String(_)) => None,
        AstKind::Dot => None,
        AstKind::App | AstKind::Pipe => if items.len() == 0 {
            None
        } else {
            app_fold(items, 1, loc, desugar_s(items[0], loc.push(0)))
        },
        AstKind::Lambda | AstKind::Pi => if items.len() == 0 {
            None
        } else {
            let n = items.len() - 1;
            lam_fold(items, n, loc, desugar_s(items[n], loc.push(n as usize)), a.kind is Pi)
        },
        AstKind::Tuple => match to_bindings_s(items, loc, 0) {
            None => None,
            Some(bs) => Some(create_tuple_s(bs, loc)),
        },
        AstKind::Sigma => match to_bindings_s(items, loc, 0) {
            None => None,
            Some(bs) => Some(create_sigma_s(bs, loc)),
        },
        AstKind::Group => if items.len() == 0 {
            None
        } else {
            desugar_s(items[0], loc.push(0))
        },
        AstKind::Type => Some(Ok(LTm::Type(loc))),
        AstKind::Unit => Some(Ok(unit_term(loc))),
        AstKind::Ann | AstKind::Binding => match extract_binding_s(a, loc, BindingPriority::ValNameTy) {
            None => None,
            Some(Err(e)) => Some(Err(e)),
            Some(Ok(b)) => match b.val {
                Some(v) => Some(Ok(v)),
                None => Some(Err(ExprErrorV::MissingValue(loc))),
            },
        },
        AstKind::Error(_) => Some(Err(ExprErrorV::Unknown)),
    }
}

/// Applies the accumulated function to the operands from `items[k]` on;
/// after an error the remaining operands are not looked at.
pub open spec fn app_fold(items: Seq<AstV>, k: int, loc: Seq<usize>, acc: Out<LTm>) -> Out<LTm>
    decreases items, 0nat, items.len() - k,
{
    if k < 0 || k >= items.len() {
        acc
    } else {
        match acc {
            Some(Ok(f)) => match desugar_s(items[k], loc.push(k as usize)) {
                None => None,
                Some(Err(e)) => Some(Err(e)),
                Some(Ok(x)) => app_fold(items, k + 1, loc, Some(Ok(LTm::App(Box::new(f), Box::new(x), loc)))),
            },
            other => other,
        }
    }
}

/// Wraps the accumulated body in binders for `items[k - 1]` down to
/// `items[0]`; each binding is read even after an error, and its own error
/// wins over the accumulated one.
pub open spec fn lam_fold(items: Seq<AstV>, k: int, loc: Seq<usize>, acc: Out<LTm>, is_pi: bool) -> Out<LTm>
    decreases items, 0nat, k,
{
    if k <= 0 || k > items.len() {
        acc
    } else if acc is None {
        None
    } else {
        let i = k - 1;
        let prior = if is_pi { BindingPriority::TyNameVal } else { BindingPriority::NameTyVal };
        let next = match extract_binding_s(items[i], loc.push(i as usize), prior) {
            None => None,
            Some(Err(e)) => Some(Err(e)),
            Some(Ok(b)) => match b.ty {
                None => Some(Err(ExprErrorV::MissingType(loc.push(i as usize)))),
                Some(ty) => match acc {
                    Some(Ok(body)) => Some(Ok(if is_pi {
                        LTm::Pi(name_of(b), Box::new(ty), Box::new(body), loc)
                    } else {
                        LTm::Lam(name_of(b), Box::new(ty), Box::new(body), loc)
                    })),
                    other => other,
                },
            },
        };
        lam_fold(items, i, loc, next, is_pi)
    }
}

/// The bindings of all `items[k..]`, each read as a value first; errors are
/// kept with the item they belong to.
pub open spec fn to_bindings_s(items: Seq<AstV>, loc: Seq<usize>, k: int) -> Option<Seq<(Result<TBind, ExprErrorV>, Seq<usize>)>>
    decreases items, 0nat, items.len() - k,
{
    if k < 0 || k >= items.len() {
        Some(Seq::empty())
    } else {
        match extract_binding_s(items[k], loc.push(k as usize), BindingPriority::ValNameTy) {
            None => None,
            Some(r) => match to_bindings_s(items, loc, k + 1) {
                None => None,
                Some(rest) => Some(seq![(r, loc.push(k as usize))] + rest),
            },
        }
    }
}

/// A binder: a name, or a name applied to parameter bindings.
pub open spec fn extract_binder_s(a: AstV, loc: Seq<usize>) -> Out<BinderV>
    decreases a, 0nat, 0nat,
{
    let items = a.items;
    match a.kind {
        AstKind::Group => if items.len() == 0 {
            None
        } else {
            extract_binder_s(items[0], loc.push(0))
        },
        AstKind::Var(x) => Some(Ok(((x, loc), Seq::empty()))),
        AstKind::App => if items.len() == 0 {
            None
        } else {
            match items[0].kind {
                AstKind::Var(name) => match binder_params(items, 1, loc) {
                    None => None,
                    Some(Err(e)) => Some(Err(e)),
                    Some(Ok(ps)) => Some(Ok(((name, loc.push(0)), ps))),
                },
                _ => Some(Err(ExprErrorV::InvalidBinderName(loc.push(0)))),
            }
        },
        _ => Some(Err(ExprErrorV::InvalidBinder(loc))),
    }
}

/// The parameters `items[k..]` of a binder, read as names first; the first
/// error stops the reading.
pub open spec fn binder_params(items: Seq<AstV>, k: int, loc: Seq<usize>) -> Out<Seq<(TBind, Seq<usize>)>>
    decreases items, 0nat, items.len() - k,
{
    if k < 0 || k >= items.len() {
        Some(Ok(Seq::empty()))
    } else {
        match extract_binding_s(items[k], loc.push(k as usize), BindingPriority::NameTyVal) {
            None => None,
            Some(Err(e)) => Some(Err(e)),
            Some(Ok(b)) => match binder_params(items, k + 1, loc) {
                None => None,
                Some(Err(e)) => Some(Err(e)),
                Some(Ok(rest)) => Some(Ok(seq![(b, loc.push(k as usize))] + rest)),
            },
        }
    }
}

/// The last of the desugarings of `items[k..]`; all of them are computed.
pub open spec fn last_desugar(items: Seq<AstV>, k: int, loc: Seq<usize>) -> Out<LTm>
    decreases items, 0nat, items.len() - k,
{
    if k < 0 || k >= items.len() {
        None
    } else {
        let r = desugar_s(items[k], loc.push(k as usize));
        if r is None || k == items.len() - 1 {
            r
        } else {
            last_desugar(items, k + 1, loc)
        }
    }
}

/// A binding: `binder := value`, `binder : type := value`, `binder : type`,
/// a parenthesised binding, or a lone expression whose role `prior` gives.
pub open spec fn extract_binding_s(a: AstV, loc: Seq<usize>, prior: BindingPriority) -> Out<TBind>
    decreases a, 2nat, 0nat,
{
    let items = a.items;
    match a.kind {
        AstKind::Group => if items.len() == 0 {
            None
        } else {
            extract_binding_s(items[0], loc.push(0), prior)
        },
        AstKind::Binding => if items.len() == 0 {
            None
        } else {
            let named = items[0];
            let nloc = loc.push(0);
            match last_desugar(items, 1, loc) {
                None => None,
                Some(val) => match named.kind {
                    AstKind::Ann => if named.items.len() < 2 {
                        None
                    } else {
                        match desugar_s(named.items[1], nloc.push(1)) {
                            None => None,
                            Some(ty) => match extract_binder_s(named.items[0], nloc.push(0)) {
                                None => None,
                                Some(Err(e)) => Some(Err(e)),
                                Some(Ok(binder)) => match fold_ty_s(binder, ty) {
                                    Err(e) => Some(Err(e)),
                                    Ok(ty) => match fold_val_s(binder, val) {
                                        Err(e) => Some(Err(e)),
                                        Ok(val) => Some(Ok(TBind { name: Some(binder.0), ty: Some(ty), val: Some(val) })),
                                    },
                                },
                            },
                        }
                    },
                    _ => match extract_binder_s(named, nloc) {
                        None => None,
                        Some(Err(e)) => Some(Err(e)),
                        Some(Ok(binder)) => match fold_val_s(binder, val) {
                            Err(e) => Some(Err(e)),
                            Ok(val) => Some(Ok(TBind { name: Some(binder.0), ty: None, val: Some(val) })),
                        },
                    },
                },
            }
        },
        AstKind::Ann => if items.len() < 2 {
            None
        } else {
            match desugar_s(items[1], loc.push(1)) {
                None => None,
                Some(ty) => match extract_binder_s(items[0], loc.push(0)) {
                    None => None,
                    Some(Err(e)) => Some(Err(e)),
                    Some(Ok(binder)) => match fold_ty_s(binder, ty) {
                        Err(e) => Some(Err(e)),
                        Ok(ty) => Some(Ok(TBind { name: Some(binder.0), ty: Some(ty), val: None })),
                    },
                },
            }
        },
        _ => match prior {
            BindingPriority::NameTyVal => match extract_binder_s(a, loc) {
                None => None,
                Some(Err(e)) => Some(Err(e)),
                Some(Ok(binder)) => Some(Ok(TBind { name: Some(binder.0), ty: None, val: None })),
            },
            BindingPriority::TyNameVal => match desugar_s(a, loc) {
                None => None,
                Some(Err(e)) => Some(Err(e)),
                Some(Ok(ty)) => Some(Ok(TBind { name: None, ty: Some(ty), val: None })),
            },
            BindingPriority::ValNameTy => match desugar_s(a, loc) {
                None => None,
                Some(Err(e)) => Some(Err(e)),
                Some(Ok(val)) => Some(Ok(TBind { name: None, ty: None, val: Some(val) })),
            },
        },
    }
}

/// Wraps `acc` in a binder for each of `params[..k]`, the last innermost:
/// a pi when `is_pi`, else a lambda. A parameter without a type is an error
/// that wins over the accumulated one.
pub open spec fn wrap_params(params: Seq<(TBind, Seq<usize>)>, k: int, acc: Result<LTm, ExprErrorV>, is_pi: bool) -> Result<LTm, ExprErrorV>
    decreases k,
{
    if k <= 0 || k > params.len() {
        acc
    } else {
        let (b, l) = params[k - 1];
        let next = match b.ty {
            None => Err(ExprErrorV::InvalidBinderParam(l)),
            Some(t) => match acc {
                Err(e) => Err(e),
                Ok(r) => Ok(if is_pi {
                    LTm::Pi(name_of(b), Box::new(t), Box::new(r), l)
                } else {
                    LTm::Lam(name_of(b), Box::new(t), Box::new(r), l)
                }),
            },
        };
        wrap_params(params, k - 1, next, is_pi)
    }
}

/// `f (x : A) : T` gives `f : (x : A) -> T`.
pub open spec fn fold_ty_s(binder: BinderV, ty: Result<LTm, ExprErrorV>) -> Result<LTm, ExprErrorV> {
    wrap_params(binder.1, binder.1.len() as int, ty, true)
}

/// `f (x : A) := v` gives `f := (x : A) => v`.
pub open spec fn fold_val_s(binder: BinderV, val: Result<LTm, ExprErrorV>) -> Result<LTm, ExprErrorV> {
    wrap_params(binder.1, binder.1.len() as int, val, false)
}

/// A binding with both a type and a value.
pub struct FullBind {
    pub name: Option<(Seq<char>, Seq<usize>)>,
    pub ty: LTm,
    pub val: LTm,
}

/// The bindings `bs[k..]` with their types and values; the first error in
/// order is the result.
pub open spec fn full_bindings(bs: Seq<(Result<TBind, ExprErrorV>, Seq<usize>)>, k: int) -> Result<Seq<(FullBind, Seq<usize>)>, ExprErrorV>
    decreases bs.len() - k,
{
    if k < 0 || k >= bs.len() {
        Ok(Seq::empty())
    } else {
        let (r, l) = bs[k];
        match r {
            Err(e) => Err(e),
            Ok(b) => match b.ty {
                None => Err(ExprErrorV::MissingType(l)),
                Some(ty) => match b.val {
                    None => Err(ExprErrorV::MissingValue(l)),
                    Some(val) => match full_bindings(bs, k + 1) {
                        Err(e) => Err(e),
                        Ok(rest) => Ok(seq![(FullBind { name: b.name, ty, val }, l)] + rest),
                    },
                },
            },
        }
    }
}

/// `(A => body) v` at the path of `body`.
pub open spec fn let_in(a: LTm, v: LTm, body: LTm) -> LTm {
    LTm::App(Box::new(LTm::Lam(anon_l(), Box::new(a), Box::new(body), loc_of(body))), Box::new(v), loc_of(body))
}

/// `b` with the fields `prevs[j..]` bound in its type and value, in order.
pub open spec fn bind_prevs(b: FullBind, prevs: Seq<(FullBind, Seq<usize>)>, j: int) -> FullBind
    decreases prevs.len() - j,
{
    if j < 0 || j >= prevs.len() {
        b
    } else {
        let p = prevs[j].0;
        bind_prevs(
            FullBind { name: b.name, ty: let_in(p.ty, p.val, b.ty), val: let_in(p.ty, p.val, b.val) },
            prevs,
            j + 1,
        )
    }
}

/// The first `n` fields, each with the fields before it bound.
pub open spec fn dependent_fields(fs: Seq<(FullBind, Seq<usize>)>, n: int) -> Seq<(FullBind, Seq<usize>)>
    decreases n,
{
    if n <= 0 || n > fs.len() {
        Seq::empty()
    } else {
        let prev = dependent_fields(fs, n - 1);
        prev.push((bind_prevs(fs[n - 1].0, prev, 0), fs[n - 1].1))
    }
}

/// `f` applied to the values of `fs[..k]`.
pub open spec fn apply_fields(fs: Seq<(FullBind, Seq<usize>)>, k: int, f: LTm) -> LTm
    decreases k,
{
    if k <= 0 || k > fs.len() {
        f
    } else {
        LTm::App(Box::new(apply_fields(fs, k - 1, f)), Box::new(fs[k - 1].0.val), fs[k - 1].1)
    }
}

/// The pi type over the fields `fs[..k]` (the last innermost) returning
/// `acc`; a field without a name is an error that wins over `acc`.
pub open spec fn field_pis(fs: Seq<(FullBind, Seq<usize>)>, k: int, acc: Result<LTm, ExprErrorV>) -> Result<LTm, ExprErrorV>
    decreases k,
{
    if k <= 0 || k > fs.len() {
        acc
    } else {
        let (b, l) = fs[k - 1];
        let next = match b.name {
            None => Err(ExprErrorV::MissingBinder(l)),
            Some((s, sl)) => match acc {
                Err(e) => Err(e),
                Ok(r) => Ok(LTm::Pi((VarKind::Named(s), sl), Box::new(b.ty), Box::new(r), l)),
            },
        };
        field_pis(fs, k - 1, next)
    }
}

/// A tuple as a Church encoding:
/// `(R : Type) => (f : (x : A1) -> ... -> R) => f v1 ...`.
pub open spec fn create_tuple_s(bs: Seq<(Result<TBind, ExprErrorV>, Seq<usize>)>, loc: Seq<usize>) -> Result<LTm, ExprErrorV> {
    match full_bindings(bs, 0) {
        Err(e) => Err(e),
        Ok(full) => {
            let fs = dependent_fields(full, full.len() as int);
            let body = apply_fields(fs, fs.len() as int, lvar(0, loc));
            match field_pis(fs, fs.len() as int, Ok(lvar(bs.len() as usize, loc))) {
                Err(e) => Err(e),
                Ok(f_type) => Ok(LTm::Lam(
                    anon_l(),
                    Box::new(LTm::Type(loc)),
                    Box::new(LTm::Lam(anon_l(), Box::new(f_type), Box::new(body), loc)),
                    loc,
                )),
            }
        },
    }
}

/// The pi type over the sigma fields `bs[..k]`; the error of a field, a
/// missing name or a missing type wins over `acc`.
pub open spec fn sigma_pis(bs: Seq<(Result<TBind, ExprErrorV>, Seq<usize>)>, k: int, acc: Result<LTm, ExprErrorV>) -> Result<LTm, ExprErrorV>
    decreases k,
{
    if k <= 0 || k > bs.len() {
        acc
    } else {
        let (r, l) = bs[k - 1];
        let next = match r {
            Err(e) => Err(e),
            Ok(b) => match b.name {
                None => Err(ExprErrorV::MissingBinder(l)),
                Some((s, sl)) => match b.ty {
                    None => Err(ExprErrorV::MissingType(l)),
                    Some(ty) => match acc {
                        Err(e) => Err(e),
                        Ok(rt) => Ok(LTm::Pi((VarKind::Named(s), sl), Box::new(ty), Box::new(rt), l)),
                    },
                },
            },
        };
        sigma_pis(bs, k - 1, next)
    }
}

/// A dependent pair type as a Church encoding:
/// `(R : Type) -> ((x : A1) -> ... -> R) -> R`.
pub open spec fn create_sigma_s(bs: Seq<(Result<TBind, ExprErrorV>, Seq<usize>)>, loc: Seq<usize>) -> Result<LTm, ExprErrorV> {
    match sigma_pis(bs, bs.len() as int, Ok(lvar(bs.len() as usize, loc))) {
        Err(e) => Err(e),
        Ok(f_type) => Ok(LTm::Pi(
            anon_l(),
            Box::new(LTm::Type(loc)),
            Box::new(LTm::Pi(anon_l(), Box::new(f_type), Box::new(lvar(1, loc)), loc)),
            loc,
        )),
    }
}

// ---------------------------------------------------------------------------
// Executable desugaring
// ---------------------------------------------------------------------------

/// A binding read from the surface syntax; each part may be missing.
#[derive(Debug)]
pub struct TypedBinding {
    pub name: Option<(String, Vec<usize>)>,
    pub ty: Option<SpannedNamedExpr>,
    pub val: Option<SpannedNamedExpr>,
}

/// A binding with both a type and a value.
#[derive(Debug)]
pub struct TypedBindingNoOption {
    pub name: Option<(String, Vec<usize>)>,
    pub ty: SpannedNamedExpr,
    pub val: SpannedNamedExpr,
}

/// A binder: a name with its path, and its parameters with their paths.
pub type FullBinder = ((String, Vec<usize>), Vec<(TypedBinding, Vec<usize>)>);

pub open spec fn name_v(n: Option<(String, Vec<usize>)>) -> Option<(Seq<char>, Seq<usize>)> {
    match n {
        Some((s, l)) => Some((s@, l@)),
        None => None,
    }
}

pub open spec fn opt_v(e: Option<SpannedNamedExpr>) -> Option<LTm> {
    match e {
        Some(x) => Some(x@),
        None => None,
    }
}

pub open spec fn tbind_v(b: TypedBinding) -> TBind {
    TBind { name: name_v(b.name), ty: opt_v(b.ty), val: opt_v(b.val) }
}

pub open spec fn params_v(ps: Seq<(TypedBinding, Vec<usize>)>) -> Seq<(TBind, Seq<usize>)> {
    ps.map_values(|p: (TypedBinding, Vec<usize>)| (tbind_v(p.0), p.1@))
}

pub open spec fn binder_v(b: FullBinder) -> BinderV {
    (((b.0).0@, (b.0).1@), params_v(b.1@))
}

pub open spec fn res_v(r: Result<SpannedNamedExpr, ExprError<Vec<usize>>>) -> Result<LTm, ExprErrorV> {
    match r {
        Ok(e) => Ok(e@),
        Err(x) => Err(x@),
    }
}

pub open spec fn res_tbind_v(r: Result<TypedBinding, ExprError<Vec<usize>>>) -> Result<TBind, ExprErrorV> {
    match r {
        Ok(b) => Ok(tbind_v(b)),
        Err(x) => Err(x@),
    }
}

pub open spec fn bindings_v(bs: Seq<(Result<TypedBinding, ExprError<Vec<usize>>>, Vec<usize>)>) -> Seq<(Result<TBind, ExprErrorV>, Seq<usize>)> {
    bs.map_values(|p: (Result<TypedBinding, ExprError<Vec<usize>>>, Vec<usize>)| (res_tbind_v(p.0), p.1@))
}

pub open spec fn full_v(f: TypedBindingNoOption) -> FullBind {
    FullBind { name: name_v(f.name), ty: f.ty@, val: f.val@ }
}

pub open spec fn fulls_v(fs: Seq<(TypedBindingNoOption, Vec<usize>)>) -> Seq<(FullBind, Seq<usize>)> {
    fs.map_values(|p: (TypedBindingNoOption, Vec<usize>)| (full_v(p.0), p.1@))
}

/// Copies a path-carrying expression.
#[verifier::loop_isolation(false)]
pub fn clone_spanned(e: &SpannedNamedExpr) -> (r: SpannedNamedExpr)
    ensures
        r@ == e@,
    decreases e,
{
    let loc = crate::expr::clone_path(&e.1);
    let node = match &e.0 {
        SpannedNamedNode::Var { idx } => SpannedNamedNode::Var {
            idx: match idx {
                VarKind::Named(s) => VarKind::Named(s.clone()),
                VarKind::Idx(i) => VarKind::Idx(*i),
            },
        },
        SpannedNamedNode::App { func, arg } => SpannedNamedNode::App {
            func: Box::new(clone_spanned(func)),
            arg: Box::new(clone_spanned(arg)),
        },
        SpannedNamedNode::Lambda { name, param_ty, body } => SpannedNamedNode::Lambda {
            name: (crate::expr::clone_var_kind(&name.0), crate::expr::clone_path(&name.1)),
            param_ty: Box::new(clone_spanned(param_ty)),
            body: Box::new(clone_spanned(body)),
        },
        SpannedNamedNode::Pi { name, param_ty, ret_ty } => SpannedNamedNode::Pi {
            name: (crate::expr::clone_var_kind(&name.0), crate::expr::clone_path(&name.1)),
            param_ty: Box::new(clone_spanned(param_ty)),
            ret_ty: Box::new(clone_spanned(ret_ty)),
        },
        SpannedNamedNode::Type => SpannedNamedNode::Type,
        SpannedNamedNode::Builtin(b) => SpannedNamedNode::Builtin(crate::expr::clone_builtin(b)),
        SpannedNamedNode::Error(err, items) => {
            let mut c: Vec<Box<SpannedNamedExpr>> = Vec::new();
            let mut i: usize = 0;
            while i < items.len()
                invariant
                    i <= items.len(),
                    ltms_of(c@) == ltms_of(items@.take(i as int)),
                decreases items.len() - i,
            {
                proof {
                    assert(decreases_to!(e.0 => *items));
                    assert(decreases_to!(*items => items@));
                    assert(decreases_to!(items@ => items@[i as int]));
                }
                let y = clone_spanned(&items[i]);
                let x = Box::new(y);
                let ghost before = c@;
                c.push(x);
                proof {
                    let a = ltms_of(c@);
                    let b = ltms_of(items@.take(i + 1));
                    assert(a.len() == b.len());
                    assert forall|j: int| 0 <= j < a.len() implies a[j] == b[j] by {
                        if j < i {
                            assert(c@[j] == before[j]);
                            assert(ltms_of(before)[j] == ltms_of(items@.take(i as int))[j]);
                        } else {
                            assert(c@[j] == x);
                        }
                    }
                    assert(a =~= b);
                }
                i = i + 1;
            }
            assert(items@.take(items.len() as int) =~= items@);
            SpannedNamedNode::Error(crate::expr::clone_error(err), c)
        },
    };
    SpannedNamedExpr(node, loc)
}

fn sne(node: SpannedNamedNode, loc: &Vec<usize>) -> (r: SpannedNamedExpr)
    ensures
        r.0 == node,
        r.1@ == loc@,
{
    SpannedNamedExpr(node, crate::expr::clone_path(loc))
}

fn lvar_exec(i: usize, loc: &Vec<usize>) -> (r: SpannedNamedExpr)
    ensures
        r@ == lvar(i, loc@),
{
    sne(SpannedNamedNode::Var { idx: VarKind::Idx(i) }, loc)
}

fn push_loc(loc: &Vec<usize>, k: usize) -> (r: Vec<usize>)
    ensures
        r@ == loc@.push(k),
{
    let mut r = crate::expr::clone_path(loc);
    r.push(k);
    r
}

fn name_to_var(n: &Option<(String, Vec<usize>)>) -> (r: BinderName)
    ensures
        (r.0@, r.1@) == name_of(TBind { name: name_v(*n), ty: None, val: None }),
{
    match n {
        Some((s, l)) => (VarKind::Named(s.clone()), crate::expr::clone_path(l)),
        None => anon_binder(),
    }
}

fn clone_name(n: &Option<(String, Vec<usize>)>) -> (r: Option<(String, Vec<usize>)>)
    ensures
        name_v(r) == name_v(*n),
{
    match n {
        Some((s, l)) => Some((s.clone(), crate::expr::clone_path(l))),
        None => None,
    }
}

/// Wraps `acc` in binders for the parameters, the last innermost: pis when
/// `is_pi`, else lambdas.
fn wrap_params_exec(params: &Vec<(TypedBinding, Vec<usize>)>, acc: Result<SpannedNamedExpr, ExprError<Vec<usize>>>, is_pi: bool) -> (r: Result<SpannedNamedExpr, ExprError<Vec<usize>>>)
    ensures
        res_v(r) == wrap_params(params_v(params@), params@.len() as int, res_v(acc), is_pi),
{
    let ghost pv = params_v(params@);
    let ghost init = res_v(acc);
    let mut acc = acc;
    let mut k = params.len();
    while k > 0
        invariant
            k <= params@.len(),
            pv == params_v(params@),
            wrap_params(pv, params@.len() as int, init, is_pi) == wrap_params(pv, k as int, res_v(acc), is_pi),
        decreases k,
    {
        let (b, l) = &params[k - 1];
        proof {
            assert(pv[k - 1] == (tbind_v(*b), l@));
        }
        let next = match &b.ty {
            None => Err(ExprError::InvalidBinderParam(crate::expr::clone_path(l))),
            Some(t) => match acc {
                Err(e) => Err(e),
                Ok(r) => {
                    let name = name_to_var(&b.name);
                    let t = clone_spanned(t);
                    let node = if is_pi {
                        SpannedNamedNode::Pi { name, param_ty: Box::new(t), ret_ty: Box::new(r) }
                    } else {
                        SpannedNamedNode::Lambda { name, param_ty: Box::new(t), body: Box::new(r) }
                    };
                    Ok(sne(node, l))
                },
            },
        };
        acc = next;
        k = k - 1;
    }
    acc
}

fn clone_params(ps: &Vec<(TypedBinding, Vec<usize>)>) -> (r: Vec<(TypedBinding, Vec<usize>)>)
    ensures
        params_v(r@) == params_v(ps@),
{
    let mut r: Vec<(TypedBinding, Vec<usize>)> = Vec::new();
    let mut i: usize = 0;
    while i < ps.len()
        invariant
            i <= ps@.len(),
            params_v(r@) == params_v(ps@.take(i as int)),
        decreases ps@.len() - i,
    {
        let (b, l) = &ps[i];
        let nb = TypedBinding {
            name: clone_name(&b.name),
            ty: match &b.ty {
                Some(t) => Some(clone_spanned(t)),
                None => None,
            },
            val: match &b.val {
                Some(t) => Some(clone_spanned(t)),
                None => None,
            },
        };
        let ghost before = r@;
        let lc = crate::expr::clone_path(l);
        r.push((nb, lc));
        proof {
            assert(tbind_v(nb) == tbind_v(*b));
            assert(r@ == before.push((nb, lc)));
            assert(params_v(r@) =~= params_v(before).push((tbind_v(nb), lc@)));
            assert(ps@.take(i + 1) =~= ps@.take(i as int).push(ps@[i as int]));
            assert(params_v(ps@.take(i + 1)) =~= params_v(ps@.take(i as int)).push((tbind_v(*b), l@)));
        }
        i = i + 1;
    }
    assert(ps@.take(ps@.len() as int) =~= ps@);
    r
}

/// `f (x : A) : T` gives `f : (x : A) -> T`.
pub fn fold_ty(binder: &FullBinder, ty: Result<SpannedNamedExpr, ExprError<Vec<usize>>>) -> (r: Result<SpannedNamedExpr, ExprError<Vec<usize>>>)
    ensures
        res_v(r) == fold_ty_s(binder_v(*binder), res_v(ty)),
{
    wrap_params_exec(&binder.1, ty, true)
}

/// `f (x : A) := v` gives `f := (x : A) => v`.
pub fn fold_val(binder: &FullBinder, body: Result<SpannedNamedExpr, ExprError<Vec<usize>>>) -> (r: Result<SpannedNamedExpr, ExprError<Vec<usize>>>)
    ensures
        res_v(r) == fold_val_s(binder_v(*binder), res_v(body)),
{
    wrap_params_exec(&binder.1, body, false)
}

proof fn lemma_loc(e: SpannedNamedExpr)
    ensures
        loc_of(e@) == e.1@,
{
    match e.0 {
        SpannedNamedNode::Var { .. } => {},
        SpannedNamedNode::App { .. } => {},
        SpannedNamedNode::Lambda { .. } => {},
        SpannedNamedNode::Pi { .. } => {},
        SpannedNamedNode::Type => {},
        SpannedNamedNode::Builtin(_) => {},
        SpannedNamedNode::Error(..) => {},
    }
}

/// The path recorded at the root is the node's own path.
pub proof fn lemma_loc_pub(e: SpannedNamedExpr)
    ensures
        loc_of(e@) == e.1@,
{
    lemma_loc(e);
}

/// Giving every node the empty path and then removing the paths gives the
/// expression back: `remove_span_expr` undoes `with_zero_span`.
pub proof fn lemma_strip_zero_span(t: NamedTerm)
    ensures
        strip(zero_span(t)) == t,
    decreases t,
{
    match t {
        Tm::App(f, a) => {
            lemma_strip_zero_span(*f);
            lemma_strip_zero_span(*a);
        },
        Tm::Lam(_, p, b) => {
            lemma_strip_zero_span(*p);
            lemma_strip_zero_span(*b);
        },
        Tm::Pi(_, p, r) => {
            lemma_strip_zero_span(*p);
            lemma_strip_zero_span(*r);
        },
        Tm::Fail(_, ts) => {
            let zs = zero_span(t)->Fail_1;
            assert(zs.len() == ts.len());
            assert forall|i: int| 0 <= i < ts.len() implies strip(zs[i]) == ts[i] by {
                lemma_strip_zero_span(ts[i]);
            }
            let back = strip(zero_span(t))->Fail_1;
            assert(back =~= ts);
        },
        _ => {},
    }
}

proof fn lemma_dependent_len(fs: Seq<(FullBind, Seq<usize>)>, n: int)
    requires
        0 <= n <= fs.len(),
    ensures
        dependent_fields(fs, n).len() == n,
    decreases n,
{
    if n > 0 {
        lemma_dependent_len(fs, n - 1);
    }
}

fn let_in_exec(a: &SpannedNamedExpr, v: &SpannedNamedExpr, body: SpannedNamedExpr) -> (r: SpannedNamedExpr)
    ensures
        r@ == let_in(a@, v@, body@),
{
    proof {
        lemma_loc(body);
    }
    let loc = crate::expr::clone_path(&body.1);
    let ghost bv = body@;
    let a2 = clone_spanned(a);
    let lam = SpannedNamedExpr(
        SpannedNamedNode::Lambda { name: anon_binder(), param_ty: Box::new(a2), body: Box::new(body) },
        crate::expr::clone_path(&loc),
    );
    assert(lam@ == LTm::Lam(anon_l(), Box::new(a@), Box::new(bv), loc_of(bv)));
    let v2 = clone_spanned(v);
    let r = SpannedNamedExpr(SpannedNamedNode::App { func: Box::new(lam), arg: Box::new(v2) }, loc);
    assert(r@ == LTm::App(Box::new(lam@), Box::new(v@), loc_of(bv)));
    r
}

fn clone_full(f: &TypedBindingNoOption) -> (r: TypedBindingNoOption)
    ensures
        full_v(r) == full_v(*f),
{
    TypedBindingNoOption { name: clone_name(&f.name), ty: clone_spanned(&f.ty), val: clone_spanned(&f.val) }
}

/// A tuple as a Church encoding:
/// `(R : Type) => (f : (x : A1) -> ... -> R) => f v1 ...`; each field sees
/// the fields before it, bound by `let_in`.
pub fn create_tuple(items: Vec<(Result<TypedBinding, ExprError<Vec<usize>>>, Vec<usize>)>, loc: Vec<usize>) -> (r: Result<SpannedNamedExpr, ExprError<Vec<usize>>>)
    ensures
        res_v(r) == create_tuple_s(bindings_v(items@), loc@),
{
    let ghost bv = bindings_v(items@);
    let mut full: Vec<(TypedBindingNoOption, Vec<usize>)> = Vec::new();
    let mut k: usize = 0;
    while k < items.len()
        invariant
            k <= items@.len(),
            bv == bindings_v(items@),
            full_bindings(bv, 0) == match full_bindings(bv, k as int) {
                Ok(rest) => Ok(fulls_v(full@) + rest),
                Err(e) => Err(e),
            },
        decreases items@.len() - k,
    {
        let (res, l) = &items[k];
        proof {
            assert(bv[k as int] == (res_tbind_v(*res), l@));
        }
        match res {
            Err(e) => {
                return Err(crate::expr::clone_error(e));
            },
            Ok(b) => match &b.ty {
                None => {
                    return Err(ExprError::MissingType(crate::expr::clone_path(l)));
                },
                Some(t) => match &b.val {
                    None => {
                        return Err(ExprError::MissingValue(crate::expr::clone_path(l)));
                    },
                    Some(v) => {
                        let f = TypedBindingNoOption { name: clone_name(&b.name), ty: clone_spanned(t), val: clone_spanned(v) };
                        let lc = crate::expr::clone_path(l);
                        let ghost before = full@;
                        full.push((f, lc));
                        proof {
                            assert(fulls_v(full@) =~= fulls_v(before).push((full_v(f), l@)));
                            let next = full_bindings(bv, k + 1);
                            if next is Ok {
                                assert(fulls_v(before) + (seq![(full_v(f), l@)] + next->Ok_0) =~= fulls_v(full@) + next->Ok_0);
                            }
                        }
                    },
                },
            },
        }
        k = k + 1;
    }
    proof {
        assert(fulls_v(full@) + Seq::<(FullBind, Seq<usize>)>::empty() =~= fulls_v(full@));
    }
    let ghost fv = fulls_v(full@);
    // each field with the fields before it bound in its type and value
    let mut fields: Vec<(TypedBindingNoOption, Vec<usize>)> = Vec::new();
    let mut n: usize = 0;
    while n < full.len()
        invariant
            n <= full@.len(),
            fv == fulls_v(full@),
            fulls_v(fields@) == dependent_fields(fv, n as int),
        decreases full@.len() - n,
    {
        let (f, l) = &full[n];
        let ghost f0 = full_v(*f);
        proof {
            assert(fv[n as int] == (f0, l@));
        }
        let mut cur = clone_full(f);
        let mut j: usize = 0;
        while j < fields.len()
            invariant
                j <= fields@.len(),
                bind_prevs(f0, fulls_v(fields@), 0) == bind_prevs(full_v(cur), fulls_v(fields@), j as int),
            decreases fields@.len() - j,
        {
            let p = &fields[j].0;
            proof {
                assert(fulls_v(fields@)[j as int].0 == full_v(*p));
            }
            let TypedBindingNoOption { name, ty, val } = cur;
            let ty2 = let_in_exec(&p.ty, &p.val, ty);
            let val2 = let_in_exec(&p.ty, &p.val, val);
            cur = TypedBindingNoOption { name, ty: ty2, val: val2 };
            j = j + 1;
        }
        let ghost before = fields@;
        fields.push((cur, crate::expr::clone_path(l)));
        proof {
            assert(fulls_v(fields@) =~= fulls_v(before).push((full_v(cur), l@)));
        }
        n = n + 1;
    }
    let ghost fs = fulls_v(fields@);
    // the body: `f` applied to the field values
    let mut body = lvar_exec(0, &loc);
    let mut k: usize = 0;
    while k < fields.len()
        invariant
            k <= fields@.len(),
            fs == fulls_v(fields@),
            body@ == apply_fields(fs, k as int, lvar(0, loc@)),
        decreases fields@.len() - k,
    {
        let (f, l) = &fields[k];
        proof {
            assert(fs[k as int] == (full_v(*f), l@));
        }
        body = sne(SpannedNamedNode::App { func: Box::new(body), arg: Box::new(clone_spanned(&f.val)) }, l);
        k = k + 1;
    }
    // the type of `f`
    let mut acc: Result<SpannedNamedExpr, ExprError<Vec<usize>>> = Ok(lvar_exec(items_len_of(&items), &loc));
    let ghost init = res_v(acc);
    let mut k = fields.len();
    while k > 0
        invariant
            k <= fields@.len(),
            fs == fulls_v(fields@),
            field_pis(fs, fields@.len() as int, init) == field_pis(fs, k as int, res_v(acc)),
        decreases k,
    {
        let (f, l) = &fields[k - 1];
        proof {
            assert(fs[k - 1] == (full_v(*f), l@));
        }
        let next = match &f.name {
            None => Err(ExprError::MissingBinder(crate::expr::clone_path(l))),
            Some((s, sl)) => match acc {
                Err(e) => Err(e),
                Ok(r) => Ok(sne(
                    SpannedNamedNode::Pi { name: (VarKind::Named(s.clone()), crate::expr::clone_path(sl)), param_ty: Box::new(clone_spanned(&f.ty)), ret_ty: Box::new(r) },
                    l,
                )),
            },
        };
        acc = next;
        k = k - 1;
    }
    proof {
        lemma_dependent_len(fv, fv.len() as int);
        assert(fields@.len() == fv.len());
        assert(bv.len() == items@.len());
        assert(full_bindings(bv, 0) == Ok::<Seq<(FullBind, Seq<usize>)>, ExprErrorV>(fv));
    }
    match acc {
        Err(e) => Err(e),
        Ok(f_type) => {
            let ghost fv2 = f_type@;
            let ghost bv2 = body@;
            let inner = sne(SpannedNamedNode::Lambda { name: anon_binder(), param_ty: Box::new(f_type), body: Box::new(body) }, &loc);
            assert(inner@ == LTm::Lam(anon_l(), Box::new(fv2), Box::new(bv2), loc@));
            let ty = sne(SpannedNamedNode::Type, &loc);
            assert(ty@ == LTm::Type(loc@));
            let r = sne(SpannedNamedNode::Lambda { name: anon_binder(), param_ty: Box::new(ty), body: Box::new(inner) }, &loc);
            assert(r@ == LTm::Lam(anon_l(), Box::new(LTm::Type(loc@)), Box::new(inner@), loc@));
            Ok(r)
        },
    }
}

fn items_len_of(items: &Vec<(Result<TypedBinding, ExprError<Vec<usize>>>, Vec<usize>)>) -> (n: usize)
    ensures
        n == items@.len(),
{
    items.len()
}

/// A dependent pair type as a Church encoding:
/// `(R : Type) -> ((x : A1) -> ... -> R) -> R`.
pub fn create_sigma(items: Vec<(Result<TypedBinding, ExprError<Vec<usize>>>, Vec<usize>)>, loc: Vec<usize>) -> (r: Result<SpannedNamedExpr, ExprError<Vec<usize>>>)
    ensures
        res_v(r) == create_sigma_s(bindings_v(items@), loc@),
{
    let ghost bv = bindings_v(items@);
    assert(bv.len() == items@.len());
    let mut acc: Result<SpannedNamedExpr, ExprError<Vec<usize>>> = Ok(lvar_exec(items.len(), &loc));
    let ghost init = res_v(acc);
    let mut k = items.len();
    while k > 0
        invariant
            k <= items@.len(),
            bv == bindings_v(items@),
            sigma_pis(bv, items@.len() as int, init) == sigma_pis(bv, k as int, res_v(acc)),
        decreases k,
    {
        let (res, l) = &items[k - 1];
        proof {
            assert(bv[k - 1] == (res_tbind_v(*res), l@));
        }
        let next = match res {
            Err(e) => Err(crate::expr::clone_error(e)),
            Ok(b) => match &b.name {
                None => Err(ExprError::MissingBinder(crate::expr::clone_path(l))),
                Some((s, sl)) => match &b.ty {
                    None => Err(ExprError::MissingType(crate::expr::clone_path(l))),
                    Some(ty) => match acc {
                        Err(e) => Err(e),
                        Ok(rt) => Ok(sne(
                            SpannedNamedNode::Pi { name: (VarKind::Named(s.clone()), crate::expr::clone_path(sl)), param_ty: Box::new(clone_spanned(ty)), ret_ty: Box::new(rt) },
                            l,
                        )),
                    },
                },
            },
        };
        acc = next;
        k = k - 1;
    }
    match acc {
        Err(e) => Err(e),
        Ok(f_type) => {
            let ghost fv2 = f_type@;
            let one = lvar_exec(1, &loc);
            let inner = sne(SpannedNamedNode::Pi { name: anon_binder(), param_ty: Box::new(f_type), ret_ty: Box::new(one) }, &loc);
            assert(inner@ == LTm::Pi(anon_l(), Box::new(fv2), Box::new(lvar(1, loc@)), loc@));
            let ty = sne(SpannedNamedNode::Type, &loc);
            assert(ty@ == LTm::Type(loc@));
            let r = sne(SpannedNamedNode::Pi { name: anon_binder(), param_ty: Box::new(ty), ret_ty: Box::new(inner) }, &loc);
            assert(r@ == LTm::Pi(anon_l(), Box::new(LTm::Type(loc@)), Box::new(inner@), loc@));
            Ok(r)
        },
    }
}

pub open spec fn res_binder_v(r: Result<FullBinder, ExprError<Vec<usize>>>) -> Result<BinderV, ExprErrorV> {
    match r {
        Ok(b) => Ok(binder_v(b)),
        Err(x) => Err(x@),
    }
}

/// Gives every node of `x` the empty path.
#[verifier::loop_isolation(false)]
pub fn with_zero_span(x: &NamedExpr) -> (r: SpannedNamedExpr)
    ensures
        r@ == zero_span(x@),
    decreases x,
{
    let loc: Vec<usize> = Vec::new();
    let node = match x {
        GExpr::Var { idx } => SpannedNamedNode::Var {
            idx: match idx {
                VarKind::Named(s) => VarKind::Named(s.clone()),
                VarKind::Idx(i) => VarKind::Idx(*i),
            },
        },
        GExpr::App { func, arg } => SpannedNamedNode::App { func: Box::new(with_zero_span(func)), arg: Box::new(with_zero_span(arg)) },
        GExpr::Lambda { name, param_ty, body } => SpannedNamedNode::Lambda {
            name: (crate::expr::clone_var_kind(name), Vec::new()),
            param_ty: Box::new(with_zero_span(param_ty)),
            body: Box::new(with_zero_span(body)),
        },
        GExpr::Pi { name, param_ty, ret_ty } => SpannedNamedNode::Pi {
            name: (crate::expr::clone_var_kind(name), Vec::new()),
            param_ty: Box::new(with_zero_span(param_ty)),
            ret_ty: Box::new(with_zero_span(ret_ty)),
        },
        GExpr::Type => SpannedNamedNode::Type,
        GExpr::Builtin(b) => SpannedNamedNode::Builtin(crate::expr::clone_builtin(b)),
        GExpr::Error(err, items) => {
            let mut c: Vec<Box<SpannedNamedExpr>> = Vec::new();
            let mut i: usize = 0;
            let ghost ts = crate::expr::tms_of(items@);
            proof {
                crate::expr::lemma_tms_of_len(items@);
            }
            while i < items.len()
                invariant
                    i <= items@.len(),
                    ts == crate::expr::tms_of(items@),
                    ts.len() == items@.len(),
                    forall|j: int| 0 <= j < items@.len() ==> #[trigger] ts[j] == tm_named(*items@[j]),
                    c@.len() == i,
                    forall|j: int| 0 <= j < i ==> ltm_of(*#[trigger] c@[j]) == zero_span(ts[j]),
                decreases items@.len() - i,
            {
                proof {
                    assert(decreases_to!(*x => *items));
                    assert(decreases_to!(*items => items@));
                    assert(decreases_to!(items@ => items@[i as int]));
                }
                let y = with_zero_span(&items[i]);
                c.push(Box::new(y));
                i = i + 1;
            }
            proof {
                let zs = zero_span(x@)->1;
                assert(zs.len() == ts.len());
                assert(ltms_of(c@) =~= zs);
            }
            SpannedNamedNode::Error(crate::expr::clone_error(err), c)
        },
    };
    SpannedNamedExpr(node, loc)
}

pub open spec fn tm_named(e: NamedExpr) -> NamedTerm {
    e@
}

fn unit_exec(loc: &Vec<usize>) -> (r: SpannedNamedExpr)
    ensures
        r@ == unit_term(loc@),
{
    let inner = sne(SpannedNamedNode::Lambda { name: anon_binder(), param_ty: Box::new(lvar_exec(0, loc)), body: Box::new(lvar_exec(0, loc)) }, loc);
    assert(inner@ == LTm::Lam(anon_l(), Box::new(lvar(0, loc@)), Box::new(lvar(0, loc@)), loc@));
    let ty = sne(SpannedNamedNode::Type, loc);
    assert(ty@ == LTm::Type(loc@));
    let r = sne(SpannedNamedNode::Lambda { name: anon_binder(), param_ty: Box::new(ty), body: Box::new(inner) }, loc);
    assert(r@ == LTm::Lam(anon_l(), Box::new(LTm::Type(loc@)), Box::new(inner@), loc@));
    r
}

proof fn lemma_items_len(v: Seq<FixAst>)
    ensures
        crate::ast::asts_v(v).len() == v.len(),
{
}

proof fn lemma_items(v: Seq<FixAst>, k: int)
    requires
        0 <= k < v.len(),
    ensures
        crate::ast::asts_v(v)[k] == v[k]@,
        crate::ast::asts_v(v).len() == v.len(),
{
}

pub open spec fn out_v(r: Option<Result<SpannedNamedExpr, ExprError<Vec<usize>>>>) -> Out<LTm> {
    match r {
        Some(x) => Some(res_v(x)),
        None => None,
    }
}

pub open spec fn out_tbind_v(r: Option<Result<TypedBinding, ExprError<Vec<usize>>>>) -> Out<TBind> {
    match r {
        Some(x) => Some(res_tbind_v(x)),
        None => None,
    }
}

pub open spec fn out_binder_v(r: Option<Result<FullBinder, ExprError<Vec<usize>>>>) -> Out<BinderV> {
    match r {
        Some(x) => Some(res_binder_v(x)),
        None => None,
    }
}

/// Whether every character of `s` is a decimal digit.
fn digits_only(s: &str) -> (b: bool)
    ensures
        b == all_digits(s@),
{
    let cs = crate::lexer::chars_of(s);
    let mut i: usize = 0;
    while i < cs.len()
        invariant
            i <= cs@.len(),
            cs@ == s@,
            forall|j: int| 0 <= j < i ==> '0' as u32 <= #[trigger] cs@[j] as u32 <= '9' as u32,
        decreases cs@.len() - i,
    {
        let u = cs[i] as u32;
        if !(48 <= u && u <= 57) {
            return false;
        }
        i = i + 1;
    }
    true
}

/// Desugars `a`, found at path `loc` of the surface tree, as `desugar_s`
/// says; `None` where it gives `None`.
#[verifier::loop_isolation(false)]
#[verifier::rlimit(60)]
/// Each item read as a binding with the value first (`x`, `x : T` and
/// `x := v` all give a value), with the item's path, as `to_bindings_s`
/// says; `None` where the desugaring does not handle an item.
fn to_bindings(a: &FixAst, loc: &Vec<usize>) -> (r: Option<Vec<(Result<TypedBinding, ExprError<Vec<usize>>>, Vec<usize>)>>)
    requires
        a is Tuple || a is Sigma,
    ensures
        match (r, to_bindings_s(a@.items, loc@, 0)) {
            (Some(bs), Some(s)) => bindings_v(bs@) == s,
            (None, None) => true,
            _ => false,
        },
    decreases a, 0nat, 0nat,
{
    let items = match a {
        FixAst::Tuple(items) | FixAst::Sigma(items) => items,
        _ => {
            proof {
                assert(false);
            }
            return None;
        },
    };
    assert(a@.items == crate::ast::asts_v(items@));
    let ghost iv = crate::ast::asts_v(items@);
    proof {
        lemma_items_len(items@);
    }
    let mut bs: Vec<(Result<TypedBinding, ExprError<Vec<usize>>>, Vec<usize>)> = Vec::new();
    let mut k: usize = 0;
    while k < items.len()
        invariant
            k <= items@.len(),
            to_bindings_s(iv, loc@, 0) == match to_bindings_s(iv, loc@, k as int) {
                Some(rest) => Some(bindings_v(bs@) + rest),
                None => None,
            },
        decreases items@.len() - k,
    {
        proof {
            lemma_items(items@, k as int);
            assert(decreases_to!(*a => *items));
            assert(decreases_to!(*items => items@));
            assert(decreases_to!(items@ => items@[k as int]));
        }
        let kloc = push_loc(loc, k);
        let b = match extract_binding_go(&items[k], &kloc, BindingPriority::ValNameTy) {
            None => {
                return None;
            },
            Some(b) => b,
        };
        let ghost before = bs@;
        let ghost bv = res_tbind_v(b);
        bs.push((b, kloc));
        proof {
            assert(bindings_v(bs@) =~= bindings_v(before).push((bv, loc@.push(k))));
            let next = to_bindings_s(iv, loc@, k + 1);
            if next is Some {
                assert(bindings_v(before) + (seq![(bv, loc@.push(k))] + next.unwrap()) =~= bindings_v(bs@)
                    + next.unwrap());
            }
        }
        k = k + 1;
    }
    proof {
        assert(bindings_v(bs@) + Seq::<(Result<TBind, ExprErrorV>, Seq<usize>)>::empty() =~= bindings_v(bs@));
    }
    Some(bs)
}

#[verifier::loop_isolation(false)]
fn desugar_go(a: &FixAst, loc: &Vec<usize>) -> (r: Option<Result<SpannedNamedExpr, ExprError<Vec<usize>>>>)
    ensures
        out_v(r) == desugar_s(a@, loc@),
    decreases a, rank_d(a@), 0nat,
{
    match a {
        FixAst::Var(name) => Some(Ok(sne(SpannedNamedNode::Var { idx: VarKind::Named(name.clone()) }, loc))),
        FixAst::Lit(LitKind::Number(n)) => {
            if !digits_only(n.as_str()) {
                return None;
            }
            if is_zero_number(n.as_str()) {
                return None;
            }
            let e = create_church_num(n.as_str());
            Some(Ok(with_zero_span(&e)))
        },
        FixAst::Lit(LitKind::String(_)) | FixAst::Dot(_) => None,
        FixAst::App(items) | FixAst::Pipe(items) => {
            let ghost iv = crate::ast::asts_v(items@);
            proof {
                lemma_items_len(items@);
            }
            if items.len() == 0 {
                return None;
            }
            proof {
                lemma_items(items@, 0);
                assert(decreases_to!(*a => *items));
                assert(decreases_to!(*items => items@));
                assert(decreases_to!(items@ => items@[0]));
            }
            let first = desugar_go(&items[0], &push_loc(loc, 0));
            let ghost init = out_v(first);
            let mut acc = match first {
                None => {
                    return None;
                },
                Some(x) => x,
            };
            let mut k: usize = 1;
            while k < items.len()
                invariant
                    1 <= k <= items@.len(),
                    app_fold(iv, 1, loc@, init) == app_fold(iv, k as int, loc@, Some(res_v(acc))),
                decreases items@.len() - k,
            {
                match acc {
                    Err(e) => {
                        return Some(Err(e));
                    },
                    Ok(f) => {
                        proof {
                            lemma_items(items@, k as int);
                            assert(decreases_to!(*a => *items));
                            assert(decreases_to!(*items => items@));
                            assert(decreases_to!(items@ => items@[k as int]));
                        }
                        match desugar_go(&items[k], &push_loc(loc, k)) {
                            None => {
                                return None;
                            },
                            Some(Err(e)) => {
                                return Some(Err(e));
                            },
                            Some(Ok(x)) => {
                                let ghost fv = f@;
                                let ghost xv = x@;
                                let app = sne(SpannedNamedNode::App { func: Box::new(f), arg: Box::new(x) }, loc);
                                assert(app@ == LTm::App(Box::new(fv), Box::new(xv), loc@));
                                acc = Ok(app);
                            },
                        }
                    },
                }
                k = k + 1;
            }
            Some(acc)
        },
        FixAst::Lambda(items) | FixAst::Pi(items) => {
            let is_pi = matches!(a, FixAst::Pi(_));
            let ghost iv = crate::ast::asts_v(items@);
            proof {
                lemma_items_len(items@);
            }
            if items.len() == 0 {
                return None;
            }
            let n = items.len() - 1;
            proof {
                lemma_items(items@, n as int);
                assert(decreases_to!(*a => *items));
                assert(decreases_to!(*items => items@));
                assert(decreases_to!(items@ => items@[n as int]));
            }
            let base = desugar_go(&items[n], &push_loc(loc, n));
            let ghost init = out_v(base);
            let mut acc = match base {
                None => {
                    proof {
                        assert(lam_fold(iv, n as int, loc@, None, is_pi) is None);
                    }
                    return None;
                },
                Some(x) => x,
            };
            let mut k: usize = n;
            let prior = if is_pi { BindingPriority::TyNameVal } else { BindingPriority::NameTyVal };
            while k > 0
                invariant
                    k <= n < items@.len(),
                    lam_fold(iv, n as int, loc@, init, is_pi) == lam_fold(iv, k as int, loc@, Some(res_v(acc)), is_pi),
                    prior == (if is_pi { BindingPriority::TyNameVal } else { BindingPriority::NameTyVal }),
                decreases k,
            {
                let i = k - 1;
                proof {
                    lemma_items(items@, i as int);
                    assert(decreases_to!(*a => *items));
                    assert(decreases_to!(*items => items@));
                    assert(decreases_to!(items@ => items@[i as int]));
                }
                let iloc = push_loc(loc, i);
                let b = match extract_binding_go(&items[i], &iloc, prior) {
                    None => {
                        proof {
                            assert(lam_fold(iv, i as int, loc@, None, is_pi) is None);
                        }
                        return None;
                    },
                    Some(b) => b,
                };
                let next = match b {
                    Err(e) => Err(e),
                    Ok(b) => match b.ty {
                        None => Err(ExprError::MissingType(iloc)),
                        Some(ty) => match acc {
                            Err(e) => Err(e),
                            Ok(body) => {
                                let name = name_to_var(&b.name);
                                let ghost tv = ty@;
                                let ghost bv = body@;
                                let node = if is_pi {
                                    SpannedNamedNode::Pi { name, param_ty: Box::new(ty), ret_ty: Box::new(body) }
                                } else {
                                    SpannedNamedNode::Lambda { name, param_ty: Box::new(ty), body: Box::new(body) }
                                };
                                let e = sne(node, loc);
                                assert(e@ == (if is_pi {
                                    LTm::Pi(name_of(tbind_v(b)), Box::new(tv), Box::new(bv), loc@)
                                } else {
                                    LTm::Lam(name_of(tbind_v(b)), Box::new(tv), Box::new(bv), loc@)
                                }));
                                Ok(e)
                            },
                        },
                    },
                };
                acc = next;
                k = i;
            }
            Some(acc)
        },
        FixAst::Tuple(items) | FixAst::Sigma(items) => {
            let is_tuple = matches!(a, FixAst::Tuple(_));
            let bs = match to_bindings(a, loc) {
                Some(bs) => bs,
                None => return None,
            };
            if is_tuple {
                Some(create_tuple(bs, crate::expr::clone_path(loc)))
            } else {
                Some(create_sigma(bs, crate::expr::clone_path(loc)))
            }
        },
        FixAst::Group(inner) => {
            proof {
                assert(a@.items == seq![inner@]);
            }
            desugar_go(inner, &push_loc(loc, 0))
        },
        FixAst::Type => Some(Ok(sne(SpannedNamedNode::Type, loc))),
        FixAst::Unit => Some(Ok(unit_exec(loc))),
        FixAst::Ann(_) | FixAst::Binding(_) => {
            match extract_binding_go(a, loc, BindingPriority::ValNameTy) {
                None => None,
                Some(Err(e)) => Some(Err(e)),
                Some(Ok(b)) => match b.val {
                    Some(v) => Some(Ok(v)),
                    None => Some(Err(ExprError::MissingValue(crate::expr::clone_path(loc)))),
                },
            }
        },
        FixAst::Error(..) => Some(Err(ExprError::Unknown)),
    }
}

/// Reads a binder, as `extract_binder_s` says.
#[verifier::loop_isolation(false)]
fn extract_binder_go(a: &FixAst, loc: &Vec<usize>) -> (r: Option<Result<FullBinder, ExprError<Vec<usize>>>>)
    ensures
        out_binder_v(r) == extract_binder_s(a@, loc@),
    decreases a, 0nat, 0nat,
{
    match a {
        FixAst::Group(inner) => {
            proof {
                assert(a@.items == seq![inner@]);
            }
            extract_binder_go(inner, &push_loc(loc, 0))
        },
        FixAst::Var(x) => {
            let ps: Vec<(TypedBinding, Vec<usize>)> = Vec::new();
            proof {
                assert(params_v(ps@) =~= Seq::<(TBind, Seq<usize>)>::empty());
            }
            Some(Ok(((x.clone(), crate::expr::clone_path(loc)), ps)))
        },
        FixAst::App(items) => {
            let ghost iv = crate::ast::asts_v(items@);
            proof {
                lemma_items_len(items@);
            }
            if items.len() == 0 {
                return None;
            }
            proof {
                lemma_items(items@, 0);
            }
            match &items[0] {
                FixAst::Var(name) => {
                    let mut ps: Vec<(TypedBinding, Vec<usize>)> = Vec::new();
                    let mut k: usize = 1;
                    while k < items.len()
                        invariant
                            1 <= k <= items@.len(),
                            binder_params(iv, 1, loc@) == match binder_params(iv, k as int, loc@) {
                                Some(Ok(rest)) => Some(Ok(params_v(ps@) + rest)),
                                other => other,
                            },
                        decreases items@.len() - k,
                    {
                        proof {
                            lemma_items(items@, k as int);
                            assert(decreases_to!(*a => *items));
                            assert(decreases_to!(*items => items@));
                            assert(decreases_to!(items@ => items@[k as int]));
                        }
                        let kloc = push_loc(loc, k);
                        match extract_binding_go(&items[k], &kloc, BindingPriority::NameTyVal) {
                            None => {
                                return None;
                            },
                            Some(Err(e)) => {
                                return Some(Err(e));
                            },
                            Some(Ok(b)) => {
                                let ghost before = ps@;
                                let ghost bv = tbind_v(b);
                                ps.push((b, kloc));
                                proof {
                                    assert(params_v(ps@) =~= params_v(before).push((bv, loc@.push(k))));
                                    let next = binder_params(iv, k + 1, loc@);
                                    if next is Some && next.unwrap() is Ok {
                                        let rest = next.unwrap()->Ok_0;
                                        assert(params_v(before) + (seq![(bv, loc@.push(k))] + rest) =~= params_v(ps@) + rest);
                                    }
                                }
                            },
                        }
                        k = k + 1;
                    }
                    proof {
                        assert(params_v(ps@) + Seq::<(TBind, Seq<usize>)>::empty() =~= params_v(ps@));
                    }
                    Some(Ok(((name.clone(), push_loc(loc, 0)), ps)))
                },
                _ => Some(Err(ExprError::InvalidBinderName(push_loc(loc, 0)))),
            }
        },
        _ => Some(Err(ExprError::InvalidBinder(crate::expr::clone_path(loc)))),
    }
}

/// Reads a binding, as `extract_binding_s` says.
#[verifier::loop_isolation(false)]
#[verifier::rlimit(60)]
fn extract_binding_go(a: &FixAst, loc: &Vec<usize>, prior: BindingPriority) -> (r: Option<Result<TypedBinding, ExprError<Vec<usize>>>>)
    ensures
        out_tbind_v(r) == extract_binding_s(a@, loc@, prior),
    decreases a, 2nat, 0nat,
{
    match a {
        FixAst::Group(inner) => {
            proof {
                assert(a@.items == seq![inner@]);
            }
            extract_binding_go(inner, &push_loc(loc, 0), prior)
        },
        FixAst::Binding(items) => {
            let ghost iv = crate::ast::asts_v(items@);
            proof {
                lemma_items_len(items@);
            }
            let n = items.len();
            if n == 0 {
                return None;
            }
            proof {
                lemma_items(items@, 0);
            }
            let nloc = push_loc(loc, 0);
            // every value is desugared; the last one is the value
            let mut last: Option<Result<SpannedNamedExpr, ExprError<Vec<usize>>>> = None;
            let mut k: usize = 1;
            while k < n
                invariant
                    1 <= k <= n,
                    n == items@.len(),
                    k < n ==> last_desugar(iv, 1, loc@) == last_desugar(iv, k as int, loc@),
                    k == 1 ==> last is None,
                    k == n && k > 1 ==> (last is Some && last_desugar(iv, 1, loc@) == Some(res_v(last.unwrap()))),
                decreases n - k,
            {
                proof {
                    lemma_items(items@, k as int);
                    assert(decreases_to!(*a => *items));
                    assert(decreases_to!(*items => items@));
                    assert(decreases_to!(items@ => items@[k as int]));
                }
                match desugar_go(&items[k], &push_loc(loc, k)) {
                    None => {
                        return None;
                    },
                    Some(r) => {
                        last = Some(r);
                    },
                }
                k = k + 1;
            }
            let val = match last {
                Some(v) => v,
                None => {
                    return None;
                },
            };
            proof {
                assert(last_desugar(iv, 1, loc@) == Some(res_v(val)));
                assert(decreases_to!(*a => *items));
                assert(decreases_to!(*items => items@));
                assert(decreases_to!(items@ => items@[0]));
            }
            match &items[0] {
                FixAst::Ann(items2) => {
                    proof {
                        lemma_items_len(items2@);
                    }
                    if items2.len() < 2 {
                        return None;
                    }
                    proof {
                        lemma_items(items2@, 0);
                        lemma_items(items2@, 1);
                        assert(decreases_to!(items@[0] => *items2));
                        assert(decreases_to!(*items2 => items2@));
                        assert(decreases_to!(items2@ => items2@[1]));
                        assert(decreases_to!(items2@ => items2@[0]));
                    }
                    let ty = match desugar_go(&items2[1], &push_loc(&nloc, 1)) {
                        None => {
                            return None;
                        },
                        Some(t) => t,
                    };
                    match extract_binder_go(&items2[0], &push_loc(&nloc, 0)) {
                        None => None,
                        Some(Err(e)) => Some(Err(e)),
                        Some(Ok(binder)) => match fold_ty(&binder, ty) {
                            Err(e) => Some(Err(e)),
                            Ok(ty) => match fold_val(&binder, val) {
                                Err(e) => Some(Err(e)),
                                Ok(val) => Some(Ok(TypedBinding { name: Some(binder.0), ty: Some(ty), val: Some(val) })),
                            },
                        },
                    }
                },
                named => {
                    match extract_binder_go(named, &nloc) {
                        None => None,
                        Some(Err(e)) => Some(Err(e)),
                        Some(Ok(binder)) => match fold_val(&binder, val) {
                            Err(e) => Some(Err(e)),
                            Ok(val) => Some(Ok(TypedBinding { name: Some(binder.0), ty: None, val: Some(val) })),
                        },
                    }
                },
            }
        },
        FixAst::Ann(items) => {
            proof {
                lemma_items_len(items@);
            }
            if items.len() < 2 {
                return None;
            }
            proof {
                lemma_items(items@, 0);
                lemma_items(items@, 1);
                assert(decreases_to!(*a => *items));
                assert(decreases_to!(*items => items@));
                assert(decreases_to!(items@ => items@[1]));
                assert(decreases_to!(items@ => items@[0]));
            }
            let ty = match desugar_go(&items[1], &push_loc(loc, 1)) {
                None => {
                    return None;
                },
                Some(t) => t,
            };
            match extract_binder_go(&items[0], &push_loc(loc, 0)) {
                None => None,
                Some(Err(e)) => Some(Err(e)),
                Some(Ok(binder)) => match fold_ty(&binder, ty) {
                    Err(e) => Some(Err(e)),
                    Ok(ty) => Some(Ok(TypedBinding { name: Some(binder.0), ty: Some(ty), val: None })),
                },
            }
        },
        _ => match prior {
            BindingPriority::NameTyVal => match extract_binder_go(a, loc) {
                None => None,
                Some(Err(e)) => Some(Err(e)),
                Some(Ok(binder)) => Some(Ok(TypedBinding { name: Some(binder.0), ty: None, val: None })),
            },
            BindingPriority::TyNameVal => match desugar_go(a, loc) {
                None => None,
                Some(Err(e)) => Some(Err(e)),
                Some(Ok(ty)) => Some(Ok(TypedBinding { name: None, ty: Some(ty), val: None })),
            },
            BindingPriority::ValNameTy => match desugar_go(a, loc) {
                None => None,
                Some(Err(e)) => Some(Err(e)),
                Some(Ok(val)) => Some(Ok(TypedBinding { name: None, ty: None, val: Some(val) })),
            },
        },
    }
}

/// Desugars `expr`, found at path `loc` of the surface tree, as
/// `desugar_s` says; `None` where the desugaring stops without a result:
/// string literals, `.` chains, the number 0, and operators without
/// operands. Other numbers are taken modulo 2^64, so a nonzero multiple of
/// 2^64 gives the numeral zero.
pub fn try_desugar(expr: &FixAst, loc: &Vec<usize>) -> (r: Option<Result<SpannedNamedExpr, ExprError<Vec<usize>>>>)
    ensures
        out_v(r) == desugar_s(expr@, loc@),
{
    desugar_go(expr, loc)
}

/// Desugars `expr`, found at path `loc` of the surface tree, as
/// `desugar_s` says; the input must be one on which it gives a result.
pub fn desugar(expr: FixAst, loc: Vec<usize>) -> (r: Result<SpannedNamedExpr, ExprError<Vec<usize>>>)
    requires
        desugar_s(expr@, loc@) is Some,
    ensures
        Some(res_v(r)) == desugar_s(expr@, loc@),
{
    match desugar_go(&expr, &loc) {
        Some(r) => r,
        None => Err(ExprError::Unknown),
    }
}

/// Reads a binder: a name, or a name applied to parameters.
pub fn extract_binder(expr: FixAst, loc: Vec<usize>) -> (r: Result<FullBinder, ExprError<Vec<usize>>>)
    requires
        extract_binder_s(expr@, loc@) is Some,
    ensures
        Some(res_binder_v(r)) == extract_binder_s(expr@, loc@),
{
    match extract_binder_go(&expr, &loc) {
        Some(r) => r,
        None => Err(ExprError::Unknown),
    }
}

/// Reads a binding; `prior` says what a lone expression stands for.
pub fn extract_binding(expr: FixAst, loc: Vec<usize>, prior: BindingPriority) -> (r: Result<TypedBinding, ExprError<Vec<usize>>>)
    requires
        extract_binding_s(expr@, loc@, prior) is Some,
    ensures
        Some(res_tbind_v(r)) == extract_binding_s(expr@, loc@, prior),
{
    match extract_binding_go(&expr, &loc, prior) {
        Some(r) => r,
        None => Err(ExprError::Unknown),
    }
}

/// Each item with its path: `loc` followed by the item's position.
pub fn iter_with_loc<T>(items: Vec<T>, loc: Vec<usize>) -> (r: Vec<(T, Vec<usize>)>)
    ensures
        r@.len() == items@.len(),
        forall|i: int| 0 <= i < r@.len() ==> (#[trigger] r@[i]).0 == items@[i] && r@[i].1@ == loc@.push(i as usize),
{
    let ghost orig = items@;
    let mut items = items;
    let mut rev: Vec<T> = Vec::new();
    while items.len() > 0
        invariant
            orig == items@ + rev@.reverse(),
        decreases items@.len(),
    {
        let x = items.pop().unwrap();
        proof {
            assert(items@.push(x) + rev@.reverse() =~= items@ + rev@.push(x).reverse());
        }
        rev.push(x);
    }
    assert(rev@.reverse() =~= orig);
    let mut r: Vec<(T, Vec<usize>)> = Vec::new();
    let n = rev.len();
    while rev.len() > 0
        invariant
            n == orig.len(),
            rev@.len() + r@.len() == n,
            forall|k: int| 0 <= k < rev@.len() ==> #[trigger] rev@[k] == orig[n - 1 - k],
            forall|i: int| 0 <= i < r@.len() ==> (#[trigger] r@[i]).0 == orig[i] && r@[i].1@ == loc@.push(i as usize),
        decreases rev@.len(),
    {
        let i = r.len();
        let x = rev.pop().unwrap();
        r.push((x, push_loc(&loc, i)));
    }
    r
}

/// The expression without its paths.
#[verifier::loop_isolation(false)]
pub fn remove_span_expr(expr: SpannedNamedExpr) -> (r: NamedExpr)
    ensures
        r@ == strip(expr@),
    decreases expr,
{
    let SpannedNamedExpr(node, _) = expr;
    match node {
        SpannedNamedNode::Var { idx } => GExpr::Var { idx },
        SpannedNamedNode::App { func, arg } => GExpr::App { func: Box::new(remove_span_expr(*func)), arg: Box::new(remove_span_expr(*arg)) },
        SpannedNamedNode::Lambda { name, param_ty, body } => GExpr::Lambda {
            name: name.0,
            param_ty: Box::new(remove_span_expr(*param_ty)),
            body: Box::new(remove_span_expr(*body)),
        },
        SpannedNamedNode::Pi { name, param_ty, ret_ty } => GExpr::Pi {
            name: name.0,
            param_ty: Box::new(remove_span_expr(*param_ty)),
            ret_ty: Box::new(remove_span_expr(*ret_ty)),
        },
        SpannedNamedNode::Type => GExpr::Type,
        SpannedNamedNode::Builtin(b) => GExpr::Builtin(b),
        SpannedNamedNode::Error(err, items) => {
            let ghost iv = ltms_of(items@);
            let ghost orig = items@;
            let mut items = items;
            let mut rev: Vec<Box<SpannedNamedExpr>> = Vec::new();
            while items.len() > 0
                invariant
                    orig == items@ + rev@.reverse(),
                decreases items@.len(),
            {
                let x = items.pop().unwrap();
                proof {
                    assert(items@.push(x) + rev@.reverse() =~= items@ + rev@.push(x).reverse());
                }
                rev.push(x);
            }
            assert(rev@.reverse() =~= orig);
            let n = rev.len();
            let mut out: Vec<Box<NamedExpr>> = Vec::new();
            while rev.len() > 0
                invariant
                    n == orig.len(),
                    rev@.len() + out@.len() == n,
                    forall|k: int| 0 <= k < rev@.len() ==> #[trigger] rev@[k] == orig[n - 1 - k],
                    forall|i: int| 0 <= i < out@.len() ==> tm_named(*#[trigger] out@[i]) == strip(ltm_of(*orig[i])),
                decreases rev@.len(),
            {
                let ghost i = out@.len();
                let x = rev.pop().unwrap();
                proof {
                    assert(x == orig[i as int]);
                    assert(decreases_to!(expr => orig));
                    assert(decreases_to!(orig => orig[i as int]));
                }
                let y = remove_span_expr(*x);
                out.push(Box::new(y));
            }
            proof {
                crate::expr::lemma_tms_of_len(out@);
                let st = match strip(expr@) { Tm::Fail(_, st) => st, _ => Seq::empty() };
                assert(st.len() == orig.len());
                assert(crate::expr::tms_of(out@) =~= st);
            }
            GExpr::Error(err, out)
        },
    }
}

/// The desugaring pass.
pub struct Desugar;

impl Desugar {
    /// Desugars a whole surface tree.
    pub fn run(input: FixAst) -> (r: Result<SpannedNamedExpr, ExprError<Vec<usize>>>)
        requires
            desugar_s(input@, Seq::empty()) is Some,
        ensures
            Some(res_v(r)) == desugar_s(input@, Seq::empty()),
    {
        desugar(input, Vec::new())
    }
}

/// `t` with its `j` outermost binders taken off: the body under them.
pub open spec fn peel(t: LTm, j: nat) -> LTm
    decreases j,
{
    if j == 0 {
        t
    } else {
        match peel(t, (j - 1) as nat) {
            LTm::Lam(_, _, b, _) => *b,
            LTm::Pi(_, _, b, _) => *b,
            u => u,
        }
    }
}

/// How a binder of a lambda (or pi) chain reads its binding.
pub open spec fn binder_priority(is_pi: bool) -> BindingPriority {
    if is_pi {
        BindingPriority::TyNameVal
    } else {
        BindingPriority::NameTyVal
    }
}

/// `u` is a binder at `loc` of the kind asked for, with the name and type
/// of the binding `ob` read.
pub open spec fn binder_from(u: LTm, ob: Out<TBind>, loc: Seq<usize>, is_pi: bool) -> bool {
    match ob {
        Some(Ok(b)) => match u {
            LTm::Lam(n, p, _, l) => !is_pi && n == name_of(b) && b.ty == Some(*p) && l == loc,
            LTm::Pi(n, p, _, l) => is_pi && n == name_of(b) && b.ty == Some(*p) && l == loc,
            _ => false,
        },
        _ => false,
    }
}

proof fn lemma_lam_fold_fails(items: Seq<AstV>, k: int, loc: Seq<usize>, acc: Out<LTm>, is_pi: bool)
    requires
        !(acc matches Some(Ok(_))),
    ensures
        !(lam_fold(items, k, loc, acc, is_pi) matches Some(Ok(_))),
    decreases k,
{
    if 0 < k <= items.len() && acc is Some {
        let i = k - 1;
        let next = match extract_binding_s(items[i], loc.push(i as usize), binder_priority(is_pi)) {
            None => None,
            Some(Err(e)) => Some(Err(e)),
            Some(Ok(b)) => match b.ty {
                None => Some(Err(ExprErrorV::MissingType(loc.push(i as usize)))),
                Some(ty) => acc,
            },
        };
        lemma_lam_fold_fails(items, i, loc, next, is_pi);
    }
}

proof fn lemma_lam_fold_order(items: Seq<AstV>, k: int, loc: Seq<usize>, body: LTm, is_pi: bool, res: LTm)
    requires
        0 <= k <= items.len(),
        lam_fold(items, k, loc, Some(Ok(body)), is_pi) == Some(Ok::<LTm, ExprErrorV>(res)),
    ensures
        forall|j: int|
            0 <= j < k ==> binder_from(
                #[trigger] peel(res, j as nat),
                extract_binding_s(items[j], loc.push(j as usize), binder_priority(is_pi)),
                loc,
                is_pi,
            ),
        peel(res, k as nat) == body,
    decreases k,
{
    if k > 0 {
        let i = k - 1;
        let ob = extract_binding_s(items[i], loc.push(i as usize), binder_priority(is_pi));
        match ob {
            Some(Ok(b)) => match b.ty {
                Some(ty) => {
                    let wrapped = if is_pi {
                        LTm::Pi(name_of(b), Box::new(ty), Box::new(body), loc)
                    } else {
                        LTm::Lam(name_of(b), Box::new(ty), Box::new(body), loc)
                    };
                    lemma_lam_fold_order(items, i, loc, wrapped, is_pi, res);
                },
                None => {
                    lemma_lam_fold_fails(items, i, loc, Some(Err(ExprErrorV::MissingType(loc.push(i as usize)))), is_pi);
                },
            },
            Some(Err(e)) => {
                lemma_lam_fold_fails(items, i, loc, Some(Err(e)), is_pi);
            },
            None => {
                lemma_lam_fold_fails(items, i, loc, None, is_pi);
            },
        }
    }
}

/// A lambda (or pi) with several binders nests them in source order: the
/// binder written first is outermost and the one written last directly
/// surrounds the body. Taking `j` binders off the result leaves a binder
/// with the name and type of binding `j`, at the path of the whole; taking
/// all of them off leaves the desugared body.
pub proof fn lemma_binders_in_source_order(a: AstV, loc: Seq<usize>)
    requires
        a.kind is Lambda || a.kind is Pi,
        desugar_s(a, loc) matches Some(Ok(_)),
    ensures
        a.items.len() >= 1,
        forall|j: int|
            0 <= j < a.items.len() - 1 ==> binder_from(
                #[trigger] peel(desugar_s(a, loc).unwrap()->Ok_0, j as nat),
                extract_binding_s(a.items[j], loc.push(j as usize), binder_priority(a.kind is Pi)),
                loc,
                a.kind is Pi,
            ),
        desugar_s(a.items[a.items.len() - 1], loc.push((a.items.len() - 1) as usize)) == Some(
            Ok::<LTm, ExprErrorV>(peel(desugar_s(a, loc).unwrap()->Ok_0, (a.items.len() - 1) as nat)),
        ),
{
    let items = a.items;
    let n = items.len() - 1;
    let is_pi = a.kind is Pi;
    let base = desugar_s(items[n], loc.push(n as usize));
    let res = desugar_s(a, loc).unwrap()->Ok_0;
    assert(desugar_s(a, loc) == lam_fold(items, n, loc, base, is_pi));
    if let Some(Ok(body)) = base {
        lemma_lam_fold_order(items, n, loc, body, is_pi, res);
    } else {
        lemma_lam_fold_fails(items, n, loc, base, is_pi);
    }
}

/// `t` with `j` application layers taken off on the function side.
pub open spec fn fun_part(t: LTm, j: nat) -> LTm
    decreases j,
{
    if j == 0 {
        t
    } else {
        match fun_part(t, (j - 1) as nat) {
            LTm::App(f, _, _) => *f,
            u => u,
        }
    }
}

/// `u` is an application at `loc` whose argument is `x`.
pub open spec fn applies_to(u: LTm, x: Out<LTm>, loc: Seq<usize>) -> bool {
    match u {
        LTm::App(_, arg, l) => l == loc && x == Some(Ok::<LTm, ExprErrorV>(*arg)),
        _ => false,
    }
}

proof fn lemma_app_fold_order(items: Seq<AstV>, k: int, loc: Seq<usize>, acc: LTm, res: LTm)
    requires
        0 <= k <= items.len(),
        app_fold(items, k, loc, Some(Ok(acc))) == Some(Ok::<LTm, ExprErrorV>(res)),
    ensures
        forall|j: int|
            k <= j < items.len() ==> applies_to(
                #[trigger] fun_part(res, (items.len() - 1 - j) as nat),
                desugar_s(items[j], loc.push(j as usize)),
                loc,
            ),
        fun_part(res, (items.len() - k) as nat) == acc,
    decreases items.len() - k,
{
    if k < items.len() {
        if let Some(Ok(x)) = desugar_s(items[k], loc.push(k as usize)) {
            let next = LTm::App(Box::new(acc), Box::new(x), loc);
            lemma_app_fold_order(items, k + 1, loc, next, res);
            assert(fun_part(res, (items.len() - k) as nat) == acc);
        }
    }
}

/// Application groups to the left and keeps its operands in source order:
/// `f a b` becomes `(f a) b`. Taking the last `m` arguments off the result
/// leaves an application whose argument is operand `n - 1 - m` (for
/// operands after the first), and taking all of them off leaves the first
/// operand, the function.
pub proof fn lemma_application_left_nested(a: AstV, loc: Seq<usize>)
    requires
        a.kind is App || a.kind is Pipe,
        desugar_s(a, loc) matches Some(Ok(_)),
    ensures
        a.items.len() >= 1,
        forall|j: int|
            1 <= j < a.items.len() ==> applies_to(
                #[trigger] fun_part(desugar_s(a, loc).unwrap()->Ok_0, (a.items.len() - 1 - j) as nat),
                desugar_s(a.items[j], loc.push(j as usize)),
                loc,
            ),
        desugar_s(a.items[0], loc.push(0)) == Some(
            Ok::<LTm, ExprErrorV>(fun_part(desugar_s(a, loc).unwrap()->Ok_0, (a.items.len() - 1) as nat)),
        ),
{
    let items = a.items;
    let first = desugar_s(items[0], loc.push(0));
    let res = desugar_s(a, loc).unwrap()->Ok_0;
    assert(desugar_s(a, loc) == app_fold(items, 1, loc, first));
    if let Some(Ok(f)) = first {
        lemma_app_fold_order(items, 1, loc, f, res);
    }
}

} // verus!
