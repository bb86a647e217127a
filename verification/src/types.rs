//! Definitional equality and type inference.
use std::rc::Rc;
use vstd::prelude::*;

use crate::eval::{
    beta_reduce, can_beta, beta_tm, can_shift, shift, shift_tm, weak_head_normal_form,
    whnf_terminates, whnf_tm,
};
use crate::expr::{clone_expr, clone_path, expr_eq, Builtin, BuiltinV, Expr, GExpr, Term, Tm};
use crate::helper::{push_new, rc_clone};

verus! {

/// A type error, located by the expression it concerns.
#[derive(Debug, Clone, PartialEq, Eq)]
pub enum TypeError<T> {
    UnboundVariable(T, Vec<Rc<Expr>>),
    TypeMismatch { expected: T, found: T },
    NotAFunction(T),
    NotAType(T),
    Unknown(T),
}

/// An expression together with its path from the root.
pub type Located = (Expr, Vec<usize>);

/// The value of a located type error.
pub enum TypeErrorV {
    UnboundVariable(Term, Seq<usize>, Seq<Term>),
    TypeMismatch { expected: (Term, Seq<usize>), found: (Term, Seq<usize>) },
    NotAFunction(Term, Seq<usize>),
    NotAType(Term, Seq<usize>),
    Unknown(Term, Seq<usize>),
}

/// The terms held by a typing context.
pub open spec fn ctx_view(ctx: Seq<Rc<Expr>>) -> Seq<Term> {
    ctx.map_values(|r: Rc<Expr>| (*r)@)
}

impl View for TypeError<(Expr, Vec<usize>)> {
    type V = TypeErrorV;

    open spec fn view(&self) -> TypeErrorV {
        match self {
            TypeError::UnboundVariable(l, ctx) => TypeErrorV::UnboundVariable(
                l.0@,
                l.1@,
                ctx_view(ctx@),
            ),
            TypeError::TypeMismatch { expected, found } => TypeErrorV::TypeMismatch {
                expected: (expected.0@, expected.1@),
                found: (found.0@, found.1@),
            },
            TypeError::NotAFunction(l) => TypeErrorV::NotAFunction(l.0@, l.1@),
            TypeError::NotAType(l) => TypeErrorV::NotAType(l.0@, l.1@),
            TypeError::Unknown(l) => TypeErrorV::Unknown(l.0@, l.1@),
        }
    }
}

pub open spec fn errors_view(v: Seq<TypeError<(Expr, Vec<usize>)>>) -> Seq<TypeErrorV> {
    v.map_values(|e: TypeError<(Expr, Vec<usize>)>| e@)
}

pub open spec fn result_view(r: Result<Expr, TypeError<(Expr, Vec<usize>)>>) -> Result<
    Term,
    TypeErrorV,
> {
    match r {
        Ok(t) => Ok(t@),
        Err(e) => Err(e@),
    }
}

// ---------------------------------------------------------------------------
// Definitional equality
// ---------------------------------------------------------------------------

/// Equality up to weak head reduction, with at most `n` nested comparisons;
/// `None` when the fuel runs out or a reduction does not terminate.
pub open spec fn eq_fuel(t1: Term, t2: Term, n: nat) -> Option<bool>
    decreases n,
{
    if n == 0 {
        None
    } else if t1 == t2 {
        Some(true)
    } else if !whnf_terminates(t1) || !whnf_terminates(t2) {
        None
    } else {
        let m = (n - 1) as nat;
        match (whnf_tm(t1), whnf_tm(t2)) {
            (Tm::App(f1, a1), Tm::App(f2, a2)) => match eq_fuel(*f1, *f2, m) {
                Some(true) => eq_fuel(*a1, *a2, m),
                other => other,
            },
            (Tm::Lam(_, p1, b1), Tm::Lam(_, p2, b2)) => match eq_fuel(*p1, *p2, m) {
                Some(true) => eq_fuel(*b1, *b2, m),
                other => other,
            },
            (Tm::Pi(_, p1, r1), Tm::Pi(_, p2, r2)) => match eq_fuel(*p1, *p2, m) {
                Some(true) => eq_fuel(*r1, *r2, m),
                other => other,
            },
            (Tm::Lit(BuiltinV::TypeHole), _) => Some(true),
            (_, Tm::Lit(BuiltinV::TypeHole)) => Some(true),
            (n1, n2) => Some(n1 == n2),
        }
    }
}

pub open spec fn eq_terminates(t1: Term, t2: Term) -> bool {
    exists|n: nat| #[trigger] eq_fuel(t1, t2, n) is Some
}

pub open spec fn eq_steps(t1: Term, t2: Term) -> nat {
    choose|n: nat| #[trigger] eq_fuel(t1, t2, n) is Some
}

/// Whether two terms are definitionally equal.
pub open spec fn eq_tm(t1: Term, t2: Term) -> bool {
    eq_fuel(t1, t2, eq_steps(t1, t2)).unwrap()
}

fn eq_go(e1: &Expr, e2: &Expr, Ghost(n): Ghost<nat>) -> (r: bool)
    requires
        eq_fuel(e1@, e2@, n) is Some,
    ensures
        eq_fuel(e1@, e2@, n) == Some(r),
    decreases n,
{
    if expr_eq(e1, e2) {
        return true;
    }
    let e1_norm = weak_head_normal_form(e1);
    let e2_norm = weak_head_normal_form(e2);
    let ghost m = (n - 1) as nat;
    match (&e1_norm, &e2_norm) {
        (GExpr::App { func, arg }, GExpr::App { func: func2, arg: arg2 }) => eq_go(
            func,
            func2,
            Ghost(m),
        ) && eq_go(arg, arg2, Ghost(m)),
        (
            GExpr::Lambda { name: _, param_ty, body },
            GExpr::Lambda { name: _, param_ty: param_ty2, body: body2 },
        ) => eq_go(param_ty, param_ty2, Ghost(m)) && eq_go(body, body2, Ghost(m)),
        (
            GExpr::Pi { name: _, param_ty, ret_ty },
            GExpr::Pi { name: _, param_ty: param_ty2, ret_ty: ret_ty2 },
        ) => eq_go(param_ty, param_ty2, Ghost(m)) && eq_go(ret_ty, ret_ty2, Ghost(m)),
        (GExpr::Builtin(Builtin::TypeHole), _) => true,
        (_, GExpr::Builtin(Builtin::TypeHole)) => true,
        (n1, n2) => expr_eq(n1, n2),
    }
}

/// Definitional equality: syntactic equality, or equal weak head normal forms
/// compared recursively, where a type hole is equal to anything.
pub fn eq(e1: &Expr, e2: &Expr) -> (r: bool)
    requires
        eq_terminates(e1@, e2@),
    ensures
        r == eq_tm(e1@, e2@),
{
    eq_go(e1, e2, Ghost(eq_steps(e1@, e2@)))
}

// ---------------------------------------------------------------------------
// Type inference
// ---------------------------------------------------------------------------

pub open spec fn arrow(p: Term, r: Term) -> Term {
    Tm::Pi(Seq::empty(), Box::new(p), Box::new(r))
}

pub open spec fn lit(b: BuiltinV) -> Term {
    Tm::Lit(b)
}

/// The type of each builtin.
pub open spec fn builtin_ty(b: BuiltinV) -> Term {
    match b {
        BuiltinV::TypeHole => Tm::Type,
        BuiltinV::String(_) => lit(BuiltinV::StringTy),
        BuiltinV::StringTy => Tm::Type,
        BuiltinV::Num(_) => lit(BuiltinV::NumTy),
        BuiltinV::NumTy => Tm::Type,
        BuiltinV::Bool(_) => lit(BuiltinV::BoolTy),
        BuiltinV::BoolTy => Tm::Type,
        BuiltinV::StringCmp => arrow(
            lit(BuiltinV::StringTy),
            arrow(lit(BuiltinV::StringTy), lit(BuiltinV::BoolTy)),
        ),
        BuiltinV::NumCmp => arrow(
            lit(BuiltinV::NumTy),
            arrow(lit(BuiltinV::NumTy), lit(BuiltinV::BoolTy)),
        ),
        BuiltinV::BoolCmp => arrow(
            lit(BuiltinV::BoolTy),
            arrow(lit(BuiltinV::BoolTy), lit(BuiltinV::BoolTy)),
        ),
        BuiltinV::Fix => arrow(
            Tm::Type,
            arrow(arrow(Tm::Var(0), Tm::Var(1)), Tm::Var(1)),
        ),
    }
}

/// The context under one more binder of type `ty`: `ty` becomes variable 0
/// and every entry is shifted to stay valid.
pub open spec fn extend_tm(ctx: Seq<Term>, ty: Term) -> Seq<Term> {
    (seq![ty] + ctx).map_values(|t: Term| shift_tm(t, 1, 0))
}

pub open spec fn can_extend(ctx: Seq<Term>, ty: Term) -> bool {
    forall|i: int| 0 <= i < (seq![ty] + ctx).len() ==> can_shift(#[trigger] (seq![ty] + ctx)[i], 1, 0)
}

pub open spec fn not_a_type_check(ty: Term, loc: Seq<usize>) -> Seq<TypeErrorV> {
    if eq_tm(ty, Tm::Type) {
        Seq::empty()
    } else {
        seq![TypeErrorV::NotAType(ty, loc)]
    }
}

/// What inference of `t` appends to the error list and what it returns;
/// `None` when an evaluation step it needs does not terminate or leaves
/// the index range.
pub open spec fn infer_spec(t: Term, ctx: Seq<Term>, loc: Seq<usize>) -> Option<
    (Seq<TypeErrorV>, Result<Term, TypeErrorV>),
>
    decreases t,
{
    match t {
        Tm::Fail(_, _) => Some((Seq::empty(), Err(TypeErrorV::Unknown(t, loc)))),
        Tm::Lit(b) => Some((Seq::empty(), Ok(builtin_ty(b)))),
        Tm::Var(i) => if i < ctx.len() {
            Some((Seq::empty(), Ok(ctx[i as int])))
        } else {
            Some((Seq::empty(), Err(TypeErrorV::UnboundVariable(t, loc, ctx))))
        },
        Tm::App(f, a) => {
            let loc0 = loc.push(0);
            let loc1 = loc.push(1);
            match infer_spec(*f, ctx, loc0) {
                None => None,
                Some((e1, Err(x))) => Some((e1, Err(x))),
                Some((e1, Ok(fty))) => if !whnf_terminates(fty) {
                    None
                } else {
                    match whnf_tm(fty) {
                        Tm::Pi(_, p, r) => match infer_spec(*a, ctx, loc1) {
                            None => None,
                            Some((e2, Err(x))) => Some((e1 + e2, Err(x))),
                            Some((e2, Ok(aty))) => if !eq_terminates(*p, aty) || !can_beta(*r, *a) {
                                None
                            } else if eq_tm(*p, aty) {
                                Some((e1 + e2, Ok(beta_tm(*r, *a))))
                            } else if whnf_terminates(*p) && whnf_terminates(aty) {
                                Some(
                                    (
                                        e1 + e2 + seq![
                                            TypeErrorV::TypeMismatch {
                                                expected: (whnf_tm(*p), loc0),
                                                found: (whnf_tm(aty), loc1),
                                            },
                                        ],
                                        Ok(beta_tm(*r, *a)),
                                    ),
                                )
                            } else {
                                None
                            },
                        },
                        fnorm => Some((e1, Err(TypeErrorV::NotAFunction(fnorm, loc0)))),
                    }
                },
            }
        },
        Tm::Lam(_, p, b) => {
            let loc1 = loc.push(1);
            match infer_spec(*p, ctx, loc1) {
                None => None,
                Some((e1, Err(x))) => Some((e1, Err(x))),
                Some((e1, Ok(pty))) => if !eq_terminates(pty, Tm::Type) || !can_extend(ctx, *p) {
                    None
                } else {
                    let e2 = not_a_type_check(pty, loc1);
                    match infer_spec(*b, extend_tm(ctx, *p), loc.push(2)) {
                        None => None,
                        Some((e3, Err(x))) => Some((e1 + e2 + e3, Err(x))),
                        Some((e3, Ok(rty))) => Some((e1 + e2 + e3, Ok(Tm::Pi(Seq::empty(), p, Box::new(rty))))),
                    }
                },
            }
        },
        Tm::Pi(_, p, r) => {
            let loc1 = loc.push(1);
            let loc2 = loc.push(2);
            match infer_spec(*p, ctx, loc1) {
                None => None,
                Some((e1, Err(x))) => Some((e1, Err(x))),
                Some((e1, Ok(pty))) => if !eq_terminates(pty, Tm::Type) || !can_extend(ctx, *p) {
                    None
                } else {
                    let e2 = not_a_type_check(pty, loc1);
                    match infer_spec(*r, extend_tm(ctx, *p), loc2) {
                        None => None,
                        Some((e3, Err(x))) => Some((e1 + e2 + e3, Err(x))),
                        Some((e3, Ok(rty))) => if !eq_terminates(rty, Tm::Type) {
                            None
                        } else {
                            Some((e1 + e2 + e3 + not_a_type_check(rty, loc2), Ok(Tm::Type)))
                        },
                    }
                },
            }
        },
        Tm::Type => Some((Seq::empty(), Ok(Tm::Type))),
    }
}

fn string_empty() -> (s: String)
    ensures
        s@ == Seq::<char>::empty(),
{
    String::new()
}

fn mk_arrow(p: Expr, r: Expr) -> (e: Expr)
    ensures
        e@ == arrow(p@, r@),
{
    GExpr::Pi { name: string_empty(), param_ty: Box::new(p), ret_ty: Box::new(r) }
}

fn mk_lit(b: Builtin) -> (e: Expr)
    ensures
        e@ == lit(b@),
{
    GExpr::Builtin(b)
}

fn builtin_type(b: &Builtin) -> (e: Expr)
    ensures
        e@ == builtin_ty(b@),
{
    match b {
        Builtin::TypeHole => GExpr::Type,
        Builtin::String(_) => mk_lit(Builtin::StringTy),
        Builtin::StringTy => GExpr::Type,
        Builtin::Num(_) => mk_lit(Builtin::NumTy),
        Builtin::NumTy => GExpr::Type,
        Builtin::Bool(_) => mk_lit(Builtin::BoolTy),
        Builtin::BoolTy => GExpr::Type,
        Builtin::StringCmp => mk_arrow(
            mk_lit(Builtin::StringTy),
            mk_arrow(mk_lit(Builtin::StringTy), mk_lit(Builtin::BoolTy)),
        ),
        Builtin::NumCmp => mk_arrow(
            mk_lit(Builtin::NumTy),
            mk_arrow(mk_lit(Builtin::NumTy), mk_lit(Builtin::BoolTy)),
        ),
        Builtin::BoolCmp => mk_arrow(
            mk_lit(Builtin::BoolTy),
            mk_arrow(mk_lit(Builtin::BoolTy), mk_lit(Builtin::BoolTy)),
        ),
        Builtin::Fix => mk_arrow(
            GExpr::Type,
            mk_arrow(mk_arrow(GExpr::Var { idx: 0 }, GExpr::Var { idx: 1 }), GExpr::Var { idx: 1 }),
        ),
    }
}

fn clone_ctx(ctx: &Vec<Rc<Expr>>) -> (r: Vec<Rc<Expr>>)
    ensures
        r@ == ctx@,
{
    let mut r: Vec<Rc<Expr>> = Vec::new();
    let mut i: usize = 0;
    while i < ctx.len()
        invariant
            i <= ctx.len(),
            r@ == ctx@.take(i as int),
        decreases ctx.len() - i,
    {
        r.push(rc_clone(&ctx[i]));
        assert(ctx@.take(i + 1) =~= ctx@.take(i as int).push(ctx@[i as int]));
        i = i + 1;
    }
    assert(ctx@.take(ctx.len() as int) =~= ctx@);
    r
}

/// Puts `ty` in front of the context and shifts every entry by one.
fn extend_ctx(ctx: Vec<Rc<Expr>>, ty: Expr) -> (r: Vec<Rc<Expr>>)
    requires
        can_extend(ctx_view(ctx@), ty@),
    ensures
        ctx_view(r@) == extend_tm(ctx_view(ctx@), ty@),
{
    let mut ctx = ctx;
    let ghost old_ctx = ctx_view(ctx@);
    ctx.insert(0, Rc::new(ty));
    assert(ctx_view(ctx@) =~= seq![ty@] + old_ctx);
    let mut new_ctx: Vec<Rc<Expr>> = Vec::new();
    let mut i: usize = 0;
    while i < ctx.len()
        invariant
            i <= ctx.len(),
            ctx_view(ctx@) == seq![ty@] + old_ctx,
            can_extend(old_ctx, ty@),
            new_ctx@.len() == i,
            forall|j: int|
                0 <= j < i ==> #[trigger] ctx_view(new_ctx@)[j] == shift_tm(ctx_view(ctx@)[j], 1, 0),
        decreases ctx.len() - i,
    {
        assert(can_shift(ctx_view(ctx@)[i as int], 1, 0));
        let t = shift(&*ctx[i], 1, 0);
        let ghost prev = new_ctx@;
        new_ctx.push(Rc::new(t));
        assert forall|j: int| 0 <= j < i + 1 implies #[trigger] ctx_view(new_ctx@)[j] == shift_tm(
            ctx_view(ctx@)[j],
            1,
            0,
        ) by {
            if j < i {
                assert(new_ctx@[j] == prev[j]);
                assert(ctx_view(prev)[j] == shift_tm(ctx_view(ctx@)[j], 1, 0));
            }
        }
        i = i + 1;
    }
    assert(ctx_view(new_ctx@) =~= extend_tm(old_ctx, ty@));
    new_ctx
}

pub open spec fn infer_ok(expr: Expr, ctx: Seq<Rc<Expr>>, loc: Seq<usize>) -> bool {
    infer_spec(expr@, ctx_view(ctx), loc) is Some
}

pub open spec fn infer_done(
    expr: Expr,
    ctx: Seq<Rc<Expr>>,
    loc: Seq<usize>,
    before: Seq<TypeError<(Expr, Vec<usize>)>>,
    after: Seq<TypeError<(Expr, Vec<usize>)>>,
    r: Result<Expr, TypeError<(Expr, Vec<usize>)>>,
) -> bool {
    &&& errors_view(after) == errors_view(before) + infer_spec(expr@, ctx_view(ctx), loc).unwrap().0
    &&& result_view(r) == infer_spec(expr@, ctx_view(ctx), loc).unwrap().1
}

fn push_error(ty_errors: &mut Vec<TypeError<(Expr, Vec<usize>)>>, err: TypeError<(Expr, Vec<usize>)>)
    ensures
        errors_view(final(ty_errors)@) == errors_view(old(ty_errors)@).push(err@),
{
    let ghost before = ty_errors@;
    ty_errors.push(err);
    assert(errors_view(ty_errors@) =~= errors_view(before).push(err@));
}

fn infer_app(
    expr: &Expr,
    ctx: Vec<Rc<Expr>>,
    ty_errors: &mut Vec<TypeError<(Expr, Vec<usize>)>>,
    loc: Vec<usize>,
) -> (r: Result<Expr, TypeError<(Expr, Vec<usize>)>>)
    requires
        expr is App,
        infer_ok(*expr, ctx@, loc@),
    ensures
        infer_done(*expr, ctx@, loc@, old(ty_errors)@, final(ty_errors)@, r),
    decreases expr, 0nat,
{
    let (func, arg) = match expr {
        GExpr::App { func, arg } => (func, arg),
        _ => {
            proof {
                assert(false);
            }
            return Err(TypeError::Unknown((GExpr::Type, loc)));
        },
    };
    let ghost before = errors_view(ty_errors@);
    let ghost ctxv = ctx_view(ctx@);
    let loc0 = push_new(clone_path(&loc), 0);
    let loc1 = push_new(clone_path(&loc), 1);
    assert(expr@ == Tm::App(Box::new(func@), Box::new(arg@)));
    let ghost s1 = infer_spec(func@, ctxv, loc0@);
    let func_ty = match infer_type(func, clone_ctx(&ctx), ty_errors, clone_path(&loc0)) {
        Ok(t) => t,
        Err(e) => {
            return Err(e);
        },
    };
    let ghost e1 = s1.unwrap().0;
    let func_ty_norm = weak_head_normal_form(&func_ty);
    if let GExpr::Pi { param_ty, ret_ty, .. } = &func_ty_norm {
        let ghost s2 = infer_spec(arg@, ctxv, loc1@);
        let arg_ty = match infer_type(arg, clone_ctx(&ctx), ty_errors, clone_path(&loc1)) {
            Ok(t) => t,
            Err(e) => {
                assert(errors_view(ty_errors@) =~= before + (e1 + s2.unwrap().0));
                return Err(e);
            },
        };
        let ghost e2 = s2.unwrap().0;
        let ghost mid = errors_view(ty_errors@);
        if !eq(param_ty, &arg_ty) {
            let expected = weak_head_normal_form(param_ty);
            let found = weak_head_normal_form(&arg_ty);
            let err = TypeError::TypeMismatch { expected: (expected, loc0), found: (found, loc1) };
            push_error(ty_errors, err);
            assert(errors_view(ty_errors@) =~= before + (e1 + e2 + seq![err@]));
        } else {
            assert(errors_view(ty_errors@) =~= before + (e1 + e2));
        }
        Ok(beta_reduce(ret_ty, arg))
    } else {
        Err(TypeError::NotAFunction((func_ty_norm, loc0)))
    }
}

#[verifier::rlimit(40)]
fn infer_lambda(
    expr: &Expr,
    ctx: Vec<Rc<Expr>>,
    ty_errors: &mut Vec<TypeError<(Expr, Vec<usize>)>>,
    loc: Vec<usize>,
) -> (r: Result<Expr, TypeError<(Expr, Vec<usize>)>>)
    requires
        expr is Lambda,
        infer_ok(*expr, ctx@, loc@),
    ensures
        infer_done(*expr, ctx@, loc@, old(ty_errors)@, final(ty_errors)@, r),
    decreases expr, 0nat,
{
    let (name, param_ty, body) = match expr {
        GExpr::Lambda { name, param_ty, body } => (name, param_ty, body),
        _ => {
            proof {
                assert(false);
            }
            return Err(TypeError::Unknown((GExpr::Type, loc)));
        },
    };
    assert(expr@ == Tm::Lam(name@, Box::new(param_ty@), Box::new(body@)));
    let ghost before = errors_view(ty_errors@);
    let ghost ctxv = ctx_view(ctx@);
    let tyty = GExpr::Type;
    let loc1 = push_new(clone_path(&loc), 1);
    let loc2 = push_new(clone_path(&loc), 2);
    let ghost s1 = infer_spec(param_ty@, ctxv, loc1@);
    let param_ty_ty = match infer_type(param_ty, clone_ctx(&ctx), ty_errors, clone_path(&loc1)) {
        Ok(t) => t,
        Err(e) => {
            return Err(e);
        },
    };
    let ghost e1 = s1.unwrap().0;
    let ghost e2 = not_a_type_check(param_ty_ty@, loc1@);
    if !eq(&param_ty_ty, &tyty) {
        push_error(ty_errors, TypeError::NotAType((param_ty_ty, loc1)));
    }
    assert(errors_view(ty_errors@) =~= before + e1 + e2);
    let ctx2 = extend_ctx(ctx, clone_expr(param_ty));
    let ghost s3 = infer_spec(body@, ctx_view(ctx2@), loc2@);
    let body_ty = match infer_type(body, ctx2, ty_errors, clone_path(&loc2)) {
        Ok(t) => t,
        Err(e) => {
            assert(errors_view(ty_errors@) =~= before + (e1 + e2 + s3.unwrap().0));
            return Err(e);
        },
    };
    let ghost e3 = s3.unwrap().0;
    assert(errors_view(ty_errors@) =~= before + (e1 + e2 + e3));
    Ok(
        GExpr::Pi {
            name: string_empty(),
            param_ty: Box::new(clone_expr(param_ty)),
            ret_ty: Box::new(body_ty),
        },
    )
}

#[verifier::rlimit(40)]
fn infer_pi(
    expr: &Expr,
    ctx: Vec<Rc<Expr>>,
    ty_errors: &mut Vec<TypeError<(Expr, Vec<usize>)>>,
    loc: Vec<usize>,
) -> (r: Result<Expr, TypeError<(Expr, Vec<usize>)>>)
    requires
        expr is Pi,
        infer_ok(*expr, ctx@, loc@),
    ensures
        infer_done(*expr, ctx@, loc@, old(ty_errors)@, final(ty_errors)@, r),
    decreases expr, 0nat,
{
    let (name, param_ty, body) = match expr {
        GExpr::Pi { name, param_ty, ret_ty } => (name, param_ty, ret_ty),
        _ => {
            proof {
                assert(false);
            }
            return Err(TypeError::Unknown((GExpr::Type, loc)));
        },
    };
    assert(expr@ == Tm::Pi(name@, Box::new(param_ty@), Box::new(body@)));
    let ghost before = errors_view(ty_errors@);
    let ghost ctxv = ctx_view(ctx@);
    let tyty = GExpr::Type;
    let loc1 = push_new(clone_path(&loc), 1);
    let loc2 = push_new(clone_path(&loc), 2);
    let ghost s1 = infer_spec(param_ty@, ctxv, loc1@);
    let param_ty_ty = match infer_type(param_ty, clone_ctx(&ctx), ty_errors, clone_path(&loc1)) {
        Ok(t) => t,
        Err(e) => {
            return Err(e);
        },
    };
    let ghost e1 = s1.unwrap().0;
    let ghost e2 = not_a_type_check(param_ty_ty@, loc1@);
    if !eq(&param_ty_ty, &tyty) {
        push_error(ty_errors, TypeError::NotAType((param_ty_ty, loc1)));
    }
    assert(errors_view(ty_errors@) =~= before + e1 + e2);
    let ctx2 = extend_ctx(ctx, clone_expr(param_ty));
    let ghost s3 = infer_spec(body@, ctx_view(ctx2@), loc2@);
    let body_ty = match infer_type(body, ctx2, ty_errors, clone_path(&loc2)) {
        Ok(t) => t,
        Err(e) => {
            assert(errors_view(ty_errors@) =~= before + (e1 + e2 + s3.unwrap().0));
            return Err(e);
        },
    };
    let ghost e3 = s3.unwrap().0;
    let ghost e4 = not_a_type_check(body_ty@, loc2@);
    if !eq(&body_ty, &tyty) {
        push_error(ty_errors, TypeError::NotAType((body_ty, loc2)));
    }
    assert(errors_view(ty_errors@) =~= before + (e1 + e2 + e3 + e4));
    Ok(tyty)
}

/// Infers the type of `expr` in the context `ctx` (entry `i` is the type of
/// variable `i`). Recoverable errors are appended to `ty_errors`; the first
/// unrecoverable one is returned. `loc` is the path of `expr` from the root.
pub fn infer_type(
    expr: &Expr,
    ctx: Vec<Rc<Expr>>,
    ty_errors: &mut Vec<TypeError<(Expr, Vec<usize>)>>,
    loc: Vec<usize>,
) -> (r: Result<Expr, TypeError<(Expr, Vec<usize>)>>)
    requires
        infer_spec(expr@, ctx_view(ctx@), loc@) is Some,
    ensures
        errors_view(final(ty_errors)@) == errors_view(old(ty_errors)@) + infer_spec(
            expr@,
            ctx_view(ctx@),
            loc@,
        ).unwrap().0,
        result_view(r) == infer_spec(expr@, ctx_view(ctx@), loc@).unwrap().1,
    decreases expr, 1nat,
{
    match expr {
        GExpr::Error(..) => {
            assert(errors_view(ty_errors@) =~= errors_view(ty_errors@) + Seq::empty());
            Err(TypeError::Unknown((clone_expr(expr), loc)))
        },
        GExpr::Builtin(b) => {
            assert(errors_view(ty_errors@) =~= errors_view(ty_errors@) + Seq::empty());
            Ok(builtin_type(b))
        },
        GExpr::Var { idx } => {
            assert(errors_view(ty_errors@) =~= errors_view(ty_errors@) + Seq::empty());
            if *idx < ctx.len() {
                Ok(clone_expr(&*ctx[*idx]))
            } else {
                Err(TypeError::UnboundVariable((clone_expr(expr), loc), ctx))
            }
        },
        GExpr::App { .. } => infer_app(expr, ctx, ty_errors, loc),
        GExpr::Lambda { .. } => infer_lambda(expr, ctx, ty_errors, loc),
        GExpr::Pi { .. } => infer_pi(expr, ctx, ty_errors, loc),
        GExpr::Type => {
            assert(errors_view(ty_errors@) =~= errors_view(ty_errors@) + Seq::empty());
            Ok(GExpr::Type)
        },
    }
}

// ---------------------------------------------------------------------------
// Laws
// ---------------------------------------------------------------------------

/// More fuel never changes a comparison that was already decided.
pub proof fn lemma_eq_fuel_mono(t1: Term, t2: Term, n: nat, m: nat)
    requires
        eq_fuel(t1, t2, n) is Some,
        n <= m,
    ensures
        eq_fuel(t1, t2, m) == eq_fuel(t1, t2, n),
    decreases n,
{
    if t1 != t2 {
        let k = (n - 1) as nat;
        let j = (m - 1) as nat;
        match (whnf_tm(t1), whnf_tm(t2)) {
            (Tm::App(f1, a1), Tm::App(f2, a2)) => {
                lemma_eq_fuel_mono(*f1, *f2, k, j);
                if eq_fuel(*f1, *f2, k) == Some(true) {
                    lemma_eq_fuel_mono(*a1, *a2, k, j);
                }
            },
            (Tm::Lam(_, p1, b1), Tm::Lam(_, p2, b2)) => {
                lemma_eq_fuel_mono(*p1, *p2, k, j);
                if eq_fuel(*p1, *p2, k) == Some(true) {
                    lemma_eq_fuel_mono(*b1, *b2, k, j);
                }
            },
            (Tm::Pi(_, p1, r1), Tm::Pi(_, p2, r2)) => {
                lemma_eq_fuel_mono(*p1, *p2, k, j);
                if eq_fuel(*p1, *p2, k) == Some(true) {
                    lemma_eq_fuel_mono(*r1, *r2, k, j);
                }
            },
            _ => {},
        }
    }
}

/// Comparing in either order takes the same steps and gives the same answer.
pub proof fn lemma_eq_fuel_symmetric(t1: Term, t2: Term, n: nat)
    ensures
        eq_fuel(t1, t2, n) == eq_fuel(t2, t1, n),
    decreases n,
{
    if n > 0 && t1 != t2 && whnf_terminates(t1) && whnf_terminates(t2) {
        let k = (n - 1) as nat;
        match (whnf_tm(t1), whnf_tm(t2)) {
            (Tm::App(f1, a1), Tm::App(f2, a2)) => {
                lemma_eq_fuel_symmetric(*f1, *f2, k);
                lemma_eq_fuel_symmetric(*a1, *a2, k);
            },
            (Tm::Lam(_, p1, b1), Tm::Lam(_, p2, b2)) => {
                lemma_eq_fuel_symmetric(*p1, *p2, k);
                lemma_eq_fuel_symmetric(*b1, *b2, k);
            },
            (Tm::Pi(_, p1, r1), Tm::Pi(_, p2, r2)) => {
                lemma_eq_fuel_symmetric(*p1, *p2, k);
                lemma_eq_fuel_symmetric(*r1, *r2, k);
            },
            _ => {},
        }
    }
}

/// Every term is definitionally equal to itself.
pub proof fn lemma_eq_reflexive(t: Term)
    ensures
        eq_terminates(t, t),
        eq_tm(t, t),
{
    assert(eq_fuel(t, t, 1) is Some);
    lemma_eq_fuel_mono(t, t, 1, eq_steps(t, t));
    if eq_steps(t, t) < 1 {
        assert(eq_fuel(t, t, eq_steps(t, t)) is None);
    }
}

/// Definitional equality is symmetric: `eq(a, b)` and `eq(b, a)` terminate
/// together and agree.
pub proof fn lemma_eq_symmetric(t1: Term, t2: Term)
    requires
        eq_terminates(t1, t2),
    ensures
        eq_terminates(t2, t1),
        eq_tm(t1, t2) == eq_tm(t2, t1),
{
    let n = eq_steps(t1, t2);
    lemma_eq_fuel_symmetric(t1, t2, n);
    assert(eq_fuel(t2, t1, n) is Some);
    let m = eq_steps(t2, t1);
    lemma_eq_fuel_symmetric(t1, t2, m);
    if n <= m {
        lemma_eq_fuel_mono(t1, t2, n, m);
    } else {
        lemma_eq_fuel_mono(t2, t1, m, n);
    }
}

/// Any term is definitionally equal to a type hole, on either side.
pub proof fn lemma_eq_type_hole(t: Term)
    requires
        whnf_terminates(t),
    ensures
        eq_terminates(t, Tm::Lit(BuiltinV::TypeHole)),
        eq_tm(t, Tm::Lit(BuiltinV::TypeHole)),
        eq_terminates(Tm::Lit(BuiltinV::TypeHole), t),
        eq_tm(Tm::Lit(BuiltinV::TypeHole), t),
{
    let h = Tm::<usize, Seq<char>>::Lit(BuiltinV::TypeHole);
    assert(crate::eval::whnf_fuel(h, 1) == Some(h));
    assert(whnf_terminates(h));
    crate::eval::lemma_whnf_fuel_unique(h, 1, crate::eval::whnf_steps(h));
    assert(whnf_tm(h) == h);
    assert(eq_fuel(t, h, 1) == Some(true));
    assert(eq_fuel(h, t, 1) == Some(true));
    lemma_eq_fuel_mono(t, h, 1, eq_steps(t, h));
    lemma_eq_fuel_mono(h, t, 1, eq_steps(h, t));
    if eq_steps(t, h) < 1 {
        assert(eq_fuel(t, h, eq_steps(t, h)) is None);
    }
    if eq_steps(h, t) < 1 {
        assert(eq_fuel(h, t, eq_steps(h, t)) is None);
    }
}

/// An application is checked against the function's parameter type: when
/// the function has a pi type and both parts infer, an argument whose type
/// is not definitionally equal to the parameter type adds exactly one
/// `TypeMismatch` (the parameter type expected at the function's path, the
/// argument's type found at the argument's path) after the errors of the
/// two parts, and a well-typed argument adds none; either way the result is
/// the pi type's return type with the argument put in.
pub proof fn lemma_application_checks_argument(f: Term, a: Term, ctx: Seq<Term>, loc: Seq<usize>)
    requires
        infer_spec(Tm::App(Box::new(f), Box::new(a)), ctx, loc) is Some,
        infer_spec(f, ctx, loc.push(0)) is Some,
        infer_spec(f, ctx, loc.push(0)).unwrap().1 is Ok,
        whnf_tm(infer_spec(f, ctx, loc.push(0)).unwrap().1->Ok_0) is Pi,
        infer_spec(a, ctx, loc.push(1)) is Some,
        infer_spec(a, ctx, loc.push(1)).unwrap().1 is Ok,
    ensures
        ({
            let (errs, res) = infer_spec(Tm::App(Box::new(f), Box::new(a)), ctx, loc).unwrap();
            let e1 = infer_spec(f, ctx, loc.push(0)).unwrap().0;
            let fty = infer_spec(f, ctx, loc.push(0)).unwrap().1->Ok_0;
            let p = *(whnf_tm(fty)->Pi_1);
            let r = *(whnf_tm(fty)->Pi_2);
            let e2 = infer_spec(a, ctx, loc.push(1)).unwrap().0;
            let aty = infer_spec(a, ctx, loc.push(1)).unwrap().1->Ok_0;
            &&& !eq_tm(p, aty) ==> errs == e1 + e2 + seq![
                TypeErrorV::TypeMismatch { expected: (whnf_tm(p), loc.push(0)), found: (whnf_tm(aty), loc.push(1)) },
            ]
            &&& eq_tm(p, aty) ==> errs == e1 + e2
            &&& res == Ok::<Term, TypeErrorV>(beta_tm(r, a))
        }),
{
}

} // verus!
