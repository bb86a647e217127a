//! Evaluation of de Bruijn indexed expressions: shifting, substitution,
//! beta reduction and three reduction strategies.
use vstd::prelude::*;

use crate::expr::{clone_expr, tm_of, Builtin, BuiltinV, Expr, GExpr, Term, Tm};

verus! {

// ---------------------------------------------------------------------------
// Specification
// ---------------------------------------------------------------------------

/// Adds `delta` to every variable that is free at binder depth `cutoff`.
pub open spec fn shift_tm(t: Term, delta: int, cutoff: nat) -> Term
    decreases t,
{
    match t {
        Tm::Var(i) => if i >= cutoff {
            Tm::Var((i + delta) as usize)
        } else {
            t
        },
        Tm::Lam(n, p, b) => Tm::Lam(
            n,
            Box::new(shift_tm(*p, delta, cutoff)),
            Box::new(shift_tm(*b, delta, cutoff + 1)),
        ),
        Tm::Pi(n, p, r) => Tm::Pi(
            n,
            Box::new(shift_tm(*p, delta, cutoff)),
            Box::new(shift_tm(*r, delta, cutoff + 1)),
        ),
        Tm::App(f, a) => Tm::App(
            Box::new(shift_tm(*f, delta, cutoff)),
            Box::new(shift_tm(*a, delta, cutoff)),
        ),
        _ => t,
    }
}

/// Shifting `t` stays within the machine's index range and never makes an index negative.
pub open spec fn can_shift(t: Term, delta: int, cutoff: nat) -> bool
    decreases t,
{
    match t {
        Tm::Var(i) => i >= cutoff ==> (i <= isize::MAX && 0 <= i + delta <= isize::MAX),
        Tm::Lam(_, p, b) => can_shift(*p, delta, cutoff) && cutoff + 1 <= usize::MAX
            && can_shift(*b, delta, cutoff + 1),
        Tm::Pi(_, p, r) => can_shift(*p, delta, cutoff) && cutoff + 1 <= usize::MAX
            && can_shift(*r, delta, cutoff + 1),
        Tm::App(f, a) => can_shift(*f, delta, cutoff) && can_shift(*a, delta, cutoff),
        _ => true,
    }
}

/// Replaces variable `index` (counted at the root of `body`) by `arg`.
pub open spec fn subst_tm(index: nat, body: Term, arg: Term) -> Term
    decreases body,
{
    match body {
        Tm::Var(i) => if i == index {
            arg
        } else {
            body
        },
        Tm::Lam(n, p, b) => Tm::Lam(
            n,
            Box::new(subst_tm(index, *p, arg)),
            Box::new(subst_tm(index + 1, *b, shift_tm(arg, 1, 0))),
        ),
        Tm::App(f, a) => Tm::App(
            Box::new(subst_tm(index, *f, arg)),
            Box::new(subst_tm(index, *a, arg)),
        ),
        Tm::Pi(n, p, r) => Tm::Pi(
            n,
            Box::new(subst_tm(index, *p, arg)),
            Box::new(subst_tm(index + 1, *r, shift_tm(arg, 1, 0))),
        ),
        _ => body,
    }
}

/// Every shift performed while substituting stays within range.
pub open spec fn can_subst(index: nat, body: Term, arg: Term) -> bool
    decreases body,
{
    match body {
        Tm::Lam(_, p, b) => can_subst(index, *p, arg) && can_shift(arg, 1, 0) && index + 1
            <= usize::MAX && can_subst(index + 1, *b, shift_tm(arg, 1, 0)),
        Tm::Pi(_, p, r) => can_subst(index, *p, arg) && can_shift(arg, 1, 0) && index + 1
            <= usize::MAX && can_subst(index + 1, *r, shift_tm(arg, 1, 0)),
        Tm::App(f, a) => can_subst(index, *f, arg) && can_subst(index, *a, arg),
        _ => true,
    }
}

/// The body of an abstraction applied to `arg`.
pub open spec fn beta_tm(body: Term, arg: Term) -> Term {
    shift_tm(subst_tm(0, body, shift_tm(arg, 1, 0)), -1, 0)
}

pub open spec fn can_beta(body: Term, arg: Term) -> bool {
    &&& can_shift(arg, 1, 0)
    &&& can_subst(0, body, shift_tm(arg, 1, 0))
    &&& can_shift(subst_tm(0, body, shift_tm(arg, 1, 0)), -1, 0)
}

pub open spec fn is_fix(t: Term) -> bool {
    t == Tm::<usize, Seq<char>>::Lit(BuiltinV::Fix)
}

/// `t` is an application of the fixpoint builtin, `fix A`.
pub open spec fn is_fix_app(t: Term) -> bool {
    match t {
        Tm::App(f, _) => is_fix(*f),
        _ => false,
    }
}

/// `fix A f` unfolds to `f (fix A f)`; `fe` is the evaluated `fix A`.
pub open spec fn unfold_fix(fe: Term, f: Term) -> Term {
    Tm::App(Box::new(f), Box::new(Tm::App(Box::new(fe), Box::new(f))))
}

/// Weak head normal form with at most `n` nested reduction steps; `None` when
/// the fuel runs out or a reduction leaves the index range.
pub open spec fn whnf_fuel(t: Term, n: nat) -> Option<Term>
    decreases n,
{
    if n == 0 {
        None
    } else {
        match t {
            Tm::App(f, a) => match whnf_fuel(*f, (n - 1) as nat) {
                None => None,
                Some(fe) => match fe {
                    Tm::Lam(_, _, body) => if can_beta(*body, *a) {
                        whnf_fuel(beta_tm(*body, *a), (n - 1) as nat)
                    } else {
                        None
                    },
                    Tm::App(fix, _) => if is_fix(*fix) {
                        whnf_fuel(unfold_fix(fe, *a), (n - 1) as nat)
                    } else {
                        Some(Tm::App(Box::new(fe), a))
                    },
                    _ => Some(Tm::App(Box::new(fe), a)),
                },
            },
            _ => Some(t),
        }
    }
}

pub open spec fn whnf_terminates(t: Term) -> bool {
    exists|n: nat| #[trigger] whnf_fuel(t, n) is Some
}

pub open spec fn whnf_steps(t: Term) -> nat {
    choose|n: nat| #[trigger] whnf_fuel(t, n) is Some
}

/// The weak head normal form of a term whose reduction terminates.
pub open spec fn whnf_tm(t: Term) -> Term {
    whnf_fuel(t, whnf_steps(t)).unwrap()
}

/// Head normal form: reduces under binders and at the head of applications.
pub open spec fn hnf_fuel(t: Term, n: nat) -> Option<Term>
    decreases n,
{
    if n == 0 {
        None
    } else {
        match t {
            Tm::Lam(nm, p, b) => match (hnf_fuel(*p, (n - 1) as nat), hnf_fuel(*b, (n - 1) as nat)) {
                (Some(p2), Some(b2)) => Some(Tm::Lam(nm, Box::new(p2), Box::new(b2))),
                _ => None,
            },
            Tm::Pi(nm, p, r) => match (hnf_fuel(*p, (n - 1) as nat), hnf_fuel(*r, (n - 1) as nat)) {
                (Some(p2), Some(r2)) => Some(Tm::Pi(nm, Box::new(p2), Box::new(r2))),
                _ => None,
            },
            Tm::App(f, a) => match hnf_fuel(*f, (n - 1) as nat) {
                None => None,
                Some(fe) => match fe {
                    Tm::Lam(_, _, body) => if can_beta(*body, *a) {
                        hnf_fuel(beta_tm(*body, *a), (n - 1) as nat)
                    } else {
                        None
                    },
                    Tm::App(fix, _) => if is_fix(*fix) {
                        hnf_fuel(unfold_fix(fe, *a), (n - 1) as nat)
                    } else {
                        Some(Tm::App(Box::new(fe), a))
                    },
                    _ => Some(Tm::App(Box::new(fe), a)),
                },
            },
            _ => Some(t),
        }
    }
}

pub open spec fn hnf_terminates(t: Term) -> bool {
    exists|n: nat| #[trigger] hnf_fuel(t, n) is Some
}

pub open spec fn hnf_tm(t: Term) -> Term {
    hnf_fuel(t, choose|n: nat| #[trigger] hnf_fuel(t, n) is Some).unwrap()
}

/// Normal form: like the head normal form, but also normalizes arguments of
/// applications whose head is neither an abstraction nor an application.
pub open spec fn nf_fuel(t: Term, n: nat) -> Option<Term>
    decreases n,
{
    if n == 0 {
        None
    } else {
        match t {
            Tm::Lam(nm, p, b) => match (nf_fuel(*p, (n - 1) as nat), nf_fuel(*b, (n - 1) as nat)) {
                (Some(p2), Some(b2)) => Some(Tm::Lam(nm, Box::new(p2), Box::new(b2))),
                _ => None,
            },
            Tm::Pi(nm, p, r) => match (nf_fuel(*p, (n - 1) as nat), nf_fuel(*r, (n - 1) as nat)) {
                (Some(p2), Some(r2)) => Some(Tm::Pi(nm, Box::new(p2), Box::new(r2))),
                _ => None,
            },
            Tm::App(f, a) => match nf_fuel(*f, (n - 1) as nat) {
                None => None,
                Some(fe) => match fe {
                    Tm::Lam(_, _, body) => if can_beta(*body, *a) {
                        nf_fuel(beta_tm(*body, *a), (n - 1) as nat)
                    } else {
                        None
                    },
                    Tm::App(fix, _) => if is_fix(*fix) {
                        nf_fuel(unfold_fix(fe, *a), (n - 1) as nat)
                    } else {
                        Some(Tm::App(Box::new(fe), a))
                    },
                    _ => match nf_fuel(*a, (n - 1) as nat) {
                        Some(a2) => Some(Tm::App(Box::new(fe), Box::new(a2))),
                        None => None,
                    },
                },
            },
            _ => Some(t),
        }
    }
}

pub open spec fn nf_terminates(t: Term) -> bool {
    exists|n: nat| #[trigger] nf_fuel(t, n) is Some
}

pub open spec fn nf_tm(t: Term) -> Term {
    nf_fuel(t, choose|n: nat| #[trigger] nf_fuel(t, n) is Some).unwrap()
}

// ---------------------------------------------------------------------------
// Implementation
// ---------------------------------------------------------------------------

/// Shifts the free variables of `expr` (those at or above `cutoff`) by `delta`;
/// needed whenever a term is moved under or out of a binder.
pub fn shift(expr: &Expr, delta: isize, cutoff: usize) -> (r: Expr)
    requires
        can_shift(expr@, delta as int, cutoff as nat),
    ensures
        r@ == shift_tm(expr@, delta as int, cutoff as nat),
    decreases expr,
{
    match expr {
        GExpr::Var { idx } => {
            if *idx >= cutoff {
                let k_i: isize = *idx as isize + delta;
                GExpr::Var { idx: k_i as usize }
            } else {
                GExpr::Var { idx: *idx }
            }
        },
        GExpr::Lambda { param_ty, body, name } => {
            let param_ty = Box::new(shift(param_ty, delta, cutoff));
            let body = Box::new(shift(body, delta, cutoff + 1));
            GExpr::Lambda { name: name.clone(), param_ty, body }
        },
        GExpr::Pi { param_ty, ret_ty, name } => {
            let param_ty = Box::new(shift(param_ty, delta, cutoff));
            let ret_ty = Box::new(shift(ret_ty, delta, cutoff + 1));
            GExpr::Pi { name: name.clone(), param_ty, ret_ty }
        },
        GExpr::App { func, arg } => {
            let func = Box::new(shift(func, delta, cutoff));
            let arg = Box::new(shift(arg, delta, cutoff));
            GExpr::App { func, arg }
        },
        _ => clone_expr(expr),
    }
}

/// Substitutes `arg` for the variable `index` in `body`.
pub fn subst(index: usize, body: &Expr, arg: &Expr) -> (r: Expr)
    requires
        can_subst(index as nat, body@, arg@),
    ensures
        r@ == subst_tm(index as nat, body@, arg@),
    decreases body,
{
    match body {
        GExpr::Var { idx } => {
            if *idx == index {
                clone_expr(arg)
            } else {
                clone_expr(body)
            }
        },
        GExpr::Lambda { param_ty, body, name } => {
            let param_ty = Box::new(subst(index, param_ty, arg));
            let arg_shifted = shift(arg, 1, 0);
            let body = Box::new(subst(index + 1, body, &arg_shifted));
            GExpr::Lambda { name: name.clone(), param_ty, body }
        },
        GExpr::App { func: app_func, arg: app_arg } => {
            let app_func = Box::new(subst(index, app_func, arg));
            let app_arg = Box::new(subst(index, app_arg, arg));
            GExpr::App { func: app_func, arg: app_arg }
        },
        GExpr::Pi { param_ty, ret_ty, name } => {
            let param_ty = Box::new(subst(index, param_ty, arg));
            let arg_shifted = shift(arg, 1, 0);
            let ret_ty = Box::new(subst(index + 1, ret_ty, &arg_shifted));
            GExpr::Pi { name: name.clone(), param_ty, ret_ty }
        },
        _ => clone_expr(body),
    }
}

/// Applies an abstraction with body `body` to `arg`.
pub fn beta_reduce(body: &Expr, arg: &Expr) -> (r: Expr)
    requires
        can_beta(body@, arg@),
    ensures
        r@ == beta_tm(body@, arg@),
{
    let arg_shifted = shift(arg, 1, 0);
    let substed = subst(0, body, &arg_shifted);
    shift(&substed, -1, 0)
}

/// How an evaluated function position continues an application.
enum Head {
    Lambda,
    FixApp,
    Stuck,
}

fn classify(fe: &Expr) -> (h: Head)
    ensures
        h is Lambda <==> fe@ is Lam,
        (h is FixApp) == is_fix_app(fe@),
{
    match fe {
        GExpr::Lambda { .. } => {
            assert(!is_fix_app(fe@));
            Head::Lambda
        },
        GExpr::App { func, .. } => match &**func {
            GExpr::Builtin(Builtin::Fix) => {
                assert(tm_of(**func) == Tm::<usize, Seq<char>>::Lit(BuiltinV::Fix));
                Head::FixApp
            },
            GExpr::Builtin(b) => {
                assert(b@ != BuiltinV::Fix);
                Head::Stuck
            },
            _ => Head::Stuck,
        },
        _ => Head::Stuck,
    }
}

fn lambda_body(fe: &Expr) -> (b: &Expr)
    requires
        fe@ is Lam,
    ensures
        fe@ matches Tm::Lam(_, _, body) && *body == b@,
{
    match fe {
        GExpr::Lambda { body, .. } => body,
        _ => {
            proof {
                assert(false);
            }
            fe
        },
    }
}

fn fix_unfolding(fe: Expr, arg: &Expr) -> (r: Expr)
    ensures
        r@ == unfold_fix(fe@, arg@),
{
    let inner = GExpr::App { func: Box::new(fe), arg: Box::new(clone_expr(arg)) };
    assert(inner@ == Tm::App(Box::new(fe@), Box::new(arg@)));
    GExpr::App { func: Box::new(clone_expr(arg)), arg: Box::new(inner) }
}

fn whnf_go(expr: &Expr, Ghost(n): Ghost<nat>) -> (r: Expr)
    requires
        whnf_fuel(expr@, n) is Some,
    ensures
        whnf_fuel(expr@, n) == Some(r@),
    decreases n,
{
    match expr {
        GExpr::App { func, arg } => {
            let func_eval = whnf_go(func, Ghost((n - 1) as nat));
            match classify(&func_eval) {
                Head::Lambda => {
                    let result = beta_reduce(lambda_body(&func_eval), arg);
                    whnf_go(&result, Ghost((n - 1) as nat))
                },
                Head::FixApp => {
                    let result = fix_unfolding(func_eval, arg);
                    whnf_go(&result, Ghost((n - 1) as nat))
                },
                Head::Stuck => GExpr::App { func: Box::new(func_eval), arg: Box::new(clone_expr(arg)) },
            }
        },
        _ => clone_expr(expr),
    }
}

/// Reduces the head of `expr` until it is no longer an applied abstraction or
/// an applied fixpoint.
pub fn weak_head_normal_form(expr: &Expr) -> (r: Expr)
    requires
        whnf_terminates(expr@),
    ensures
        r@ == whnf_tm(expr@),
{
    whnf_go(expr, Ghost(whnf_steps(expr@)))
}

fn hnf_go(expr: &Expr, Ghost(n): Ghost<nat>) -> (r: Expr)
    requires
        hnf_fuel(expr@, n) is Some,
    ensures
        hnf_fuel(expr@, n) == Some(r@),
    decreases n,
{
    match expr {
        GExpr::Lambda { param_ty, body, name } => {
            let param_ty = Box::new(hnf_go(param_ty, Ghost((n - 1) as nat)));
            let body = Box::new(hnf_go(body, Ghost((n - 1) as nat)));
            GExpr::Lambda { name: name.clone(), param_ty, body }
        },
        GExpr::Pi { param_ty, ret_ty, name } => {
            let param_ty = Box::new(hnf_go(param_ty, Ghost((n - 1) as nat)));
            let ret_ty = Box::new(hnf_go(ret_ty, Ghost((n - 1) as nat)));
            GExpr::Pi { name: name.clone(), param_ty, ret_ty }
        },
        GExpr::App { func, arg } => {
            let func_eval = hnf_go(func, Ghost((n - 1) as nat));
            match classify(&func_eval) {
                Head::Lambda => {
                    let result = beta_reduce(lambda_body(&func_eval), arg);
                    hnf_go(&result, Ghost((n - 1) as nat))
                },
                Head::FixApp => {
                    let result = fix_unfolding(func_eval, arg);
                    hnf_go(&result, Ghost((n - 1) as nat))
                },
                Head::Stuck => GExpr::App { func: Box::new(func_eval), arg: Box::new(clone_expr(arg)) },
            }
        },
        _ => clone_expr(expr),
    }
}

/// Reduces under binders and at the head of applications.
pub fn head_normal_form(expr: &Expr) -> (r: Expr)
    requires
        hnf_terminates(expr@),
    ensures
        r@ == hnf_tm(expr@),
{
    hnf_go(expr, Ghost(choose|n: nat| #[trigger] hnf_fuel(expr@, n) is Some))
}

fn nf_go(expr: &Expr, Ghost(n): Ghost<nat>) -> (r: Expr)
    requires
        nf_fuel(expr@, n) is Some,
    ensures
        nf_fuel(expr@, n) == Some(r@),
    decreases n,
{
    match expr {
        GExpr::Lambda { param_ty, body, name } => {
            let param_ty = Box::new(nf_go(param_ty, Ghost((n - 1) as nat)));
            let body = Box::new(nf_go(body, Ghost((n - 1) as nat)));
            GExpr::Lambda { name: name.clone(), param_ty, body }
        },
        GExpr::Pi { param_ty, ret_ty, name } => {
            let param_ty = Box::new(nf_go(param_ty, Ghost((n - 1) as nat)));
            let ret_ty = Box::new(nf_go(ret_ty, Ghost((n - 1) as nat)));
            GExpr::Pi { name: name.clone(), param_ty, ret_ty }
        },
        GExpr::App { func, arg } => {
            let func_eval = nf_go(func, Ghost((n - 1) as nat));
            match classify(&func_eval) {
                Head::Lambda => {
                    let result = beta_reduce(lambda_body(&func_eval), arg);
                    nf_go(&result, Ghost((n - 1) as nat))
                },
                Head::FixApp => {
                    let result = fix_unfolding(func_eval, arg);
                    nf_go(&result, Ghost((n - 1) as nat))
                },
                Head::Stuck => {
                    if let GExpr::App { .. } = &func_eval {
                        GExpr::App { func: Box::new(func_eval), arg: Box::new(clone_expr(arg)) }
                    } else {
                        let arg_nf = nf_go(arg, Ghost((n - 1) as nat));
                        GExpr::App { func: Box::new(func_eval), arg: Box::new(arg_nf) }
                    }
                },
            }
        },
        _ => clone_expr(expr),
    }
}

/// Reduces everywhere except in arguments of stuck applications of applications.
pub fn normal_form(expr: &Expr) -> (r: Expr)
    requires
        nf_terminates(expr@),
    ensures
        r@ == nf_tm(expr@),
{
    nf_go(expr, Ghost(choose|n: nat| #[trigger] nf_fuel(expr@, n) is Some))
}

// ---------------------------------------------------------------------------
// Laws
// ---------------------------------------------------------------------------

/// Shifting by zero changes nothing.
pub proof fn lemma_shift_zero(t: Term, cutoff: nat)
    ensures
        shift_tm(t, 0, cutoff) == t,
    decreases t,
{
    match t {
        Tm::Lam(_, p, b) => {
            lemma_shift_zero(*p, cutoff);
            lemma_shift_zero(*b, cutoff + 1);
        },
        Tm::Pi(_, p, r) => {
            lemma_shift_zero(*p, cutoff);
            lemma_shift_zero(*r, cutoff + 1);
        },
        Tm::App(f, a) => {
            lemma_shift_zero(*f, cutoff);
            lemma_shift_zero(*a, cutoff);
        },
        _ => {},
    }
}

/// Shifting up by any `delta` and then down by as much is always possible
/// and gives back the term it started from: moving a term under binders can
/// be undone.
pub proof fn lemma_shift_up_down(t: Term, delta: nat, cutoff: nat)
    requires
        can_shift(t, delta as int, cutoff),
    ensures
        can_shift(shift_tm(t, delta as int, cutoff), -delta, cutoff),
        shift_tm(shift_tm(t, delta as int, cutoff), -delta, cutoff) == t,
    decreases t,
{
    match t {
        Tm::Lam(_, p, b) => {
            lemma_shift_up_down(*p, delta, cutoff);
            lemma_shift_up_down(*b, delta, cutoff + 1);
        },
        Tm::Pi(_, p, r) => {
            lemma_shift_up_down(*p, delta, cutoff);
            lemma_shift_up_down(*r, delta, cutoff + 1);
        },
        Tm::App(f, a) => {
            lemma_shift_up_down(*f, delta, cutoff);
            lemma_shift_up_down(*a, delta, cutoff);
        },
        _ => {},
    }
}

/// A term in weak head normal form: its head is not an applied abstraction
/// nor an applied fixpoint.
pub open spec fn is_whnf(t: Term) -> bool
    decreases t,
{
    match t {
        Tm::App(f, _) => is_whnf(*f) && !(*f is Lam) && !is_fix_app(*f),
        _ => true,
    }
}

/// The length of the application spine of a term.
pub open spec fn spine(t: Term) -> nat
    decreases t,
{
    match t {
        Tm::App(f, _) => 1 + spine(*f),
        _ => 0,
    }
}

/// More fuel never changes a result that was already reached.
pub proof fn lemma_whnf_fuel_mono(t: Term, n: nat, m: nat)
    requires
        whnf_fuel(t, n) is Some,
        n <= m,
    ensures
        whnf_fuel(t, m) == whnf_fuel(t, n),
    decreases n,
{
    if let Tm::App(f, a) = t {
        lemma_whnf_fuel_mono(*f, (n - 1) as nat, (m - 1) as nat);
        let fe = whnf_fuel(*f, (n - 1) as nat).unwrap();
        match fe {
            Tm::Lam(_, _, body) => {
                if can_beta(*body, *a) {
                    lemma_whnf_fuel_mono(beta_tm(*body, *a), (n - 1) as nat, (m - 1) as nat);
                }
            },
            Tm::App(fix, _) => {
                if is_fix(*fix) {
                    lemma_whnf_fuel_mono(unfold_fix(fe, *a), (n - 1) as nat, (m - 1) as nat);
                }
            },
            _ => {},
        }
    }
}

/// Any two amounts of fuel that both suffice give the same result.
pub proof fn lemma_whnf_fuel_unique(t: Term, n: nat, m: nat)
    requires
        whnf_fuel(t, n) is Some,
        whnf_fuel(t, m) is Some,
    ensures
        whnf_fuel(t, n) == whnf_fuel(t, m),
{
    if n <= m {
        lemma_whnf_fuel_mono(t, n, m);
    } else {
        lemma_whnf_fuel_mono(t, m, n);
    }
}

/// Every result of weak head reduction is in weak head normal form.
pub proof fn lemma_whnf_fuel_is_whnf(t: Term, n: nat)
    requires
        whnf_fuel(t, n) is Some,
    ensures
        is_whnf(whnf_fuel(t, n).unwrap()),
    decreases n,
{
    if let Tm::App(f, a) = t {
        lemma_whnf_fuel_is_whnf(*f, (n - 1) as nat);
        let fe = whnf_fuel(*f, (n - 1) as nat).unwrap();
        match fe {
            Tm::Lam(_, _, body) => {
                lemma_whnf_fuel_is_whnf(beta_tm(*body, *a), (n - 1) as nat);
            },
            Tm::App(fix, _) => {
                if is_fix(*fix) {
                    lemma_whnf_fuel_is_whnf(unfold_fix(fe, *a), (n - 1) as nat);
                }
            },
            _ => {},
        }
    }
}

/// Weak head reduction leaves a term in weak head normal form unchanged.
pub proof fn lemma_whnf_fuel_of_whnf(t: Term, n: nat)
    requires
        is_whnf(t),
        n > spine(t),
    ensures
        whnf_fuel(t, n) == Some(t),
    decreases t,
{
    if let Tm::App(f, a) = t {
        lemma_whnf_fuel_of_whnf(*f, (n - 1) as nat);
    }
}

/// The result of `weak_head_normal_form` is in weak head normal form, and
/// reducing it again changes nothing.
pub proof fn lemma_whnf_idempotent(t: Term)
    requires
        whnf_terminates(t),
    ensures
        is_whnf(whnf_tm(t)),
        whnf_terminates(whnf_tm(t)),
        whnf_tm(whnf_tm(t)) == whnf_tm(t),
{
    let n = whnf_steps(t);
    lemma_whnf_fuel_is_whnf(t, n);
    let r = whnf_tm(t);
    lemma_whnf_fuel_of_whnf(r, spine(r) + 1);
    assert(whnf_fuel(r, spine(r) + 1) is Some);
    let m = whnf_steps(r);
    lemma_whnf_fuel_unique(r, m, spine(r) + 1);
}

/// A term that `normal_form` leaves as it is: binders with normal parts,
/// and applications whose head is normal and neither an abstraction nor an
/// applied fixpoint, with a normal argument unless the head is itself an
/// application.
pub open spec fn is_nf(t: Term) -> bool
    decreases t,
{
    match t {
        Tm::Lam(_, p, b) => is_nf(*p) && is_nf(*b),
        Tm::Pi(_, p, r) => is_nf(*p) && is_nf(*r),
        Tm::App(f, a) => is_nf(*f) && !(*f is Lam) && !is_fix_app(*f) && (*f is App || is_nf(*a)),
        _ => true,
    }
}

/// The nesting depth of binders and applications.
pub open spec fn height(t: Term) -> nat
    decreases t,
{
    match t {
        Tm::Lam(_, p, b) | Tm::Pi(_, p, b) | Tm::App(p, b) => 1 + if height(*p) >= height(*b) {
            height(*p)
        } else {
            height(*b)
        },
        _ => 0,
    }
}

proof fn lemma_nf_fuel_mono(t: Term, n: nat, m: nat)
    requires
        nf_fuel(t, n) is Some,
        n <= m,
    ensures
        nf_fuel(t, m) == nf_fuel(t, n),
    decreases n,
{
    match t {
        Tm::Lam(_, p, b) | Tm::Pi(_, p, b) => {
            lemma_nf_fuel_mono(*p, (n - 1) as nat, (m - 1) as nat);
            lemma_nf_fuel_mono(*b, (n - 1) as nat, (m - 1) as nat);
        },
        Tm::App(f, a) => {
            lemma_nf_fuel_mono(*f, (n - 1) as nat, (m - 1) as nat);
            let fe = nf_fuel(*f, (n - 1) as nat).unwrap();
            match fe {
                Tm::Lam(_, _, body) => {
                    if can_beta(*body, *a) {
                        lemma_nf_fuel_mono(beta_tm(*body, *a), (n - 1) as nat, (m - 1) as nat);
                    }
                },
                Tm::App(fix, _) => {
                    if is_fix(*fix) {
                        lemma_nf_fuel_mono(unfold_fix(fe, *a), (n - 1) as nat, (m - 1) as nat);
                    }
                },
                _ => {
                    lemma_nf_fuel_mono(*a, (n - 1) as nat, (m - 1) as nat);
                },
            }
        },
        _ => {},
    }
}

proof fn lemma_nf_fuel_is_nf(t: Term, n: nat)
    requires
        nf_fuel(t, n) is Some,
    ensures
        is_nf(nf_fuel(t, n).unwrap()),
    decreases n,
{
    match t {
        Tm::Lam(_, p, b) | Tm::Pi(_, p, b) => {
            lemma_nf_fuel_is_nf(*p, (n - 1) as nat);
            lemma_nf_fuel_is_nf(*b, (n - 1) as nat);
        },
        Tm::App(f, a) => {
            lemma_nf_fuel_is_nf(*f, (n - 1) as nat);
            let fe = nf_fuel(*f, (n - 1) as nat).unwrap();
            match fe {
                Tm::Lam(_, _, body) => {
                    lemma_nf_fuel_is_nf(beta_tm(*body, *a), (n - 1) as nat);
                },
                Tm::App(fix, _) => {
                    if is_fix(*fix) {
                        lemma_nf_fuel_is_nf(unfold_fix(fe, *a), (n - 1) as nat);
                    }
                },
                _ => {
                    lemma_nf_fuel_is_nf(*a, (n - 1) as nat);
                },
            }
        },
        _ => {},
    }
}

proof fn lemma_nf_fuel_of_nf(t: Term, n: nat)
    requires
        is_nf(t),
        n > height(t),
    ensures
        nf_fuel(t, n) == Some(t),
    decreases t,
{
    match t {
        Tm::Lam(_, p, b) | Tm::Pi(_, p, b) => {
            lemma_nf_fuel_of_nf(*p, (n - 1) as nat);
            lemma_nf_fuel_of_nf(*b, (n - 1) as nat);
        },
        Tm::App(f, a) => {
            lemma_nf_fuel_of_nf(*f, (n - 1) as nat);
            if !(*f is App) {
                lemma_nf_fuel_of_nf(*a, (n - 1) as nat);
            }
        },
        _ => {},
    }
}

/// The result of `normal_form` is a normal form, and normalizing it again
/// changes nothing.
pub proof fn lemma_nf_idempotent(t: Term)
    requires
        nf_terminates(t),
    ensures
        is_nf(nf_tm(t)),
        nf_terminates(nf_tm(t)),
        nf_tm(nf_tm(t)) == nf_tm(t),
{
    let n = choose|n: nat| #[trigger] nf_fuel(t, n) is Some;
    lemma_nf_fuel_is_nf(t, n);
    let r = nf_tm(t);
    lemma_nf_fuel_of_nf(r, height(r) + 1);
    assert(nf_fuel(r, height(r) + 1) is Some);
    let m = choose|m: nat| #[trigger] nf_fuel(r, m) is Some;
    if m <= height(r) + 1 {
        lemma_nf_fuel_mono(r, m, height(r) + 1);
    } else {
        lemma_nf_fuel_mono(r, height(r) + 1, m);
    }
}

/// A term that `head_normal_form` leaves as it is: binders with head normal
/// parts, and applications whose head is head normal and neither an
/// abstraction nor an applied fixpoint.
pub open spec fn is_hnf(t: Term) -> bool
    decreases t,
{
    match t {
        Tm::Lam(_, p, b) => is_hnf(*p) && is_hnf(*b),
        Tm::Pi(_, p, r) => is_hnf(*p) && is_hnf(*r),
        Tm::App(f, _) => is_hnf(*f) && !(*f is Lam) && !is_fix_app(*f),
        _ => true,
    }
}

proof fn lemma_hnf_fuel_mono(t: Term, n: nat, m: nat)
    requires
        hnf_fuel(t, n) is Some,
        n <= m,
    ensures
        hnf_fuel(t, m) == hnf_fuel(t, n),
    decreases n,
{
    match t {
        Tm::Lam(_, p, b) | Tm::Pi(_, p, b) => {
            lemma_hnf_fuel_mono(*p, (n - 1) as nat, (m - 1) as nat);
            lemma_hnf_fuel_mono(*b, (n - 1) as nat, (m - 1) as nat);
        },
        Tm::App(f, a) => {
            lemma_hnf_fuel_mono(*f, (n - 1) as nat, (m - 1) as nat);
            let fe = hnf_fuel(*f, (n - 1) as nat).unwrap();
            match fe {
                Tm::Lam(_, _, body) => {
                    if can_beta(*body, *a) {
                        lemma_hnf_fuel_mono(beta_tm(*body, *a), (n - 1) as nat, (m - 1) as nat);
                    }
                },
                Tm::App(fix, _) => {
                    if is_fix(*fix) {
                        lemma_hnf_fuel_mono(unfold_fix(fe, *a), (n - 1) as nat, (m - 1) as nat);
                    }
                },
                _ => {},
            }
        },
        _ => {},
    }
}

proof fn lemma_hnf_fuel_is_hnf(t: Term, n: nat)
    requires
        hnf_fuel(t, n) is Some,
    ensures
        is_hnf(hnf_fuel(t, n).unwrap()),
    decreases n,
{
    match t {
        Tm::Lam(_, p, b) | Tm::Pi(_, p, b) => {
            lemma_hnf_fuel_is_hnf(*p, (n - 1) as nat);
            lemma_hnf_fuel_is_hnf(*b, (n - 1) as nat);
        },
        Tm::App(f, a) => {
            lemma_hnf_fuel_is_hnf(*f, (n - 1) as nat);
            let fe = hnf_fuel(*f, (n - 1) as nat).unwrap();
            match fe {
                Tm::Lam(_, _, body) => {
                    lemma_hnf_fuel_is_hnf(beta_tm(*body, *a), (n - 1) as nat);
                },
                Tm::App(fix, _) => {
                    if is_fix(*fix) {
                        lemma_hnf_fuel_is_hnf(unfold_fix(fe, *a), (n - 1) as nat);
                    }
                },
                _ => {},
            }
        },
        _ => {},
    }
}

proof fn lemma_hnf_fuel_of_hnf(t: Term, n: nat)
    requires
        is_hnf(t),
        n > height(t),
    ensures
        hnf_fuel(t, n) == Some(t),
    decreases t,
{
    match t {
        Tm::Lam(_, p, b) | Tm::Pi(_, p, b) => {
            lemma_hnf_fuel_of_hnf(*p, (n - 1) as nat);
            lemma_hnf_fuel_of_hnf(*b, (n - 1) as nat);
        },
        Tm::App(f, _) => {
            lemma_hnf_fuel_of_hnf(*f, (n - 1) as nat);
        },
        _ => {},
    }
}

/// The result of `head_normal_form` is in head normal form, and reducing
/// it again changes nothing.
pub proof fn lemma_hnf_idempotent(t: Term)
    requires
        hnf_terminates(t),
    ensures
        is_hnf(hnf_tm(t)),
        hnf_terminates(hnf_tm(t)),
        hnf_tm(hnf_tm(t)) == hnf_tm(t),
{
    let n = choose|n: nat| #[trigger] hnf_fuel(t, n) is Some;
    lemma_hnf_fuel_is_hnf(t, n);
    let r = hnf_tm(t);
    lemma_hnf_fuel_of_hnf(r, height(r) + 1);
    assert(hnf_fuel(r, height(r) + 1) is Some);
    let m = choose|m: nat| #[trigger] hnf_fuel(r, m) is Some;
    if m <= height(r) + 1 {
        lemma_hnf_fuel_mono(r, m, height(r) + 1);
    } else {
        lemma_hnf_fuel_mono(r, height(r) + 1, m);
    }
}

/// Whether variable `i` (counted at the root of `t`) occurs free in `t`,
/// outside the items of error nodes, which reduction leaves as they are.
pub open spec fn occurs_free(i: nat, t: Term) -> bool
    decreases t,
{
    match t {
        Tm::Var(j) => j == i,
        Tm::App(f, a) => occurs_free(i, *f) || occurs_free(i, *a),
        Tm::Lam(_, p, b) => occurs_free(i, *p) || occurs_free(i + 1, *b),
        Tm::Pi(_, p, r) => occurs_free(i, *p) || occurs_free(i + 1, *r),
        _ => false,
    }
}

/// Every variable of `t` that is free at its root is below `n`.
pub open spec fn vars_below(t: Term, n: nat) -> bool
    decreases t,
{
    match t {
        Tm::Var(j) => j < n,
        Tm::App(f, a) => vars_below(*f, n) && vars_below(*a, n),
        Tm::Lam(_, p, b) => vars_below(*p, n) && vars_below(*b, n + 1),
        Tm::Pi(_, p, r) => vars_below(*p, n) && vars_below(*r, n + 1),
        _ => true,
    }
}

proof fn lemma_vars_below_not_free(t: Term, n: nat, i: nat)
    requires
        vars_below(t, n),
        n <= i,
    ensures
        !occurs_free(i, t),
    decreases t,
{
    match t {
        Tm::App(f, a) => {
            lemma_vars_below_not_free(*f, n, i);
            lemma_vars_below_not_free(*a, n, i);
        },
        Tm::Lam(_, p, b) | Tm::Pi(_, p, b) => {
            lemma_vars_below_not_free(*p, n, i);
            lemma_vars_below_not_free(*b, n + 1, i + 1);
        },
        _ => {},
    }
}

proof fn lemma_shift_below(t: Term, n: nat, delta: int, cutoff: nat)
    requires
        vars_below(t, n),
        n <= cutoff,
    ensures
        shift_tm(t, delta, cutoff) == t,
    decreases t,
{
    match t {
        Tm::App(f, a) => {
            lemma_shift_below(*f, n, delta, cutoff);
            lemma_shift_below(*a, n, delta, cutoff);
        },
        Tm::Lam(_, p, b) | Tm::Pi(_, p, b) => {
            lemma_shift_below(*p, n, delta, cutoff);
            lemma_shift_below(*b, n + 1, delta, cutoff + 1);
        },
        _ => {},
    }
}

/// Substitution replaces every free occurrence of its variable: when the
/// term put in has no free variable, the variable no longer occurs free in
/// the result, wherever it stood (the function or the argument of an
/// application, the type or the body of a binder).
pub proof fn lemma_subst_removes_variable(i: nat, t: Term, s: Term)
    requires
        vars_below(s, 0),
    ensures
        !occurs_free(i, subst_tm(i, t, s)),
    decreases t,
{
    lemma_vars_below_not_free(s, 0, i);
    match t {
        Tm::App(f, a) => {
            lemma_subst_removes_variable(i, *f, s);
            lemma_subst_removes_variable(i, *a, s);
        },
        Tm::Lam(_, p, b) | Tm::Pi(_, p, b) => {
            lemma_shift_below(s, 0, 1, 0);
            lemma_subst_removes_variable(i, *p, s);
            lemma_subst_removes_variable(i + 1, *b, s);
        },
        _ => {},
    }
}

/// Substitution leaves a term alone where its variable does not occur
/// free.
pub proof fn lemma_subst_without_occurrence(i: nat, t: Term, s: Term)
    requires
        !occurs_free(i, t),
    ensures
        subst_tm(i, t, s) == t,
    decreases t,
{
    match t {
        Tm::App(f, a) => {
            lemma_subst_without_occurrence(i, *f, s);
            lemma_subst_without_occurrence(i, *a, s);
        },
        Tm::Lam(_, p, b) | Tm::Pi(_, p, b) => {
            lemma_subst_without_occurrence(i, *p, s);
            lemma_subst_without_occurrence(i + 1, *b, shift_tm(s, 1, 0));
        },
        _ => {},
    }
}

} // verus!
