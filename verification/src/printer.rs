//! Pretty printing of expressions with as few parentheses as precedence and
//! associativity allow.
use vstd::prelude::*;
use vstd::string::*;

use crate::expr::{Builtin, BuiltinV, Expr, GExpr, NamedExpr, NamedTerm, Term, Tm, VarKind};
use crate::desugar::{church, church_body};
use crate::name_resolver::{to_indices_spec, ContextV};
use crate::text::{cat, decimal, owned, usize_to_string};

verus! {

/// Binding strength of a syntactic form, from loosest to tightest.
#[derive(PartialEq, Eq, Debug, Clone, Copy)]
pub enum Prec {
    LOWEST,
    PI,
    LAMBDA,
    APP,
    HIGHEST,
}

/// Associativity of a syntactic form.
#[derive(PartialEq, Eq, Debug, Clone, Copy)]
pub enum Assoc {
    Left,
    Right,
}

pub open spec fn rank(p: Prec) -> nat {
    match p {
        Prec::LOWEST => 0,
        Prec::PI => 1,
        Prec::LAMBDA => 2,
        Prec::APP => 3,
        Prec::HIGHEST => 4,
    }
}

fn prec_rank(p: Prec) -> (r: u8)
    ensures
        r == rank(p),
{
    match p {
        Prec::LOWEST => 0,
        Prec::PI => 1,
        Prec::LAMBDA => 2,
        Prec::APP => 3,
        Prec::HIGHEST => 4,
    }
}

/// A form of precedence `my_prec` placed in a parent of precedence
/// `parent_prec` needs parentheses when it binds more loosely, or equally
/// loosely on the side against the parent's associativity.
pub open spec fn needs_parens(
    my_prec: Prec,
    parent_prec: Prec,
    parent_assoc: Option<Assoc>,
    is_right_child: bool,
) -> bool {
    if rank(my_prec) < rank(parent_prec) {
        true
    } else if rank(my_prec) == rank(parent_prec) {
        match (parent_assoc, is_right_child) {
            (Some(Assoc::Left), true) => true,
            (Some(Assoc::Right), false) => true,
            _ => false,
        }
    } else {
        false
    }
}

pub open spec fn parens_spec(
    s: Seq<char>,
    my_prec: Prec,
    parent_prec: Prec,
    parent_assoc: Option<Assoc>,
    is_right_child: bool,
) -> Seq<char> {
    if needs_parens(my_prec, parent_prec, parent_assoc, is_right_child) {
        "("@ + s + ")"@
    } else {
        s
    }
}

fn maybe_parens(
    s: String,
    my_prec: Prec,
    parent_prec: Prec,
    parent_assoc: Option<Assoc>,
    is_right_child: bool,
) -> (r: String)
    ensures
        r@ == parens_spec(s@, my_prec, parent_prec, parent_assoc, is_right_child),
{
    let my = prec_rank(my_prec);
    let parent = prec_rank(parent_prec);
    let needs_parens = if my < parent {
        true
    } else if my == parent {
        match (parent_assoc, is_right_child) {
            (Some(Assoc::Left), true) => true,
            (Some(Assoc::Right), false) => true,
            _ => false,
        }
    } else {
        false
    };
    if needs_parens {
        let mut r = owned("(");
        r.append(s.as_str());
        r.append(")");
        r
    } else {
        s
    }
}

/// `a` followed by `b`.
/// The text of a builtin.
pub open spec fn builtin_text(b: BuiltinV) -> Seq<char> {
    match b {
        BuiltinV::String(s) => "\""@ + s + "\""@,
        _ => "__something builtin__"@,
    }
}

fn print_builtin(b: &Builtin) -> (r: String)
    ensures
        r@ == builtin_text(b@),
{
    match b {
        Builtin::String(s) => cat(cat(owned("\""), s.as_str()), "\""),
        _ => owned("__something builtin__"),
    }
}

// ---------------------------------------------------------------------------
// Named expressions
// ---------------------------------------------------------------------------

/// The text of a named expression in a context of the given precedence.
pub open spec fn print_named_spec(
    t: NamedTerm,
    prec: Prec,
    assoc: Option<Assoc>,
    is_right_child: bool,
) -> Seq<char>
    decreases t,
{
    match t {
        Tm::Fail(_, _) => "err"@,
        Tm::Lit(b) => builtin_text(b),
        Tm::Var(VarKind::Named(s)) => s,
        Tm::Var(VarKind::Idx(i)) => decimal(i as nat),
        Tm::Type => "Type"@,
        Tm::App(func, arg) => parens_spec(
            print_named_spec(*func, Prec::APP, Some(Assoc::Left), false) + " "@ + print_named_spec(
                *arg,
                Prec::APP,
                Some(Assoc::Left),
                true,
            ),
            Prec::APP,
            prec,
            assoc,
            is_right_child,
        ),
        Tm::Lam(name, param_ty, body) => {
            let body_print = print_named_spec(*body, Prec::LAMBDA, Some(Assoc::Right), true);
            let s = match name {
                VarKind::Named(n) => "("@ + n + ": "@ + print_named_spec(
                    *param_ty,
                    Prec::LOWEST,
                    Some(Assoc::Right),
                    false,
                ) + ") => "@ + body_print,
                VarKind::Idx(_) => print_named_spec(
                    *param_ty,
                    Prec::LAMBDA,
                    Some(Assoc::Right),
                    false,
                ) + " => "@ + body_print,
            };
            parens_spec(s, Prec::LAMBDA, prec, assoc, is_right_child)
        },
        Tm::Pi(name, param_ty, ret_ty) => {
            let ret_ty_print = print_named_spec(*ret_ty, Prec::PI, Some(Assoc::Right), true);
            let s = match name {
                VarKind::Named(n) => "("@ + n + ": "@ + print_named_spec(
                    *param_ty,
                    Prec::LOWEST,
                    Some(Assoc::Right),
                    false,
                ) + ") -> "@ + ret_ty_print,
                VarKind::Idx(_) => print_named_spec(*param_ty, Prec::PI, Some(Assoc::Right), false)
                    + " -> "@ + ret_ty_print,
            };
            parens_spec(s, Prec::PI, prec, assoc, is_right_child)
        },
    }
}

fn print_named_go(code: &NamedExpr, prec: Prec, assoc: Option<Assoc>, is_right_child: bool) -> (r:
    String)
    ensures
        r@ == print_named_spec(code@, prec, assoc, is_right_child),
    decreases code,
{
    match code {
        GExpr::Error(..) => owned("err"),
        GExpr::Builtin(b) => print_builtin(b),
        GExpr::Var { idx } => match idx {
            VarKind::Named(s) => s.clone(),
            VarKind::Idx(i) => usize_to_string(*i),
        },
        GExpr::Type => owned("Type"),
        GExpr::App { func, arg } => {
            let f = print_named_go(func, Prec::APP, Some(Assoc::Left), false);
            let a = print_named_go(arg, Prec::APP, Some(Assoc::Left), true);
            let s = cat(cat(f, " "), a.as_str());
            maybe_parens(s, Prec::APP, prec, assoc, is_right_child)
        },
        GExpr::Lambda { name, param_ty, body } => {
            let body_print = print_named_go(body, Prec::LAMBDA, Some(Assoc::Right), true);
            let s = match name {
                VarKind::Named(n) => {
                    let p = print_named_go(param_ty, Prec::LOWEST, Some(Assoc::Right), false);
                    cat(cat(cat(cat(owned("("), n.as_str()), ": "), p.as_str()), ") => ")
                },
                VarKind::Idx(_) => {
                    let p = print_named_go(param_ty, Prec::LAMBDA, Some(Assoc::Right), false);
                    cat(p, " => ")
                },
            };
            maybe_parens(cat(s, body_print.as_str()), Prec::LAMBDA, prec, assoc, is_right_child)
        },
        GExpr::Pi { name, param_ty, ret_ty } => {
            let ret_ty_print = print_named_go(ret_ty, Prec::PI, Some(Assoc::Right), true);
            let s = match name {
                VarKind::Named(n) => {
                    let p = print_named_go(param_ty, Prec::LOWEST, Some(Assoc::Right), false);
                    cat(cat(cat(cat(owned("("), n.as_str()), ": "), p.as_str()), ") -> ")
                },
                VarKind::Idx(_) => {
                    let p = print_named_go(param_ty, Prec::PI, Some(Assoc::Right), false);
                    cat(p, " -> ")
                },
            };
            maybe_parens(cat(s, ret_ty_print.as_str()), Prec::PI, prec, assoc, is_right_child)
        },
    }
}

/// Prints a named expression; named binders are shown with their names,
/// anonymous ones as plain arrows.
pub fn print_named_expr(code: NamedExpr) -> (r: String)
    ensures
        r@ == print_named_spec(code@, Prec::LOWEST, None, false),
{
    print_named_go(&code, Prec::LOWEST, None, false)
}

// ---------------------------------------------------------------------------
// Church numerals
// ---------------------------------------------------------------------------

/// How many times variable 1 is applied around variable 0 in `t`.
pub open spec fn count_apps_spec(t: Term) -> Option<nat>
    decreases t,
{
    match t {
        Tm::Var(0) => Some(0),
        Tm::App(func, arg) => if *func == Tm::<usize, Seq<char>>::Var(1) {
            match count_apps_spec(*arg) {
                Some(k) => Some(k + 1),
                None => None,
            }
        } else {
            None
        },
        _ => None,
    }
}

/// The number `t` encodes when it is a Church numeral
/// `(A: Type) => (f: A -> A) => (x: A) => f (... (f x))`.
pub open spec fn church_spec(t: Term) -> Option<nat> {
    match t {
        Tm::Lam(_, p1, b1) => if *p1 == Tm::<usize, Seq<char>>::Type {
            match *b1 {
                Tm::Lam(_, p2, b2) => match *p2 {
                    Tm::Pi(_, pty, rty) => if *pty == Tm::<usize, Seq<char>>::Var(0) && *rty
                        == Tm::<usize, Seq<char>>::Var(1) {
                        match *b2 {
                            Tm::Lam(_, p3, b3) => if *p3 == Tm::<usize, Seq<char>>::Var(1) {
                                count_apps_spec(*b3)
                            } else {
                                None
                            },
                            _ => None,
                        }
                    } else {
                        None
                    },
                    _ => None,
                },
                _ => None,
            }
        } else {
            None
        },
        _ => None,
    }
}

/// Nesting depth of the applications and binders of a term.
pub open spec fn depth(t: Term) -> nat
    decreases t,
{
    match t {
        Tm::App(f, a) => 1 + if depth(*f) > depth(*a) { depth(*f) } else { depth(*a) },
        Tm::Lam(_, p, b) => 1 + if depth(*p) > depth(*b) { depth(*p) } else { depth(*b) },
        Tm::Pi(_, p, r) => 1 + if depth(*p) > depth(*r) { depth(*p) } else { depth(*r) },
        _ => 0,
    }
}

proof fn lemma_count_apps_depth(t: Term)
    ensures
        count_apps_spec(t) matches Some(k) ==> k <= depth(t),
    decreases t,
{
    if let Tm::App(f, a) = t {
        lemma_count_apps_depth(*a);
    }
}

fn is_var(e: &Expr, k: usize) -> (r: bool)
    ensures
        r == (e@ == Tm::<usize, Seq<char>>::Var(k)),
{
    match e {
        GExpr::Var { idx } => *idx == k,
        _ => false,
    }
}

fn count_apps(expr: &Expr) -> (r: Option<usize>)
    requires
        depth(expr@) <= usize::MAX,
    ensures
        r matches Some(k) ==> count_apps_spec(expr@) == Some(k as nat),
        r is None ==> count_apps_spec(expr@) is None,
    decreases expr,
{
    proof {
        lemma_count_apps_depth(expr@);
    }
    match expr {
        GExpr::Var { idx: 0 } => Some(0),
        GExpr::App { func, arg } => {
            if is_var(func, 1) {
                match count_apps(arg) {
                    Some(k) => {
                        proof {
                            lemma_count_apps_depth(arg@);
                        }
                        Some(1 + k)
                    },
                    None => None,
                }
            } else {
                None
            }
        },
        _ => None,
    }
}

fn is_church(expr: &Expr) -> (r: Option<usize>)
    requires
        depth(expr@) <= usize::MAX,
    ensures
        r matches Some(k) ==> church_spec(expr@) == Some(k as nat),
        r is None ==> church_spec(expr@) is None,
{
    let body = match expr {
        GExpr::Lambda { param_ty, body: b1, name: n1 } => {
            assert(expr@ == Tm::Lam(n1@, Box::new(param_ty@), Box::new(b1@)));
            assert(depth(b1@) <= depth(expr@));
            if let GExpr::Type = &**param_ty {
                match &**b1 {
                    GExpr::Lambda { param_ty, body: b2, name: n2 } => {
                        assert(b1@ == Tm::Lam(n2@, Box::new(param_ty@), Box::new(b2@)));
                        assert(depth(b2@) <= depth(b1@));
                        match &**param_ty {
                            GExpr::Pi { param_ty: pty, ret_ty, name: n3 } => {
                                assert(param_ty@ == Tm::Pi(n3@, Box::new(pty@), Box::new(ret_ty@)));
                                if !(is_var(pty, 0) && is_var(ret_ty, 1)) {
                                    return None;
                                }
                            },
                            _ => return None,
                        }
                        match &**b2 {
                            GExpr::Lambda { body: b3, param_ty, name: n4 } => {
                                assert(b2@ == Tm::Lam(n4@, Box::new(param_ty@), Box::new(b3@)));
                                assert(depth(b3@) <= depth(b2@));
                                if !is_var(param_ty, 1) {
                                    return None;
                                }
                                b3
                            },
                            _ => return None,
                        }
                    },
                    _ => return None,
                }
            } else {
                return None;
            }
        },
        _ => return None,
    };
    count_apps(body)
}

// ---------------------------------------------------------------------------
// De Bruijn indexed expressions
// ---------------------------------------------------------------------------

/// The text of a variable: the name of its binder if that has one, `#i` otherwise.
pub open spec fn var_text(idx: usize, ctx: Seq<Seq<char>>) -> Seq<char> {
    if idx < ctx.len() && ctx[ctx.len() - 1 - idx].len() != 0 {
        ctx[ctx.len() - 1 - idx]
    } else {
        "#"@ + decimal(idx as nat)
    }
}

/// The text of an expression; `ctx` holds the names of the enclosing binders,
/// innermost last.
pub open spec fn print_spec(
    t: Term,
    prec: Prec,
    assoc: Option<Assoc>,
    is_right_child: bool,
    ctx: Seq<Seq<char>>,
) -> Seq<char>
    decreases t,
{
    if church_spec(t) is Some {
        decimal(church_spec(t).unwrap())
    } else {
        match t {
            Tm::Fail(_, _) => "err"@,
            Tm::Lit(b) => builtin_text(b),
            Tm::Var(idx) => var_text(idx, ctx),
            Tm::Type => "Type"@,
            Tm::App(func, arg) => parens_spec(
                print_spec(*func, Prec::APP, Some(Assoc::Left), false, ctx) + " "@ + print_spec(
                    *arg,
                    Prec::APP,
                    Some(Assoc::Left),
                    true,
                    ctx,
                ),
                Prec::APP,
                prec,
                assoc,
                is_right_child,
            ),
            Tm::Lam(name, param_ty, body) => {
                let p = print_spec(*param_ty, Prec::LAMBDA, Some(Assoc::Right), false, ctx);
                let b = print_spec(*body, Prec::LAMBDA, Some(Assoc::Right), true, ctx.push(name));
                let s = if name.len() != 0 {
                    "("@ + name + ": "@ + p + ") => "@ + b
                } else {
                    p + " => "@ + b
                };
                parens_spec(s, Prec::LAMBDA, prec, assoc, is_right_child)
            },
            Tm::Pi(name, param_ty, ret_ty) => {
                let p = print_spec(*param_ty, Prec::PI, Some(Assoc::Right), false, ctx);
                let r = print_spec(*ret_ty, Prec::PI, Some(Assoc::Right), true, ctx.push(name));
                let s = if name.len() != 0 {
                    "("@ + name + ": "@ + p + ") -> "@ + r
                } else {
                    p + " -> "@ + r
                };
                parens_spec(s, Prec::PI, prec, assoc, is_right_child)
            },
        }
    }
}

pub open spec fn names_view(ctx: Seq<String>) -> Seq<Seq<char>> {
    ctx.map_values(|s: String| s@)
}

fn print_var(idx: usize, ctx: &Vec<String>) -> (r: String)
    ensures
        r@ == var_text(idx, names_view(ctx@)),
{
    if idx < ctx.len() && !ctx[ctx.len() - 1 - idx].as_str().is_empty() {
        ctx[ctx.len() - 1 - idx].clone()
    } else {
        cat(owned("#"), usize_to_string(idx).as_str())
    }
}

fn print_go(
    code: &Expr,
    prec: Prec,
    assoc: Option<Assoc>,
    is_right_child: bool,
    ctx: &mut Vec<String>,
) -> (r: String)
    requires
        depth(code@) <= usize::MAX,
    ensures
        r@ == print_spec(code@, prec, assoc, is_right_child, names_view(old(ctx)@)),
        final(ctx)@ == old(ctx)@,
    decreases code,
{
    if let Some(n) = is_church(code) {
        return usize_to_string(n);
    }
    match code {
        GExpr::Error(..) => owned("err"),
        GExpr::Builtin(b) => print_builtin(b),
        GExpr::Var { idx } => print_var(*idx, ctx),
        GExpr::Type => owned("Type"),
        GExpr::App { func, arg } => {
            let f = print_go(func, Prec::APP, Some(Assoc::Left), false, ctx);
            let a = print_go(arg, Prec::APP, Some(Assoc::Left), true, ctx);
            maybe_parens(cat(cat(f, " "), a.as_str()), Prec::APP, prec, assoc, is_right_child)
        },
        GExpr::Lambda { name, param_ty, body } => {
            let p = print_go(param_ty, Prec::LAMBDA, Some(Assoc::Right), false, ctx);
            let ghost before = ctx@;
            ctx.push(name.clone());
            assert(names_view(ctx@) =~= names_view(before).push(name@));
            let b = print_go(body, Prec::LAMBDA, Some(Assoc::Right), true, ctx);
            ctx.pop();
            assert(ctx@ =~= before);
            let s = if !name.as_str().is_empty() {
                cat(cat(cat(cat(cat(owned("("), name.as_str()), ": "), p.as_str()), ") => "), b.as_str())
            } else {
                cat(cat(p, " => "), b.as_str())
            };
            maybe_parens(s, Prec::LAMBDA, prec, assoc, is_right_child)
        },
        GExpr::Pi { name, param_ty, ret_ty } => {
            let p = print_go(param_ty, Prec::PI, Some(Assoc::Right), false, ctx);
            let ghost before = ctx@;
            ctx.push(name.clone());
            assert(names_view(ctx@) =~= names_view(before).push(name@));
            let r = print_go(ret_ty, Prec::PI, Some(Assoc::Right), true, ctx);
            ctx.pop();
            assert(ctx@ =~= before);
            let s = if !name.as_str().is_empty() {
                cat(cat(cat(cat(cat(owned("("), name.as_str()), ": "), p.as_str()), ") -> "), r.as_str())
            } else {
                cat(cat(p, " -> "), r.as_str())
            };
            maybe_parens(s, Prec::PI, prec, assoc, is_right_child)
        },
    }
}

/// Prints an expression, showing Church numerals as numbers and variables by
/// the names of their binders where those have one.
pub fn print_expr(code: Expr) -> (r: String)
    requires
        depth(code@) <= usize::MAX,
    ensures
        r@ == print_spec(code@, Prec::LOWEST, None, false, Seq::empty()),
{
    let mut ctx: Vec<String> = Vec::new();
    assert(names_view(ctx@) =~= Seq::<Seq<char>>::empty());
    print_go(&code, Prec::LOWEST, None, false, &mut ctx)
}

proof fn lemma_count_apps_church_body(k: nat, env: ContextV, loc: Seq<usize>)
    ensures
        count_apps_spec(to_indices_spec(church_body(k), env, loc)) == Some(k),
    decreases k,
{
    if k > 0 {
        lemma_count_apps_church_body((k - 1) as nat, env, loc.push(1));
        assert(to_indices_spec(crate::desugar::ivar(1), env, loc.push(0)) == Tm::<usize, Seq<char>>::Var(1));
        assert(to_indices_spec(church_body(k), env, loc) == Tm::<usize, Seq<char>>::App(
            Box::new(Tm::Var(1)),
            Box::new(to_indices_spec(church_body((k - 1) as nat), env, loc.push(1))),
        ));
    }
}

/// A Church numeral, once its names are resolved (in any scope and at any
/// path), is recognised as the number it encodes and printed as that
/// number in decimal, wherever it stands.
pub proof fn lemma_church_prints_as_number(
    k: nat,
    env: ContextV,
    loc: Seq<usize>,
    prec: Prec,
    assoc: Option<Assoc>,
    is_right_child: bool,
    ctx: Seq<Seq<char>>,
)
    ensures
        church_spec(to_indices_spec(church(k), env, loc)) == Some(k),
        print_spec(to_indices_spec(church(k), env, loc), prec, assoc, is_right_child, ctx) == decimal(k),
{
    let e1 = env.push(VarKind::Idx(Seq::empty()));
    let e2 = e1.push(VarKind::Idx(Seq::empty()));
    let e3 = e2.push(VarKind::Idx(Seq::empty()));
    lemma_count_apps_church_body(k, e3, loc.push(2).push(2).push(2));
    reveal_with_fuel(to_indices_spec, 4);
}

/// An application that is the argument of another application is printed
/// in parentheses, since application groups to the left: the text of
/// `f (g x)` is the text of `f`, a space, and then a parenthesised text, so
/// that it cannot read back as `(f g) x`.
pub proof fn lemma_application_argument_in_parens(f: Term, g: Term, x: Term, ctx: Seq<Seq<char>>)
    ensures
        ({
            let t = Tm::App(Box::new(f), Box::new(Tm::App(Box::new(g), Box::new(x))));
            let s = print_spec(t, Prec::LOWEST, None, false, ctx);
            let fs = print_spec(f, Prec::APP, Some(Assoc::Left), false, ctx);
            &&& s.len() >= fs.len() + 3
            &&& s.subrange(0, fs.len() as int) == fs
            &&& s[fs.len() as int] == ' '
            &&& s[fs.len() + 1int] == '('
            &&& s[s.len() - 1] == ')'
        }),
{
    let inner = Tm::App(Box::new(g), Box::new(x));
    let t = Tm::App(Box::new(f), Box::new(inner));
    assert(church_spec(t) is None);
    assert(church_spec(inner) is None);
    let fs = print_spec(f, Prec::APP, Some(Assoc::Left), false, ctx);
    let is = print_spec(inner, Prec::APP, Some(Assoc::Left), true, ctx);
    let body = print_spec(g, Prec::APP, Some(Assoc::Left), false, ctx) + " "@ + print_spec(
        x,
        Prec::APP,
        Some(Assoc::Left),
        true,
        ctx,
    );
    assert(is == "("@ + body + ")"@);
    reveal_strlit("(");
    reveal_strlit(")");
    reveal_strlit(" ");
    let s = print_spec(t, Prec::LOWEST, None, false, ctx);
    assert(s == fs + " "@ + is);
    assert(s.subrange(0, fs.len() as int) =~= fs);
}

/// The same for named expressions: in `f (g x)` the argument application
/// is printed in parentheses after the text of `f` and a space.
pub proof fn lemma_named_application_argument_in_parens(f: NamedTerm, g: NamedTerm, x: NamedTerm)
    ensures
        ({
            let t = Tm::App(Box::new(f), Box::new(Tm::App(Box::new(g), Box::new(x))));
            let s = print_named_spec(t, Prec::LOWEST, None, false);
            let fs = print_named_spec(f, Prec::APP, Some(Assoc::Left), false);
            &&& s.len() >= fs.len() + 3
            &&& s.subrange(0, fs.len() as int) == fs
            &&& s[fs.len() as int] == ' '
            &&& s[fs.len() + 1int] == '('
            &&& s[s.len() - 1] == ')'
        }),
{
    let inner = Tm::App(Box::new(g), Box::new(x));
    let t = Tm::App(Box::new(f), Box::new(inner));
    let fs = print_named_spec(f, Prec::APP, Some(Assoc::Left), false);
    let is = print_named_spec(inner, Prec::APP, Some(Assoc::Left), true);
    let body = print_named_spec(g, Prec::APP, Some(Assoc::Left), false) + " "@ + print_named_spec(
        x,
        Prec::APP,
        Some(Assoc::Left),
        true,
    );
    assert(is == "("@ + body + ")"@);
    reveal_strlit("(");
    reveal_strlit(")");
    reveal_strlit(" ");
    let s = print_named_spec(t, Prec::LOWEST, None, false);
    assert(s == fs + " "@ + is);
    assert(s.subrange(0, fs.len() as int) =~= fs);
}

} // verus!
