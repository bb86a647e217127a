//! Name resolution: named variables to de Bruijn indices.
use vstd::prelude::*;

use crate::desugar::{loc_of, ltms_of, strip, LTm, SpannedNamedExpr, SpannedNamedNode};
use crate::expr::{Builtin, BuiltinV, 
    clone_builtin, clone_error, clone_path, clone_var_kind, lemma_tms_of_len, tms_of, Expr, ExprError, ExprErrorV,
    GExpr, NamedExpr, NamedTerm, Term, Tm, VarKind, to_named_tm,
};

verus! {

broadcast use vstd::std_specs::vec::group_vec_axioms;

/// The binders in scope, outermost first.
pub type Context = Vec<VarKind<String, String>>;

pub type ContextV = Seq<VarKind<Seq<char>, Seq<char>>>;

pub open spec fn ctx_v(ctx: Seq<VarKind<String, String>>) -> ContextV {
    ctx.map_values(|k: VarKind<String, String>| k@)
}

/// A variable that no binder in scope names.
#[derive(Debug, PartialEq, Eq)]
pub enum ResolveError<T> {
    ResolveFailed(String, T),
}

/// The number of binders between the innermost binder named `name` and the
/// end of `ctx`, scanning from the end.
pub open spec fn resolve_from(name: Seq<char>, ctx: ContextV, p: nat) -> Option<usize>
    decreases ctx.len() - p,
{
    if p >= ctx.len() {
        None
    } else if ctx[ctx.len() - 1 - p] == VarKind::<Seq<char>, Seq<char>>::Named(name) {
        Some(p as usize)
    } else {
        resolve_from(name, ctx, p + 1)
    }
}

/// The de Bruijn index of `name` in `ctx`: its distance from the innermost
/// binder, counting the binders named `name` from the innermost one only.
pub open spec fn resolve_spec(name: Seq<char>, ctx: ContextV) -> Option<usize> {
    resolve_from(name, ctx, 0)
}

/// The index of `name` in `ctx`, as `resolve_spec` says.
pub fn resolve(name: String, ctx: &mut Context) -> (r: Option<usize>)
    ensures
        r == resolve_spec(name@, ctx_v(old(ctx)@)),
        final(ctx)@ == old(ctx)@,
{
    let ghost cv = ctx_v(ctx@);
    let n = ctx.len();
    let mut p: usize = 0;
    while p < n
        invariant
            n == ctx@.len(),
            cv == ctx_v(ctx@),
            p <= n,
            resolve_spec(name@, cv) == resolve_from(name@, cv, p as nat),
        decreases n - p,
    {
        let hit = match &ctx[n - 1 - p] {
            VarKind::Named(s) => *s == name,
            VarKind::Idx(_) => false,
        };
        proof {
            assert(cv[n - 1 - p] == ctx@[n - 1 - p]@);
        }
        if hit {
            return Some(p);
        }
        p = p + 1;
    }
    None
}

/// The binder name that a resolved binder keeps as its name hint.
pub open spec fn hint(n: VarKind<Seq<char>, Seq<char>>) -> Seq<char> {
    match n {
        VarKind::Named(s) => s,
        VarKind::Idx(s) => s,
    }
}

/// `t` with every named variable replaced by its index in `env`; a name
/// that does not resolve becomes an error node recording the name, the path
/// `loc` of the variable and the binders in scope. Paths follow the
/// children: 0 and 1 for a function and its argument, 1 and 2 for the type
/// and the body of a binder, the position for the items of an error node.
pub open spec fn to_indices_spec(t: NamedTerm, env: ContextV, loc: Seq<usize>) -> Term
    decreases t,
{
    match t {
        Tm::Var(VarKind::Named(x)) => match resolve_spec(x, env) {
            Some(p) => Tm::Var(p),
            None => Tm::Fail(ExprErrorV::ResolveFailed(x, loc, env), Seq::empty()),
        },
        Tm::Var(VarKind::Idx(i)) => Tm::Var(i),
        Tm::App(f, a) => Tm::App(
            Box::new(to_indices_spec(*f, env, loc.push(0))),
            Box::new(to_indices_spec(*a, env, loc.push(1))),
        ),
        Tm::Lam(n, p, b) => Tm::Lam(
            hint(n),
            Box::new(to_indices_spec(*p, env, loc.push(1))),
            Box::new(to_indices_spec(*b, env.push(n), loc.push(2))),
        ),
        Tm::Pi(n, p, r) => Tm::Pi(
            hint(n),
            Box::new(to_indices_spec(*p, env, loc.push(1))),
            Box::new(to_indices_spec(*r, env.push(n), loc.push(2))),
        ),
        Tm::Type => Tm::Type,
        Tm::Lit(b) => Tm::Lit(b),
        Tm::Fail(e, ts) => Tm::Fail(
            e,
            Seq::new(ts.len(), |i: int| if 0 <= i < ts.len() { to_indices_spec(ts[i], env, loc.push(i as usize)) } else { Tm::Type }),
        ),
    }
}

fn clone_context(ctx: &Context) -> (r: Context)
    ensures
        ctx_v(r@) == ctx_v(ctx@),
{
    let mut r: Context = Vec::new();
    let mut i: usize = 0;
    while i < ctx.len()
        invariant
            i <= ctx@.len(),
            ctx_v(r@) == ctx_v(ctx@.take(i as int)),
        decreases ctx@.len() - i,
    {
        let k = clone_var_kind(&ctx[i]);
        let ghost before = r@;
        r.push(k);
        proof {
            assert(ctx_v(r@) =~= ctx_v(before).push(k@));
            assert(ctx_v(ctx@.take(i + 1)) =~= ctx_v(ctx@.take(i as int)).push(ctx@[i as int]@));
        }
        i = i + 1;
    }
    assert(ctx@.take(ctx@.len() as int) =~= ctx@);
    r
}

fn push_loc(loc: &Vec<usize>, k: usize) -> (r: Vec<usize>)
    ensures
        r@ == loc@.push(k),
{
    let mut r = clone_path(loc);
    r.push(k);
    r
}

#[verifier::loop_isolation(false)]
fn to_indices_go(expr: &NamedExpr, env: &mut Context, loc: &Vec<usize>) -> (r: Expr)
    ensures
        r@ == to_indices_spec(expr@, ctx_v(old(env)@), loc@),
        final(env)@ == old(env)@,
    decreases expr,
{
    match expr {
        GExpr::Var { idx: VarKind::Named(x) } => match resolve(x.clone(), env) {
            Some(p) => GExpr::Var { idx: p },
            None => {
                let items: Vec<Box<Expr>> = Vec::new();
                assert(tms_of(items@) =~= Seq::<Term>::empty());
                GExpr::Error(ExprError::ResolveFailed(x.clone(), clone_path(loc), clone_context(env)), items)
            },
        },
        GExpr::Var { idx: VarKind::Idx(i) } => GExpr::Var { idx: *i },
        GExpr::App { func, arg } => {
            let f = to_indices_go(func, env, &push_loc(loc, 0));
            let a = to_indices_go(arg, env, &push_loc(loc, 1));
            GExpr::App { func: Box::new(f), arg: Box::new(a) }
        },
        GExpr::Lambda { name, param_ty, body } => {
            let p = to_indices_go(param_ty, env, &push_loc(loc, 1));
            let ghost before = env@;
            env.push(clone_var_kind(name));
            proof {
                assert(ctx_v(env@) =~= ctx_v(before).push(name@));
            }
            let b = to_indices_go(body, env, &push_loc(loc, 2));
            env.pop();
            proof {
                assert(env@ =~= before);
            }
            let hint_name = match name {
                VarKind::Named(s) => s.clone(),
                VarKind::Idx(s) => s.clone(),
            };
            GExpr::Lambda { name: hint_name, param_ty: Box::new(p), body: Box::new(b) }
        },
        GExpr::Pi { name, param_ty, ret_ty } => {
            let p = to_indices_go(param_ty, env, &push_loc(loc, 1));
            let ghost before = env@;
            env.push(clone_var_kind(name));
            proof {
                assert(ctx_v(env@) =~= ctx_v(before).push(name@));
            }
            let r = to_indices_go(ret_ty, env, &push_loc(loc, 2));
            env.pop();
            proof {
                assert(env@ =~= before);
            }
            let hint_name = match name {
                VarKind::Named(s) => s.clone(),
                VarKind::Idx(s) => s.clone(),
            };
            GExpr::Pi { name: hint_name, param_ty: Box::new(p), ret_ty: Box::new(r) }
        },
        GExpr::Type => GExpr::Type,
        GExpr::Builtin(b) => GExpr::Builtin(clone_builtin(b)),
        GExpr::Error(err, items) => {
            let ghost ev = ctx_v(env@);
            let ghost ts = tms_of(items@);
            proof {
                lemma_tms_of_len(items@);
            }
            let mut out: Vec<Box<Expr>> = Vec::new();
            let mut i: usize = 0;
            while i < items.len()
                invariant
                    i <= items@.len(),
                    env@ == old(env)@,
                    ev == ctx_v(env@),
                    ts == tms_of(items@),
                    ts.len() == items@.len(),
                    forall|j: int| 0 <= j < items@.len() ==> #[trigger] ts[j] == (*items@[j])@,
                    out@.len() == i,
                    forall|j: int| 0 <= j < i ==> (*#[trigger] out@[j])@ == to_indices_spec(ts[j], ev, loc@.push(j as usize)),
                decreases items@.len() - i,
            {
                proof {
                    assert(decreases_to!(*expr => *items));
                    assert(decreases_to!(*items => items@));
                    assert(decreases_to!(items@ => items@[i as int]));
                }
                let y = to_indices_go(&items[i], env, &push_loc(loc, i));
                out.push(Box::new(y));
                i = i + 1;
            }
            proof {
                lemma_tms_of_len(out@);
                let st = match to_indices_spec(expr@, ev, loc@) { Tm::Fail(_, st) => st, _ => Seq::empty() };
                assert(st.len() == ts.len());
                assert(tms_of(out@) =~= st);
            }
            GExpr::Error(clone_error(err), out)
        },
    }
}

/// Replaces the named variables of an expression without paths by de
/// Bruijn indices, as `to_indices_spec` says, starting with no binder in
/// scope at the root.
pub fn to_indices_unspanned(expr: &NamedExpr) -> (r: Expr)
    ensures
        r@ == to_indices_spec(expr@, Seq::empty(), Seq::empty()),
{
    let mut env: Context = Vec::new();
    let loc: Vec<usize> = Vec::new();
    proof {
        assert(ctx_v(env@) =~= Seq::<VarKind<Seq<char>, Seq<char>>>::empty());
    }
    to_indices_go(expr, &mut env, &loc)
}

/// The name resolution pass. Names that do not resolve become error nodes
/// inside the result, so the pass itself always succeeds.
pub struct NameResolver;

impl NameResolver {
    pub fn run(input: NamedExpr) -> (r: Result<Expr, ResolveError<(Vec<usize>, Context)>>)
        ensures
            r matches Ok(e) && e@ == to_indices_spec(input@, Seq::empty(), Seq::empty()),
    {
        Ok(to_indices_unspanned(&input))
    }
}

/// Resolving the names of an expression that `to_named` produced gives the
/// expression back, in every scope and at every path: its variables are all
/// indices already and its binders keep their name hints.
pub proof fn lemma_to_indices_of_to_named(t: Term, env: ContextV, loc: Seq<usize>)
    ensures
        to_indices_spec(to_named_tm(t), env, loc) == t,
    decreases t,
{
    match t {
        Tm::App(f, a) => {
            lemma_to_indices_of_to_named(*f, env, loc.push(0));
            lemma_to_indices_of_to_named(*a, env, loc.push(1));
        },
        Tm::Lam(n, p, b) => {
            lemma_to_indices_of_to_named(*p, env, loc.push(1));
            lemma_to_indices_of_to_named(*b, env.push(VarKind::Idx(n)), loc.push(2));
        },
        Tm::Pi(n, p, r) => {
            lemma_to_indices_of_to_named(*p, env, loc.push(1));
            lemma_to_indices_of_to_named(*r, env.push(VarKind::Idx(n)), loc.push(2));
        },
        Tm::Fail(e, ts) => {
            let named = to_named_tm(t)->Fail_1;
            assert(named.len() == ts.len());
            assert forall|i: int| 0 <= i < ts.len() implies to_indices_spec(named[i], env, loc.push(i as usize)) == ts[i] by {
                lemma_to_indices_of_to_named(ts[i], env, loc.push(i as usize));
            }
            let back = to_indices_spec(to_named_tm(t), env, loc)->Fail_1;
            assert(back =~= ts);
        },
        _ => {},
    }
}

/// A core expression in which every node carries the surface path it was
/// made from.
#[derive(Debug, PartialEq, Eq)]
pub struct SpannedExpr(pub SpannedNode, pub Vec<usize>);

/// One node of a [`SpannedExpr`]; the variants are those of [`GExpr`] over
/// de Bruijn indices, with a name hint on binders and the path the name
/// was written at.
#[derive(Debug, PartialEq, Eq)]
pub enum SpannedNode {
    Var { idx: usize },
    App { func: Box<SpannedExpr>, arg: Box<SpannedExpr> },
    Lambda { name: (String, Vec<usize>), param_ty: Box<SpannedExpr>, body: Box<SpannedExpr> },
    Pi { name: (String, Vec<usize>), param_ty: Box<SpannedExpr>, ret_ty: Box<SpannedExpr> },
    Type,
    Builtin(Builtin),
    Error(ExprError<Vec<usize>>, Vec<Box<SpannedExpr>>),
}

/// A core term whose nodes carry a path.
pub enum CTm {
    Var(usize, Seq<usize>),
    App(Box<CTm>, Box<CTm>, Seq<usize>),
    Lam((Seq<char>, Seq<usize>), Box<CTm>, Box<CTm>, Seq<usize>),
    Pi((Seq<char>, Seq<usize>), Box<CTm>, Box<CTm>, Seq<usize>),
    Type(Seq<usize>),
    Lit(BuiltinV, Seq<usize>),
    Fail(ExprErrorV, Seq<CTm>, Seq<usize>),
}

pub open spec fn ctm_of(e: SpannedExpr) -> CTm
    decreases e, 1nat,
{
    let loc = e.1@;
    match e.0 {
        SpannedNode::Var { idx } => CTm::Var(idx, loc),
        SpannedNode::App { func, arg } => CTm::App(Box::new(ctm_of(*func)), Box::new(ctm_of(*arg)), loc),
        SpannedNode::Lambda { name, param_ty, body } => CTm::Lam((name.0@, name.1@), Box::new(ctm_of(*param_ty)), Box::new(ctm_of(*body)), loc),
        SpannedNode::Pi { name, param_ty, ret_ty } => CTm::Pi((name.0@, name.1@), Box::new(ctm_of(*param_ty)), Box::new(ctm_of(*ret_ty)), loc),
        SpannedNode::Type => CTm::Type(loc),
        SpannedNode::Builtin(b) => CTm::Lit(b@, loc),
        SpannedNode::Error(err, items) => CTm::Fail(err@, ctms_of(items@), loc),
    }
}

pub open spec fn ctms_of(s: Seq<Box<SpannedExpr>>) -> Seq<CTm>
    decreases s, 0nat,
{
    Seq::new(s.len(), |i: int| if 0 <= i < s.len() { ctm_of(*s[i]) } else { CTm::Type(Seq::empty()) })
}

impl View for SpannedExpr {
    type V = CTm;

    open spec fn view(&self) -> CTm {
        ctm_of(*self)
    }
}

/// The path recorded at the root of a spanned core term.
pub open spec fn cloc_of(t: CTm) -> Seq<usize> {
    match t {
        CTm::Var(_, l) => l,
        CTm::App(_, _, l) => l,
        CTm::Lam(_, _, _, l) => l,
        CTm::Pi(_, _, _, l) => l,
        CTm::Type(l) => l,
        CTm::Lit(_, l) => l,
        CTm::Fail(_, _, l) => l,
    }
}

/// The spanned core term without its paths.
pub open spec fn cstrip(t: CTm) -> Term
    decreases t,
{
    match t {
        CTm::Var(i, _) => Tm::Var(i),
        CTm::App(f, a, _) => Tm::App(Box::new(cstrip(*f)), Box::new(cstrip(*a))),
        CTm::Lam(n, p, b, _) => Tm::Lam(n.0, Box::new(cstrip(*p)), Box::new(cstrip(*b))),
        CTm::Pi(n, p, r, _) => Tm::Pi(n.0, Box::new(cstrip(*p)), Box::new(cstrip(*r))),
        CTm::Type(_) => Tm::Type,
        CTm::Lit(b, _) => Tm::Lit(b),
        CTm::Fail(e, ts, _) => Tm::Fail(e, Seq::new(ts.len(), |i: int| if 0 <= i < ts.len() { cstrip(ts[i]) } else { Tm::Type })),
    }
}

/// `to_indices_spec` on a term whose nodes carry paths: every node keeps the
/// path of the node it was made from, every binder name the path it was
/// written at, and a name that does not resolve becomes an error node,
/// without items, at the path of the variable.
pub open spec fn to_indices_sp(t: LTm, env: ContextV, loc: Seq<usize>) -> CTm
    decreases t,
{
    match t {
        LTm::Var(VarKind::Named(x), l) => match resolve_spec(x, env) {
            Some(p) => CTm::Var(p, l),
            None => CTm::Fail(ExprErrorV::ResolveFailed(x, loc, env), Seq::empty(), l),
        },
        LTm::Var(VarKind::Idx(i), l) => CTm::Var(i, l),
        LTm::App(f, a, l) => CTm::App(
            Box::new(to_indices_sp(*f, env, loc.push(0))),
            Box::new(to_indices_sp(*a, env, loc.push(1))),
            l,
        ),
        LTm::Lam(n, p, b, l) => CTm::Lam(
            (hint(n.0), n.1),
            Box::new(to_indices_sp(*p, env, loc.push(1))),
            Box::new(to_indices_sp(*b, env.push(n.0), loc.push(2))),
            l,
        ),
        LTm::Pi(n, p, r, l) => CTm::Pi(
            (hint(n.0), n.1),
            Box::new(to_indices_sp(*p, env, loc.push(1))),
            Box::new(to_indices_sp(*r, env.push(n.0), loc.push(2))),
            l,
        ),
        LTm::Type(l) => CTm::Type(l),
        LTm::Lit(b, l) => CTm::Lit(b, l),
        LTm::Fail(e, ts, l) => CTm::Fail(
            e,
            Seq::new(ts.len(), |i: int| if 0 <= i < ts.len() { to_indices_sp(ts[i], env, loc.push(i as usize)) } else { CTm::Type(Seq::empty()) }),
            l,
        ),
    }
}

#[verifier::loop_isolation(false)]
fn to_indices_sp_go(expr: &SpannedNamedExpr, env: &mut Context, loc: &Vec<usize>) -> (r: SpannedExpr)
    ensures
        r@ == to_indices_sp(expr@, ctx_v(old(env)@), loc@),
        final(env)@ == old(env)@,
    decreases expr,
{
    let span = clone_path(&expr.1);
    let node = match &expr.0 {
        SpannedNamedNode::Var { idx: VarKind::Named(x) } => match resolve(x.clone(), env) {
            Some(p) => SpannedNode::Var { idx: p },
            None => {
                let items: Vec<Box<SpannedExpr>> = Vec::new();
                assert(ctms_of(items@) =~= Seq::<CTm>::empty());
                SpannedNode::Error(ExprError::ResolveFailed(x.clone(), clone_path(loc), clone_context(env)), items)
            },
        },
        SpannedNamedNode::Var { idx: VarKind::Idx(i) } => SpannedNode::Var { idx: *i },
        SpannedNamedNode::App { func, arg } => {
            let f = to_indices_sp_go(func, env, &push_loc(loc, 0));
            let a = to_indices_sp_go(arg, env, &push_loc(loc, 1));
            SpannedNode::App { func: Box::new(f), arg: Box::new(a) }
        },
        SpannedNamedNode::Lambda { name, param_ty, body } => {
            let p = to_indices_sp_go(param_ty, env, &push_loc(loc, 1));
            let ghost before = env@;
            env.push(clone_var_kind(&name.0));
            proof {
                assert(ctx_v(env@) =~= ctx_v(before).push(name.0@));
            }
            let b = to_indices_sp_go(body, env, &push_loc(loc, 2));
            env.pop();
            proof {
                assert(env@ =~= before);
            }
            let hint_name = match &name.0 {
                VarKind::Named(s) => s.clone(),
                VarKind::Idx(s) => s.clone(),
            };
            SpannedNode::Lambda { name: (hint_name, clone_path(&name.1)), param_ty: Box::new(p), body: Box::new(b) }
        },
        SpannedNamedNode::Pi { name, param_ty, ret_ty } => {
            let p = to_indices_sp_go(param_ty, env, &push_loc(loc, 1));
            let ghost before = env@;
            env.push(clone_var_kind(&name.0));
            proof {
                assert(ctx_v(env@) =~= ctx_v(before).push(name.0@));
            }
            let r = to_indices_sp_go(ret_ty, env, &push_loc(loc, 2));
            env.pop();
            proof {
                assert(env@ =~= before);
            }
            let hint_name = match &name.0 {
                VarKind::Named(s) => s.clone(),
                VarKind::Idx(s) => s.clone(),
            };
            SpannedNode::Pi { name: (hint_name, clone_path(&name.1)), param_ty: Box::new(p), ret_ty: Box::new(r) }
        },
        SpannedNamedNode::Type => SpannedNode::Type,
        SpannedNamedNode::Builtin(b) => SpannedNode::Builtin(clone_builtin(b)),
        SpannedNamedNode::Error(err, items) => {
            let ghost ev = ctx_v(env@);
            let ghost ts = ltms_of(items@);
            let mut out: Vec<Box<SpannedExpr>> = Vec::new();
            let mut i: usize = 0;
            while i < items.len()
                invariant
                    i <= items@.len(),
                    env@ == old(env)@,
                    ev == ctx_v(env@),
                    ts == ltms_of(items@),
                    out@.len() == i,
                    forall|j: int| 0 <= j < i ==> (*#[trigger] out@[j])@ == to_indices_sp(ts[j], ev, loc@.push(j as usize)),
                decreases items@.len() - i,
            {
                proof {
                    assert(decreases_to!(*expr => expr.0));
                    assert(decreases_to!(expr.0 => *items));
                    assert(decreases_to!(*items => items@));
                    assert(decreases_to!(items@ => items@[i as int]));
                    assert(ts[i as int] == (*items@[i as int])@);
                }
                let y = to_indices_sp_go(&items[i], env, &push_loc(loc, i));
                out.push(Box::new(y));
                i = i + 1;
            }
            proof {
                let st = match to_indices_sp(expr@, ev, loc@) { CTm::Fail(_, st, _) => st, _ => Seq::empty() };
                assert(st.len() == ts.len());
                assert(ctms_of(out@) =~= st);
            }
            SpannedNode::Error(clone_error(err), out)
        },
    };
    SpannedExpr(node, span)
}

/// Replaces the named variables of `expr` by de Bruijn indices, as
/// `to_indices_sp` says, starting with no binder in scope at the root:
/// every node and every binder name keeps its path.
pub fn to_indices(expr: SpannedNamedExpr) -> (r: SpannedExpr)
    ensures
        r@ == to_indices_sp(expr@, Seq::empty(), Seq::empty()),
{
    let mut env: Context = Vec::new();
    let loc: Vec<usize> = Vec::new();
    proof {
        assert(ctx_v(env@) =~= Seq::<VarKind<Seq<char>, Seq<char>>>::empty());
    }
    to_indices_sp_go(&expr, &mut env, &loc)
}

/// Resolving names on a term with paths and then dropping the paths is
/// resolving names on the term without paths; every node of the result
/// keeps the path of the node it was made from.
pub proof fn lemma_to_indices_keeps_paths(t: LTm, env: ContextV, loc: Seq<usize>)
    ensures
        cstrip(to_indices_sp(t, env, loc)) == to_indices_spec(strip(t), env, loc),
        cloc_of(to_indices_sp(t, env, loc)) == loc_of(t),
    decreases t,
{
    match t {
        LTm::Var(VarKind::Named(x), _) => {
            if resolve_spec(x, env) is None {
                let lhs = cstrip(to_indices_sp(t, env, loc))->Fail_1;
                assert(lhs =~= Seq::<Term>::empty());
            }
        },
        LTm::App(f, a, _) => {
            lemma_to_indices_keeps_paths(*f, env, loc.push(0));
            lemma_to_indices_keeps_paths(*a, env, loc.push(1));
        },
        LTm::Lam(n, p, b, _) | LTm::Pi(n, p, b, _) => {
            lemma_to_indices_keeps_paths(*p, env, loc.push(1));
            lemma_to_indices_keeps_paths(*b, env.push(n.0), loc.push(2));
        },
        LTm::Fail(e, ts, _) => {
            let sp = to_indices_sp(t, env, loc)->Fail_1;
            let st = strip(t)->Fail_1;
            assert(st.len() == ts.len());
            assert forall|i: int| 0 <= i < ts.len() implies cstrip(sp[i]) == to_indices_spec(st[i], env, loc.push(i as usize)) by {
                assert(st[i] == strip(ts[i]));
                lemma_to_indices_keeps_paths(ts[i], env, loc.push(i as usize));
            }
            let lhs = cstrip(to_indices_sp(t, env, loc))->Fail_1;
            let rhs = to_indices_spec(strip(t), env, loc)->Fail_1;
            assert(lhs =~= rhs);
        },
        _ => {},
    }
}

} // verus!
