//! The surface syntax tree produced by the parser.
use vstd::prelude::*;

use crate::tokens::{AbsoluteIndent, ValidToken, ValidTokenV, clone_token};

verus! {

broadcast use vstd::std_specs::vec::group_vec_axioms;

/// Literals of the surface syntax; a number is kept as its digits.
#[derive(Debug, Clone, PartialEq, Eq)]
pub enum LitKind {
    String(String),
    Number(String),
}

/// What the parser could not make sense of.
#[derive(Debug, Clone, PartialEq, Eq)]
pub enum AstError {
    InvalidExpr(Vec<ValidToken<AbsoluteIndent>>),
    Unknown,
    InvalidToken(ValidToken<AbsoluteIndent>),
}

/// A surface expression. The variants with a list are the operators of the
/// language, each holding its operands in order: `App` (juxtaposition),
/// `Dot` (`.`), `Ann` (`:`), `Binding` (`:=`), `Lambda` (`=>`), `Pi` (`->`),
/// `Tuple` (`,`), `Sigma` (`;`), `Pipe` (`|>`).
#[derive(Debug, PartialEq, Eq)]
pub enum FixAst {
    Var(String),
    App(Vec<FixAst>),
    Type,
    Unit,
    Lit(LitKind),
    Dot(Vec<FixAst>),
    Ann(Vec<FixAst>),
    Binding(Vec<FixAst>),
    Group(Box<FixAst>),
    Lambda(Vec<FixAst>),
    Pi(Vec<FixAst>),
    Tuple(Vec<FixAst>),
    Sigma(Vec<FixAst>),
    Pipe(Vec<FixAst>),
    Error(AstError, Vec<FixAst>),
}

/// A surface expression where every node carries the range of tokens
/// (first and last, both included) that it was parsed from. The variants
/// mirror those of [`FixAst`].
#[derive(Debug, PartialEq, Eq)]
pub enum SpannedAst {
    Var(String),
    App(Vec<SpannedFixAst>),
    Type,
    Unit,
    Lit(LitKind),
    Dot(Vec<SpannedFixAst>),
    Ann(Vec<SpannedFixAst>),
    Binding(Vec<SpannedFixAst>),
    Group(Box<SpannedFixAst>),
    Lambda(Vec<SpannedFixAst>),
    Pi(Vec<SpannedFixAst>),
    Tuple(Vec<SpannedFixAst>),
    Sigma(Vec<SpannedFixAst>),
    Pipe(Vec<SpannedFixAst>),
    Error(AstError, Vec<SpannedFixAst>),
}

/// A node with the token range it was parsed from.
#[derive(Debug, PartialEq, Eq)]
pub struct SpannedFixAst(pub SpannedAst, pub (usize, usize));

// ---------------------------------------------------------------------------
// Model: a node is its kind and the list of its children.
// ---------------------------------------------------------------------------

pub enum LitV {
    String(Seq<char>),
    Number(Seq<char>),
}

pub enum AstErrorV {
    InvalidExpr(Seq<ValidTokenV<AbsoluteIndent>>),
    Unknown,
    InvalidToken(ValidTokenV<AbsoluteIndent>),
}

/// The kind of a node, without its children.
pub enum AstKind {
    Var(Seq<char>),
    App,
    Type,
    Unit,
    Lit(LitV),
    Dot,
    Ann,
    Binding,
    Group,
    Lambda,
    Pi,
    Tuple,
    Sigma,
    Pipe,
    Error(AstErrorV),
}

/// A node of a surface expression: its kind and its children.
pub struct AstV {
    pub kind: AstKind,
    pub items: Seq<AstV>,
}

/// A node with the token range it was parsed from.
pub struct SAstV {
    pub kind: AstKind,
    pub items: Seq<SAstV>,
    pub start: int,
    pub end: int,
}

impl View for LitKind {
    type V = LitV;

    open spec fn view(&self) -> LitV {
        match self {
            LitKind::String(s) => LitV::String(s@),
            LitKind::Number(s) => LitV::Number(s@),
        }
    }
}

impl View for AstError {
    type V = AstErrorV;

    open spec fn view(&self) -> AstErrorV {
        match self {
            AstError::InvalidExpr(ts) => AstErrorV::InvalidExpr(ts@.map_values(|t: ValidToken<AbsoluteIndent>| t@)),
            AstError::Unknown => AstErrorV::Unknown,
            AstError::InvalidToken(t) => AstErrorV::InvalidToken(t@),
        }
    }
}

pub open spec fn ast_v(a: FixAst) -> AstV
    decreases a, 1nat,
{
    match a {
        FixAst::Var(s) => AstV { kind: AstKind::Var(s@), items: Seq::empty() },
        FixAst::App(v) => AstV { kind: AstKind::App, items: asts_v(v@) },
        FixAst::Type => AstV { kind: AstKind::Type, items: Seq::empty() },
        FixAst::Unit => AstV { kind: AstKind::Unit, items: Seq::empty() },
        FixAst::Lit(l) => AstV { kind: AstKind::Lit(l@), items: Seq::empty() },
        FixAst::Dot(v) => AstV { kind: AstKind::Dot, items: asts_v(v@) },
        FixAst::Ann(v) => AstV { kind: AstKind::Ann, items: asts_v(v@) },
        FixAst::Binding(v) => AstV { kind: AstKind::Binding, items: asts_v(v@) },
        FixAst::Group(b) => AstV { kind: AstKind::Group, items: seq![ast_v(*b)] },
        FixAst::Lambda(v) => AstV { kind: AstKind::Lambda, items: asts_v(v@) },
        FixAst::Pi(v) => AstV { kind: AstKind::Pi, items: asts_v(v@) },
        FixAst::Tuple(v) => AstV { kind: AstKind::Tuple, items: asts_v(v@) },
        FixAst::Sigma(v) => AstV { kind: AstKind::Sigma, items: asts_v(v@) },
        FixAst::Pipe(v) => AstV { kind: AstKind::Pipe, items: asts_v(v@) },
        FixAst::Error(e, v) => AstV { kind: AstKind::Error(e@), items: asts_v(v@) },
    }
}

pub open spec fn asts_v(s: Seq<FixAst>) -> Seq<AstV>
    decreases s, 0nat,
{
    Seq::new(s.len(), |i: int| if 0 <= i < s.len() { ast_v(s[i]) } else { AstV { kind: AstKind::Unit, items: Seq::empty() } })
}

pub open spec fn sast_v(a: SpannedFixAst) -> SAstV
    decreases a, 1nat,
{
    let (start, end) = (a.1.0 as int, a.1.1 as int);
    match a.0 {
        SpannedAst::Var(s) => SAstV { kind: AstKind::Var(s@), items: Seq::empty(), start, end },
        SpannedAst::App(v) => SAstV { kind: AstKind::App, items: sasts_v(v@), start, end },
        SpannedAst::Type => SAstV { kind: AstKind::Type, items: Seq::empty(), start, end },
        SpannedAst::Unit => SAstV { kind: AstKind::Unit, items: Seq::empty(), start, end },
        SpannedAst::Lit(l) => SAstV { kind: AstKind::Lit(l@), items: Seq::empty(), start, end },
        SpannedAst::Dot(v) => SAstV { kind: AstKind::Dot, items: sasts_v(v@), start, end },
        SpannedAst::Ann(v) => SAstV { kind: AstKind::Ann, items: sasts_v(v@), start, end },
        SpannedAst::Binding(v) => SAstV { kind: AstKind::Binding, items: sasts_v(v@), start, end },
        SpannedAst::Group(b) => SAstV { kind: AstKind::Group, items: seq![sast_v(*b)], start, end },
        SpannedAst::Lambda(v) => SAstV { kind: AstKind::Lambda, items: sasts_v(v@), start, end },
        SpannedAst::Pi(v) => SAstV { kind: AstKind::Pi, items: sasts_v(v@), start, end },
        SpannedAst::Tuple(v) => SAstV { kind: AstKind::Tuple, items: sasts_v(v@), start, end },
        SpannedAst::Sigma(v) => SAstV { kind: AstKind::Sigma, items: sasts_v(v@), start, end },
        SpannedAst::Pipe(v) => SAstV { kind: AstKind::Pipe, items: sasts_v(v@), start, end },
        SpannedAst::Error(e, v) => SAstV { kind: AstKind::Error(e@), items: sasts_v(v@), start, end },
    }
}

pub open spec fn sasts_v(s: Seq<SpannedFixAst>) -> Seq<SAstV>
    decreases s, 0nat,
{
    Seq::new(s.len(), |i: int| if 0 <= i < s.len() { sast_v(s[i]) } else { SAstV { kind: AstKind::Unit, items: Seq::empty(), start: 0, end: 0 } })
}

impl View for FixAst {
    type V = AstV;

    open spec fn view(&self) -> AstV {
        ast_v(*self)
    }
}

impl View for SpannedFixAst {
    type V = SAstV;

    open spec fn view(&self) -> SAstV {
        sast_v(*self)
    }
}

/// A node without its token ranges.
pub open spec fn unspan(a: SAstV) -> AstV
    decreases a,
{
    AstV { kind: a.kind, items: Seq::new(a.items.len(), |i: int| if 0 <= i < a.items.len() { unspan(a.items[i]) } else { AstV { kind: AstKind::Unit, items: Seq::empty() } }) }
}

#[verifier::loop_isolation(false)]
fn unspan_all(v: Vec<SpannedFixAst>) -> (r: Vec<FixAst>)
    ensures
        asts_v(r@) == Seq::new(v@.len(), |i: int| unspan(sasts_v(v@)[i])),
    decreases v@, 0nat,
{
    let ghost orig = v@;
    let mut items = v;
    let mut rev: Vec<SpannedFixAst> = Vec::new();
    while items.len() > 0
        invariant
            orig == items@ + rev@.reverse(),
        decreases items@.len(),
    {
        let x = items.pop().unwrap();
        proof {
            assert(items@.push(x) + rev@.reverse() =~= items@ + rev@.push(x).reverse());
        }
        rev.push(x);
    }
    assert(rev@.reverse() =~= orig);
    let n = rev.len();
    let mut out: Vec<FixAst> = Vec::new();
    while rev.len() > 0
        invariant
            n == orig.len(),
            rev@.len() + out@.len() == n,
            forall|k: int| 0 <= k < rev@.len() ==> #[trigger] rev@[k] == orig[n - 1 - k],
            forall|i: int| 0 <= i < out@.len() ==> (#[trigger] out@[i])@ == unspan(orig[i]@),
        decreases rev@.len(),
    {
        let ghost i = out@.len();
        let x = rev.pop().unwrap();
        proof {
            assert(x == orig[i as int]);
            assert(decreases_to!(orig => orig[i as int]));
        }
        out.push(x.remove_span());
    }
    assert(asts_v(out@) =~= Seq::new(orig.len(), |i: int| unspan(sasts_v(orig)[i])));
    out
}

impl SpannedFixAst {
    /// The expression without its token ranges.
    pub fn remove_span(self) -> (r: FixAst)
        ensures
            r@ == unspan(self@),
        decreases self, 1nat,
    {
        let ghost sv = self@;
        let SpannedFixAst(node, _) = self;
        let r = match node {
            SpannedAst::Var(s) => FixAst::Var(s),
            SpannedAst::App(v) => FixAst::App(unspan_all(v)),
            SpannedAst::Type => FixAst::Type,
            SpannedAst::Unit => FixAst::Unit,
            SpannedAst::Lit(l) => FixAst::Lit(l),
            SpannedAst::Dot(v) => FixAst::Dot(unspan_all(v)),
            SpannedAst::Ann(v) => FixAst::Ann(unspan_all(v)),
            SpannedAst::Binding(v) => FixAst::Binding(unspan_all(v)),
            SpannedAst::Group(b) => FixAst::Group(Box::new((*b).remove_span())),
            SpannedAst::Lambda(v) => FixAst::Lambda(unspan_all(v)),
            SpannedAst::Pi(v) => FixAst::Pi(unspan_all(v)),
            SpannedAst::Tuple(v) => FixAst::Tuple(unspan_all(v)),
            SpannedAst::Sigma(v) => FixAst::Sigma(unspan_all(v)),
            SpannedAst::Pipe(v) => FixAst::Pipe(unspan_all(v)),
            SpannedAst::Error(e, v) => FixAst::Error(e, unspan_all(v)),
        };
        proof {
            assert(r@.items =~= unspan(sv).items);
        }
        r
    }
}

fn clone_lit(l: &LitKind) -> (r: LitKind)
    ensures
        r@ == l@,
{
    match l {
        LitKind::String(s) => LitKind::String(s.clone()),
        LitKind::Number(s) => LitKind::Number(s.clone()),
    }
}

fn clone_ast_error(e: &AstError) -> (r: AstError)
    ensures
        r@ == e@,
{
    match e {
        AstError::InvalidExpr(ts) => {
            let mut v: Vec<ValidToken<AbsoluteIndent>> = Vec::new();
            let mut i: usize = 0;
            while i < ts.len()
                invariant
                    i <= ts@.len(),
                    v@.map_values(|t: ValidToken<AbsoluteIndent>| t@) == ts@.take(i as int).map_values(|t: ValidToken<AbsoluteIndent>| t@),
                decreases ts@.len() - i,
            {
                let c = clone_token(&ts[i]);
                let ghost before = v@;
                v.push(c);
                proof {
                    assert(v@ == before.push(c));
                    assert(ts@.take(i + 1) =~= ts@.take(i as int).push(ts@[i as int]));
                    assert(v@.map_values(|t: ValidToken<AbsoluteIndent>| t@) =~= before.map_values(|t: ValidToken<AbsoluteIndent>| t@).push(c@));
                    assert(ts@.take(i + 1).map_values(|t: ValidToken<AbsoluteIndent>| t@) =~= ts@.take(i as int).map_values(|t: ValidToken<AbsoluteIndent>| t@).push(ts@[i as int]@));
                }
                i = i + 1;
            }
            assert(ts@.take(ts@.len() as int) =~= ts@);
            AstError::InvalidExpr(v)
        },
        AstError::Unknown => AstError::Unknown,
        AstError::InvalidToken(t) => AstError::InvalidToken(clone_token(t)),
    }
}

#[verifier::loop_isolation(false)]
fn clone_sasts(v: &Vec<SpannedFixAst>) -> (r: Vec<SpannedFixAst>)
    ensures
        sasts_v(r@) == sasts_v(v@),
    decreases v@, 0nat,
{
    let mut out: Vec<SpannedFixAst> = Vec::new();
    let mut i: usize = 0;
    while i < v.len()
        invariant
            i <= v@.len(),
            out@.len() == i,
            forall|j: int| 0 <= j < i ==> (#[trigger] out@[j])@ == v@[j]@,
        decreases v@.len() - i,
    {
        proof {
            assert(decreases_to!(v@ => v@[i as int]));
        }
        out.push(clone_sast(&v[i]));
        i = i + 1;
    }
    assert(sasts_v(out@) =~= sasts_v(v@));
    out
}

/// Copies a node with its token ranges.
pub fn clone_sast(a: &SpannedFixAst) -> (r: SpannedFixAst)
    ensures
        r@ == a@,
    decreases a, 1nat,
{
    let node = match &a.0 {
        SpannedAst::Var(s) => SpannedAst::Var(s.clone()),
        SpannedAst::App(v) => SpannedAst::App(clone_sasts(v)),
        SpannedAst::Type => SpannedAst::Type,
        SpannedAst::Unit => SpannedAst::Unit,
        SpannedAst::Lit(l) => SpannedAst::Lit(clone_lit(l)),
        SpannedAst::Dot(v) => SpannedAst::Dot(clone_sasts(v)),
        SpannedAst::Ann(v) => SpannedAst::Ann(clone_sasts(v)),
        SpannedAst::Binding(v) => SpannedAst::Binding(clone_sasts(v)),
        SpannedAst::Group(b) => SpannedAst::Group(Box::new(clone_sast(b))),
        SpannedAst::Lambda(v) => SpannedAst::Lambda(clone_sasts(v)),
        SpannedAst::Pi(v) => SpannedAst::Pi(clone_sasts(v)),
        SpannedAst::Tuple(v) => SpannedAst::Tuple(clone_sasts(v)),
        SpannedAst::Sigma(v) => SpannedAst::Sigma(clone_sasts(v)),
        SpannedAst::Pipe(v) => SpannedAst::Pipe(clone_sasts(v)),
        SpannedAst::Error(e, v) => SpannedAst::Error(clone_ast_error(e), clone_sasts(v)),
    };
    SpannedFixAst(node, a.1)
}

/// The children of a node, in order.
pub open spec fn sast_children(a: SpannedAst) -> Seq<SpannedFixAst> {
    match a {
        SpannedAst::Group(b) => seq![*b],
        SpannedAst::App(v) | SpannedAst::Dot(v) | SpannedAst::Ann(v) | SpannedAst::Binding(v) | SpannedAst::Lambda(v)
        | SpannedAst::Pi(v) | SpannedAst::Tuple(v) | SpannedAst::Sigma(v) | SpannedAst::Pipe(v) | SpannedAst::Error(_, v) => v@,
        _ => Seq::empty(),
    }
}

impl SpannedAst {
    /// Folds `f` over the children of the node, from the first.
    pub fn fold<U, F: Fn(U, SpannedFixAst) -> U>(self, init: U, f: F) -> (r: U)
        requires
            forall|u: U, t: SpannedFixAst| call_requires(f, (u, t)),
        ensures
            crate::expr::folds_to(f, init, sast_children(self), r),
    {
        let ghost cs = sast_children(self);
        let items: Vec<SpannedFixAst> = match self {
            SpannedAst::Group(b) => {
                let v = vec![*b];
                assert(v@ =~= cs);
                v
            },
            SpannedAst::App(v) | SpannedAst::Dot(v) | SpannedAst::Ann(v) | SpannedAst::Binding(v) | SpannedAst::Lambda(v)
            | SpannedAst::Pi(v) | SpannedAst::Tuple(v) | SpannedAst::Sigma(v) | SpannedAst::Pipe(v) | SpannedAst::Error(_, v) => v,
            _ => {
                let v: Vec<SpannedFixAst> = Vec::new();
                assert(v@ =~= cs);
                v
            },
        };
        crate::expr::fold_items(items, init, f)
    }
}

} // verus!
