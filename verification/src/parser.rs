//! The parser. Tokens are first grouped by parentheses into token trees;
//! each level of the grammar then splits a list of trees at its operator,
//! from the loosest to the tightest: `:=`, `:`, `=>`, `->`, `|>`, `;`, `,`,
//! then `.` chains and juxtaposition.
use vstd::prelude::*;

use crate::ast::{AstError, AstErrorV, AstKind, LitKind, LitV, SAstV, SpannedAst, SpannedFixAst, sast_v, sasts_v};
use crate::tokens::{AbsoluteIndent, ValidToken, ValidTokenV, clone_token};

verus! {

broadcast use vstd::std_specs::vec::group_vec_axioms;

// ---------------------------------------------------------------------------
// Token trees
// ---------------------------------------------------------------------------

/// A token, or a parenthesised group of trees.
pub enum TTV {
    Leaf(ValidTokenV<AbsoluteIndent>),
    Group(Seq<STV>),
}

/// A token tree with the positions of its first and last token.
pub struct STV {
    pub tree: TTV,
    pub start: int,
    pub end: int,
}

/// Reads trees from token `k` on. At the top level (`inside` false) it
/// reads to the end and a `)` is an error; inside a group it stops before
/// the `)` that closes it and the end is an error. `None` is an error.
pub open spec fn trees_from(toks: Seq<(int, ValidTokenV<AbsoluteIndent>)>, k: int, inside: bool) -> Option<(Seq<STV>, int)>
    decreases toks.len() - k,
{
    if k < 0 || k >= toks.len() {
        if inside { None } else { Some((Seq::empty(), k)) }
    } else {
        match toks[k].1 {
            ValidTokenV::RParen => if inside { Some((Seq::empty(), k)) } else { None },
            ValidTokenV::LParen => match trees_from(toks, k + 1, true) {
                Some((inner, m)) => if k < m < toks.len() {
                    let g = STV { tree: TTV::Group(inner), start: toks[k].0, end: toks[m].0 };
                    match trees_from(toks, m + 1, inside) {
                        Some((rest, e)) => Some((seq![g] + rest, e)),
                        None => None,
                    }
                } else {
                    None
                },
                None => None,
            },
            t => match trees_from(toks, k + 1, inside) {
                Some((rest, e)) => Some((seq![STV { tree: TTV::Leaf(t), start: toks[k].0, end: toks[k].0 }] + rest, e)),
                None => None,
            },
        }
    }
}

pub proof fn lemma_trees_from(toks: Seq<(int, ValidTokenV<AbsoluteIndent>)>, k: int, inside: bool)
    requires
        0 <= k,
        trees_from(toks, k, inside) is Some,
    ensures
        k <= trees_from(toks, k, inside).unwrap().1,
        inside ==> trees_from(toks, k, inside).unwrap().1 < toks.len()
            && toks[trees_from(toks, k, inside).unwrap().1].1 is RParen,
    decreases toks.len() - k,
{
    if k < toks.len() {
        match toks[k].1 {
            ValidTokenV::RParen => {},
            ValidTokenV::LParen => {
                let (inner, m) = trees_from(toks, k + 1, true).unwrap();
                lemma_trees_from(toks, m + 1, inside);
            },
            _ => {
                lemma_trees_from(toks, k + 1, inside);
            },
        }
    }
}

// ---------------------------------------------------------------------------
// Levels of the grammar
// ---------------------------------------------------------------------------

/// The operator that splits level `n` (0 to 6).
pub open spec fn sep_of(n: int) -> ValidTokenV<AbsoluteIndent> {
    if n == 0 {
        ValidTokenV::Assign
    } else if n == 1 {
        ValidTokenV::Colon
    } else if n == 2 {
        ValidTokenV::DoubleArrow
    } else if n == 3 {
        ValidTokenV::Arrow
    } else if n == 4 {
        ValidTokenV::Pipe
    } else if n == 5 {
        ValidTokenV::SemiColon
    } else {
        ValidTokenV::Comma
    }
}

/// The node that level `n` builds from two or more operands.
pub open spec fn kind_of(n: int) -> AstKind {
    if n == 0 {
        AstKind::Binding
    } else if n == 1 {
        AstKind::Ann
    } else if n == 2 {
        AstKind::Lambda
    } else if n == 3 {
        AstKind::Pi
    } else if n == 4 {
        AstKind::Pipe
    } else if n == 5 {
        AstKind::Sigma
    } else {
        AstKind::Tuple
    }
}

pub open spec fn is_sep(t: STV, n: int) -> bool {
    t.tree matches TTV::Leaf(tok) && tok == sep_of(n)
}

/// The first separator of level `n` in `ts[k..hi]`, or `hi`.
pub open spec fn next_sep(ts: Seq<STV>, k: int, hi: int, n: int) -> int
    decreases hi - k,
{
    if k >= hi {
        hi
    } else if is_sep(ts[k], n) {
        k
    } else {
        next_sep(ts, k + 1, hi, n)
    }
}

/// The ranges between the separators of level `n` in `ts[k..hi]`; there is
/// always at least one, possibly empty.
pub open spec fn parts_from(ts: Seq<STV>, k: int, hi: int, n: int) -> Seq<(int, int)>
    decreases hi - k,
{
    let e = next_sep(ts, k, hi, n);
    if k <= e < hi {
        seq![(k, e)] + parts_from(ts, e + 1, hi, n)
    } else {
        seq![(k, hi)]
    }
}

pub proof fn lemma_next_sep(ts: Seq<STV>, k: int, hi: int, n: int)
    requires
        k <= hi,
    ensures
        k <= next_sep(ts, k, hi, n) <= hi,
        next_sep(ts, k, hi, n) < hi ==> is_sep(ts[next_sep(ts, k, hi, n)], n),
        forall|m: int| k <= m < next_sep(ts, k, hi, n) ==> !is_sep(#[trigger] ts[m], n),
    decreases hi - k,
{
    if k < hi && !is_sep(ts[k], n) {
        lemma_next_sep(ts, k + 1, hi, n);
    }
}

pub proof fn lemma_parts_from(ts: Seq<STV>, k: int, hi: int, n: int)
    requires
        k <= hi,
    ensures
        parts_from(ts, k, hi, n).len() >= 1,
        forall|i: int| 0 <= i < parts_from(ts, k, hi, n).len() ==> k <= (#[trigger] parts_from(ts, k, hi, n)[i]).0
            <= parts_from(ts, k, hi, n)[i].1 <= hi,
    decreases hi - k,
{
    lemma_next_sep(ts, k, hi, n);
    let e = next_sep(ts, k, hi, n);
    if k <= e < hi {
        lemma_parts_from(ts, e + 1, hi, n);
    }
}

/// The positions of the first and last token of `ts[lo..hi]`, or `(0, 0)`.
pub open spec fn span_of(ts: Seq<STV>, lo: int, hi: int) -> (int, int) {
    if lo < hi {
        (ts[lo].start, ts[hi - 1].end)
    } else {
        (0, 0)
    }
}

pub open spec fn unit_at(span: (int, int)) -> SAstV {
    SAstV { kind: AstKind::Unit, items: Seq::empty(), start: span.0, end: span.1 }
}

/// After `.` chains are formed: a single tree, or a chain of the trees at
/// the given positions with the positions of its first and last token.
pub enum DotItem {
    One(int),
    Chain(Seq<int>, int, int),
}

pub open spec fn is_dot_leaf(t: STV) -> bool {
    t.tree matches TTV::Leaf(tok) && tok is Dot
}

/// Whether the last item is a single `.` token.
pub open spec fn ends_with_dot(ts: Seq<STV>, acc: Seq<DotItem>) -> bool {
    acc.len() > 0 && match acc.last() {
        DotItem::One(d) => 0 <= d < ts.len() && is_dot_leaf(ts[d]),
        _ => false,
    }
}

/// Forms the `.` chains of `ts[lo..k]`: a tree that follows a `.` joins the
/// item before the `.`; a `.` with nothing before it is dropped.
pub open spec fn dot_fold(ts: Seq<STV>, lo: int, k: int) -> Seq<DotItem>
    decreases k - lo,
{
    if k <= lo {
        Seq::empty()
    } else {
        let acc = dot_fold(ts, lo, k - 1);
        let j = k - 1;
        if ends_with_dot(ts, acc) {
            let acc1 = acc.drop_last();
            if acc1.len() > 0 {
                let new = match acc1.last() {
                    DotItem::Chain(items, s, _) => DotItem::Chain(items.push(j), s, ts[j].end),
                    DotItem::One(p) => DotItem::Chain(seq![p, j], ts[p].start, ts[j].end),
                };
                acc1.drop_last().push(new)
            } else {
                acc1.push(DotItem::One(j))
            }
        } else {
            acc.push(DotItem::One(j))
        }
    }
}

pub open spec fn item_in(it: DotItem, lo: int, hi: int) -> bool {
    match it {
        DotItem::One(j) => lo <= j < hi,
        DotItem::Chain(idx, _, _) => forall|m: int| 0 <= m < idx.len() ==> lo <= #[trigger] idx[m] < hi,
    }
}

pub proof fn lemma_dot_fold(ts: Seq<STV>, lo: int, k: int)
    requires
        lo <= k,
    ensures
        forall|i: int| 0 <= i < dot_fold(ts, lo, k).len() ==> item_in(#[trigger] dot_fold(ts, lo, k)[i], lo, k),
        forall|i: int| 0 <= i < dot_fold(ts, lo, k).len() && (#[trigger] dot_fold(ts, lo, k)[i]) is Chain ==> k - lo >= 3,
    decreases k - lo,
{
    if k > lo {
        lemma_dot_fold(ts, lo, k - 1);
        let acc = dot_fold(ts, lo, k - 1);
        let res = dot_fold(ts, lo, k);
        assert forall|i: int| 0 <= i < res.len() implies item_in(#[trigger] res[i], lo, k) && (res[i] is Chain ==> k - lo >= 3) by {
            if i < acc.len() - 2 {
                assert(res[i] == acc[i]);
            }
            if ends_with_dot(ts, acc) {
                let acc1 = acc.drop_last();
                if acc1.len() > 0 && i == res.len() - 1 {
                    assert(acc1.last() == acc[acc.len() - 2]);
                    assert(item_in(acc.last(), lo, k - 1));
                }
            }
        }
    }
}

pub open spec fn item_start(ts: Seq<STV>, it: DotItem) -> int {
    match it {
        DotItem::One(j) => ts[j].start,
        DotItem::Chain(_, s, _) => s,
    }
}

pub open spec fn item_end(ts: Seq<STV>, it: DotItem) -> int {
    match it {
        DotItem::One(j) => ts[j].end,
        DotItem::Chain(_, _, e) => e,
    }
}

/// The positions of the first and last token of a list of items, or `(0, 0)`.
pub open spec fn items_span(ts: Seq<STV>, items: Seq<DotItem>) -> (int, int) {
    if items.len() > 0 {
        (item_start(ts, items[0]), item_end(ts, items.last()))
    } else {
        (0, 0)
    }
}

/// The expression of a single token.
pub open spec fn leaf_expr(tok: ValidTokenV<AbsoluteIndent>, start: int, end: int) -> SAstV {
    let kind = match tok {
        ValidTokenV::Type => AstKind::Type,
        ValidTokenV::Ident(name) => AstKind::Var(name),
        ValidTokenV::String(s) => AstKind::Lit(LitV::String(s)),
        ValidTokenV::Number(n) => AstKind::Lit(LitV::Number(n)),
        t => AstKind::Error(AstErrorV::InvalidToken(t)),
    };
    SAstV { kind, items: Seq::empty(), start, end }
}

/// The expression parsed from `ts[lo..hi]` at level `n`.
pub open spec fn parse_level(ts: Seq<STV>, lo: int, hi: int, n: int) -> SAstV
    decreases ts, hi - lo, 8 - n, 2nat, 0nat,
{
    if !(0 <= lo <= hi <= ts.len()) || n < 0 || n > 7 {
        unit_at((0, 0))
    } else if n == 7 {
        let items = dot_fold(ts, lo, hi);
        proof {
            lemma_dot_fold(ts, lo, hi);
        }
        let exprs = app_items(ts, lo, hi, items, 0);
        if exprs.len() == 0 {
            unit_at(items_span(ts, items))
        } else if exprs.len() == 1 {
            exprs[0]
        } else {
            let sp = items_span(ts, items);
            SAstV { kind: AstKind::App, items: exprs, start: sp.0, end: sp.1 }
        }
    } else {
        let parts = parts_from(ts, lo, hi, n);
        proof {
            lemma_parts_from(ts, lo, hi, n);
        }
        let exprs = parse_parts(ts, lo, hi, n, parts, 0);
        if exprs.len() == 0 {
            unit_at(span_of(ts, lo, hi))
        } else if exprs.len() == 1 {
            exprs[0]
        } else {
            let sp = span_of(ts, lo, hi);
            SAstV { kind: kind_of(n), items: exprs, start: sp.0, end: sp.1 }
        }
    }
}

/// The operands of level `n`: each part parsed at level `n + 1`.
pub open spec fn parse_parts(ts: Seq<STV>, lo: int, hi: int, n: int, parts: Seq<(int, int)>, k: int) -> Seq<SAstV>
    decreases ts, hi - lo, 8 - n, 0nat, parts.len() - k,
{
    if k < 0 || k >= parts.len() {
        Seq::empty()
    } else if lo <= parts[k].0 <= parts[k].1 <= hi && 0 <= n < 7 {
        seq![parse_level(ts, parts[k].0, parts[k].1, n + 1)] + parse_parts(ts, lo, hi, n, parts, k + 1)
    } else {
        Seq::empty()
    }
}

/// The expressions of the items from `items[m]` on.
pub open spec fn app_items(ts: Seq<STV>, lo: int, hi: int, items: Seq<DotItem>, m: int) -> Seq<SAstV>
    decreases ts, hi - lo, 1nat, 1nat, items.len() - m,
{
    if m < 0 || m >= items.len() || !(0 <= lo <= hi <= ts.len()) {
        Seq::empty()
    } else {
        let e = match items[m] {
            DotItem::One(j) => if 0 <= j < ts.len() {
                match ts[j].tree {
                    TTV::Leaf(tok) => leaf_expr(tok, ts[j].start, ts[j].end),
                    TTV::Group(g) => {
                        proof {
                            assert(decreases_to!(ts => ts[j]));
                            assert(decreases_to!(ts[j] => ts[j].tree));
                        }
                        SAstV {
                            kind: AstKind::Group,
                            items: seq![parse_level(g, 0, g.len() as int, 0)],
                            start: ts[j].start,
                            end: ts[j].end,
                        }
                    },
                }
            } else {
                unit_at((0, 0))
            },
            DotItem::Chain(idx, s, e) => if hi - lo > 1 {
                SAstV { kind: AstKind::Dot, items: chain_items(ts, lo, hi, idx, 0), start: s, end: e }
            } else {
                unit_at((0, 0))
            },
        };
        seq![e] + app_items(ts, lo, hi, items, m + 1)
    }
}

/// The operands of a `.` chain: each tree parsed on its own.
pub open spec fn chain_items(ts: Seq<STV>, lo: int, hi: int, idx: Seq<int>, m: int) -> Seq<SAstV>
    decreases ts, hi - lo, 1nat, 0nat, idx.len() - m,
{
    if m < 0 || m >= idx.len() || hi - lo <= 1 {
        Seq::empty()
    } else {
        seq![parse_level(ts, idx[m], idx[m] + 1, 0)] + chain_items(ts, lo, hi, idx, m + 1)
    }
}

// ---------------------------------------------------------------------------
// The whole token stream
// ---------------------------------------------------------------------------

/// The tokens that are not line breaks, each with its position among all
/// tokens.
pub open spec fn non_newlines(tokens: Seq<ValidTokenV<AbsoluteIndent>>) -> Seq<(int, ValidTokenV<AbsoluteIndent>)>
    decreases tokens.len(),
{
    if tokens.len() == 0 {
        Seq::empty()
    } else {
        let r = non_newlines(tokens.drop_last());
        if tokens.last() is Newline {
            r
        } else {
            r.push(((tokens.len() - 1) as int, tokens.last()))
        }
    }
}

/// The first `def` in `xs[k..]`, or the end.
pub open spec fn next_def(xs: Seq<(int, ValidTokenV<AbsoluteIndent>)>, k: int) -> int
    decreases xs.len() - k,
{
    if k >= xs.len() {
        xs.len() as int
    } else if xs[k].1 is Def {
        k
    } else {
        next_def(xs, k + 1)
    }
}

/// The ranges of `xs[k..]` between the `def`s; at least one, possibly empty.
pub open spec fn def_parts(xs: Seq<(int, ValidTokenV<AbsoluteIndent>)>, k: int) -> Seq<(int, int)>
    decreases xs.len() - k,
{
    let e = next_def(xs, k);
    if k <= e < xs.len() {
        seq![(k, e)] + def_parts(xs, e + 1)
    } else {
        seq![(k, xs.len() as int)]
    }
}

pub proof fn lemma_def_parts(xs: Seq<(int, ValidTokenV<AbsoluteIndent>)>, k: int)
    requires
        0 <= k <= xs.len(),
    ensures
        forall|i: int| 0 <= i < def_parts(xs, k).len() ==> k <= (#[trigger] def_parts(xs, k)[i]).0
            <= def_parts(xs, k)[i].1 <= xs.len(),
    decreases xs.len() - k,
{
    lemma_next_def(xs, k);
    let e = next_def(xs, k);
    if k <= e < xs.len() {
        lemma_def_parts(xs, e + 1);
        let rest = def_parts(xs, e + 1);
        let parts = def_parts(xs, k);
        assert(parts == seq![(k, e)] + rest);
        assert forall|i: int| 0 <= i < parts.len() implies k <= (#[trigger] parts[i]).0 <= parts[i].1 <= xs.len() by {
            if i > 0 {
                assert(parts[i] == rest[i - 1]);
            }
        }
    }
}

pub proof fn lemma_next_def(xs: Seq<(int, ValidTokenV<AbsoluteIndent>)>, k: int)
    requires
        0 <= k <= xs.len(),
    ensures
        k <= next_def(xs, k) <= xs.len(),
        next_def(xs, k) < xs.len() ==> xs[next_def(xs, k)].1 is Def,
    decreases xs.len() - k,
{
    if k < xs.len() && !(xs[k].1 is Def) {
        lemma_next_def(xs, k + 1);
    }
}

/// Each definition of `parts[k..]` parsed; `None` when the parentheses of
/// one of them do not match.
pub open spec fn parse_defs(xs: Seq<(int, ValidTokenV<AbsoluteIndent>)>, parts: Seq<(int, int)>, k: int) -> Option<Seq<SAstV>>
    decreases parts.len() - k,
{
    if k < 0 || k >= parts.len() {
        Some(Seq::empty())
    } else {
        let group = xs.subrange(parts[k].0, parts[k].1);
        match trees_from(group, 0, false) {
            None => None,
            Some((ts, _)) => match parse_defs(xs, parts, k + 1) {
                None => None,
                Some(rest) => Some(seq![parse_level(ts, 0, ts.len() as int, 0)] + rest),
            },
        }
    }
}

/// The parse of a token stream. Line breaks are skipped. The stream must
/// start with `def` and is then read as the definitions that `def`
/// separates; when it starts with another token the result is one error
/// node for that token. `None` when parentheses do not match.
pub open spec fn parse_spec(tokens: Seq<ValidTokenV<AbsoluteIndent>>) -> Option<Seq<SAstV>> {
    let xs = non_newlines(tokens);
    if xs.len() == 0 {
        Some(Seq::empty())
    } else if !(xs[0].1 is Def) {
        Some(seq![SAstV { kind: AstKind::Error(AstErrorV::InvalidToken(xs[0].1)), items: Seq::empty(), start: 0, end: 0 }])
    } else {
        parse_defs(xs, def_parts(xs, 1), 0)
    }
}

pub open spec fn tokens_v(tokens: Seq<ValidToken<AbsoluteIndent>>) -> Seq<ValidTokenV<AbsoluteIndent>> {
    tokens.map_values(|t: ValidToken<AbsoluteIndent>| t@)
}

// ---------------------------------------------------------------------------
// Executable parser
// ---------------------------------------------------------------------------

enum TokenTree {
    Leaf(ValidToken<AbsoluteIndent>),
    Group(Vec<SpannedTree>),
}

struct SpannedTree {
    tree: TokenTree,
    start: usize,
    end: usize,
}

spec fn stv_of(t: SpannedTree) -> STV
    decreases t, 1nat,
{
    match t.tree {
        TokenTree::Leaf(tok) => STV { tree: TTV::Leaf(tok@), start: t.start as int, end: t.end as int },
        TokenTree::Group(v) => STV { tree: TTV::Group(stvs_of(v@)), start: t.start as int, end: t.end as int },
    }
}

spec fn stvs_of(s: Seq<SpannedTree>) -> Seq<STV>
    decreases s, 0nat,
{
    Seq::new(s.len(), |i: int| if 0 <= i < s.len() { stv_of(s[i]) } else { STV { tree: TTV::Group(Seq::empty()), start: 0, end: 0 } })
}

spec fn indexed_v(xs: Seq<(usize, ValidToken<AbsoluteIndent>)>) -> Seq<(int, ValidTokenV<AbsoluteIndent>)> {
    xs.map_values(|x: (usize, ValidToken<AbsoluteIndent>)| (x.0 as int, x.1@))
}

/// Reads trees from `toks[k..]` as `trees_from` does.
fn trees_from_exec(toks: &Vec<(usize, ValidToken<AbsoluteIndent>)>, k: usize, inside: bool) -> (r: Option<(Vec<SpannedTree>, usize)>)
    requires
        k <= toks@.len(),
    ensures
        match (r, trees_from(indexed_v(toks@), k as int, inside)) {
            (Some((v, e)), Some((sv, se))) => stvs_of(v@) == sv && e == se,
            (None, None) => true,
            _ => false,
        },
    decreases toks@.len() - k,
{
    let ghost xs = indexed_v(toks@);
    let mut acc: Vec<SpannedTree> = Vec::new();
    let mut i = k;
    loop
        invariant
            k <= i <= toks@.len(),
            xs == indexed_v(toks@),
            trees_from(xs, k as int, inside) == match trees_from(xs, i as int, inside) {
                Some((rest, e)) => Some((stvs_of(acc@) + rest, e)),
                None => None,
            },
        decreases toks@.len() - i,
    {
        if i >= toks.len() {
            if inside {
                return None;
            }
            assert(stvs_of(acc@) + Seq::<STV>::empty() =~= stvs_of(acc@));
            return Some((acc, i));
        }
        match &toks[i].1 {
            ValidToken::RParen => {
                if inside {
                    assert(stvs_of(acc@) + Seq::<STV>::empty() =~= stvs_of(acc@));
                    return Some((acc, i));
                }
                return None;
            },
            ValidToken::LParen => {
                match trees_from_exec(toks, i + 1, true) {
                    None => {
                        return None;
                    },
                    Some((inner, m)) => {
                        proof {
                            lemma_trees_from(xs, i + 1, true);
                        }
                        let g = SpannedTree { tree: TokenTree::Group(inner), start: toks[i].0, end: toks[m].0 };
                        let ghost before = acc@;
                        acc.push(g);
                        proof {
                            assert(stvs_of(acc@) =~= stvs_of(before).push(stv_of(g)));
                            let next = trees_from(xs, m + 1, inside);
                            if next is Some {
                                let (rest, e) = next.unwrap();
                                assert(stvs_of(before) + (seq![stv_of(g)] + rest) =~= stvs_of(acc@) + rest);
                            }
                        }
                        i = m + 1;
                    },
                }
            },
            t => {
                let leaf = SpannedTree { tree: TokenTree::Leaf(clone_token(t)), start: toks[i].0, end: toks[i].0 };
                let ghost before = acc@;
                acc.push(leaf);
                proof {
                    assert(stvs_of(acc@) =~= stvs_of(before).push(stv_of(leaf)));
                    let next = trees_from(xs, i + 1, inside);
                    if next is Some {
                        let (rest, e) = next.unwrap();
                        assert(stvs_of(before) + (seq![stv_of(leaf)] + rest) =~= stvs_of(acc@) + rest);
                    }
                }
                i = i + 1;
            },
        }
    }
}

fn token_is_sep(tok: &ValidToken<AbsoluteIndent>, n: usize) -> (b: bool)
    requires
        n < 7,
    ensures
        b == (tok@ == sep_of(n as int)),
{
    match tok {
        ValidToken::Assign => n == 0,
        ValidToken::Colon => n == 1,
        ValidToken::DoubleArrow => n == 2,
        ValidToken::Arrow => n == 3,
        ValidToken::Pipe => n == 4,
        ValidToken::SemiColon => n == 5,
        ValidToken::Comma => n == 6,
        _ => false,
    }
}

fn tree_is_sep(t: &SpannedTree, n: usize) -> (b: bool)
    requires
        n < 7,
    ensures
        b == is_sep(stv_of(*t), n as int),
{
    match &t.tree {
        TokenTree::Leaf(tok) => token_is_sep(tok, n),
        TokenTree::Group(_) => false,
    }
}

/// The ranges between the separators of level `n` in `ts[lo..hi]`.
fn parts_exec(ts: &Vec<SpannedTree>, lo: usize, hi: usize, n: usize) -> (r: Vec<(usize, usize)>)
    requires
        lo <= hi <= ts@.len(),
        n < 7,
    ensures
        r@.map_values(|p: (usize, usize)| (p.0 as int, p.1 as int)) == parts_from(stvs_of(ts@), lo as int, hi as int, n as int),
{
    let ghost tv = stvs_of(ts@);
    let mut r: Vec<(usize, usize)> = Vec::new();
    let mut k = lo;
    loop
        invariant
            lo <= k <= hi <= ts@.len(),
            n < 7,
            tv == stvs_of(ts@),
            parts_from(tv, lo as int, hi as int, n as int) == r@.map_values(|p: (usize, usize)| (p.0 as int, p.1 as int))
                + parts_from(tv, k as int, hi as int, n as int),
        decreases hi - k,
    {
        let mut e = k;
        while e < hi && !tree_is_sep(&ts[e], n)
            invariant
                k <= e <= hi <= ts@.len(),
                n < 7,
                tv == stvs_of(ts@),
                next_sep(tv, k as int, hi as int, n as int) == next_sep(tv, e as int, hi as int, n as int),
            decreases hi - e,
        {
            e = e + 1;
        }
        let ghost before = r@;
        if e < hi {
            r.push((k, e));
            proof {
                assert(r@.map_values(|p: (usize, usize)| (p.0 as int, p.1 as int)) =~= before.map_values(
                    |p: (usize, usize)| (p.0 as int, p.1 as int),
                ).push((k as int, e as int)));
            }
            k = e + 1;
        } else {
            r.push((k, hi));
            proof {
                assert(r@.map_values(|p: (usize, usize)| (p.0 as int, p.1 as int)) =~= before.map_values(
                    |p: (usize, usize)| (p.0 as int, p.1 as int),
                ) + parts_from(tv, k as int, hi as int, n as int));
            }
            return r;
        }
    }
}

enum DotItemE {
    One(usize),
    Chain(Vec<usize>, usize, usize),
}

spec fn dot_item_v(d: DotItemE) -> DotItem {
    match d {
        DotItemE::One(j) => DotItem::One(j as int),
        DotItemE::Chain(v, s, e) => DotItem::Chain(v@.map_values(|x: usize| x as int), s as int, e as int),
    }
}

spec fn dot_items_v(s: Seq<DotItemE>) -> Seq<DotItem> {
    s.map_values(|d: DotItemE| dot_item_v(d))
}

fn is_dot_tree(t: &SpannedTree) -> (b: bool)
    ensures
        b == is_dot_leaf(stv_of(*t)),
{
    match &t.tree {
        TokenTree::Leaf(ValidToken::Dot) => true,
        _ => false,
    }
}

/// Forms the `.` chains of `ts[lo..hi]` as `dot_fold` does.
fn dot_fold_exec(ts: &Vec<SpannedTree>, lo: usize, hi: usize) -> (r: Vec<DotItemE>)
    requires
        lo <= hi <= ts@.len(),
    ensures
        dot_items_v(r@) == dot_fold(stvs_of(ts@), lo as int, hi as int),
{
    let ghost tv = stvs_of(ts@);
    let mut acc: Vec<DotItemE> = Vec::new();
    let mut k = lo;
    while k < hi
        invariant
            lo <= k <= hi <= ts@.len(),
            tv == stvs_of(ts@),
            dot_items_v(acc@) == dot_fold(tv, lo as int, k as int),
        decreases hi - k,
    {
        proof {
            lemma_dot_fold(tv, lo as int, k as int);
            assert(dot_fold(tv, lo as int, k + 1 - 1) == dot_fold(tv, lo as int, k as int));
        }
        let j = k;
        let n = acc.len();
        let last_is_dot = n > 0 && match &acc[n - 1] {
            DotItemE::One(d) => is_dot_tree(&ts[*d]),
            DotItemE::Chain(..) => false,
        };
        let ghost old_acc = acc@;
        if last_is_dot {
            proof {
                assert(acc@.last() == old_acc[n - 1]);
                assert(dot_items_v(acc@).last() == dot_item_v(acc@[n - 1]));
                assert(item_in(dot_fold(tv, lo as int, k as int)[n - 1], lo as int, k as int));
            }
            acc.pop();
            if acc.len() > 0 {
                let prev = acc.pop().unwrap();
                proof {
                    assert(item_in(dot_fold(tv, lo as int, k as int)[n - 2], lo as int, k as int));
                    assert(dot_item_v(prev) == dot_fold(tv, lo as int, k as int)[n - 2]);
                }
                let new = match prev {
                    DotItemE::Chain(mut items, s, _) => {
                        let ghost iv = items@;
                        items.push(j);
                        proof {
                            assert(items@.map_values(|x: usize| x as int) =~= iv.map_values(|x: usize| x as int).push(j as int));
                        }
                        DotItemE::Chain(items, s, ts[j].end)
                    },
                    DotItemE::One(p) => {
                        let v = vec![p, j];
                        proof {
                            assert(v@.map_values(|x: usize| x as int) =~= seq![p as int, j as int]);
                        }
                        DotItemE::Chain(v, ts[p].start, ts[j].end)
                    },
                };
                acc.push(new);
                proof {
                    assert(dot_items_v(acc@) =~= dot_items_v(old_acc).drop_last().drop_last().push(dot_item_v(new)));
                }
            } else {
                acc.push(DotItemE::One(j));
                proof {
                    assert(dot_items_v(acc@) =~= dot_items_v(old_acc).drop_last().push(DotItem::One(j as int)));
                }
            }
        } else {
            acc.push(DotItemE::One(j));
            proof {
                assert(dot_items_v(acc@) =~= dot_items_v(old_acc).push(DotItem::One(j as int)));
            }
        }
        k = k + 1;
    }
    acc
}

fn leaf_expr_exec(tok: &ValidToken<AbsoluteIndent>, start: usize, end: usize) -> (r: SpannedFixAst)
    ensures
        r@ == leaf_expr(tok@, start as int, end as int),
{
    let node = match tok {
        ValidToken::Type => SpannedAst::Type,
        ValidToken::Ident(name) => SpannedAst::Var(name.clone()),
        ValidToken::String(s) => SpannedAst::Lit(LitKind::String(s.clone())),
        ValidToken::Number(n) => SpannedAst::Lit(LitKind::Number(n.clone())),
        t => SpannedAst::Error(AstError::InvalidToken(clone_token(t)), Vec::new()),
    };
    let r = SpannedFixAst(node, (start, end));
    proof {
        assert(sasts_v(Seq::<SpannedFixAst>::empty()) =~= Seq::<SAstV>::empty());
    }
    r
}

/// The node of level `n` (0 to 6) over `exprs`.
fn make_node(n: usize, exprs: Vec<SpannedFixAst>, span: (usize, usize)) -> (r: SpannedFixAst)
    requires
        n < 7,
    ensures
        r@ == (SAstV { kind: kind_of(n as int), items: sasts_v(exprs@), start: span.0 as int, end: span.1 as int }),
{
    let node = if n == 0 {
        SpannedAst::Binding(exprs)
    } else if n == 1 {
        SpannedAst::Ann(exprs)
    } else if n == 2 {
        SpannedAst::Lambda(exprs)
    } else if n == 3 {
        SpannedAst::Pi(exprs)
    } else if n == 4 {
        SpannedAst::Pipe(exprs)
    } else if n == 5 {
        SpannedAst::Sigma(exprs)
    } else {
        SpannedAst::Tuple(exprs)
    };
    SpannedFixAst(node, span)
}

fn unit_exec(span: (usize, usize)) -> (r: SpannedFixAst)
    ensures
        r@ == unit_at((span.0 as int, span.1 as int)),
{
    SpannedFixAst(SpannedAst::Unit, span)
}

proof fn lemma_sasts_push(v: Seq<SpannedFixAst>, x: SpannedFixAst)
    ensures
        sasts_v(v.push(x)) == sasts_v(v).push(sast_v(x)),
{
    assert(sasts_v(v.push(x)) =~= sasts_v(v).push(sast_v(x)));
}

/// Parses `ts[lo..hi]` at level `n` as `parse_level` does.
fn parse_level_exec(ts: &Vec<SpannedTree>, lo: usize, hi: usize, n: usize) -> (r: SpannedFixAst)
    requires
        lo <= hi <= ts@.len(),
        n <= 7,
    ensures
        r@ == parse_level(stvs_of(ts@), lo as int, hi as int, n as int),
    decreases ts@, hi - lo, 8 - n,
{
    let ghost tv = stvs_of(ts@);
    if n == 7 {
        let items = dot_fold_exec(ts, lo, hi);
        let ghost iv = dot_items_v(items@);
        proof {
            lemma_dot_fold(tv, lo as int, hi as int);
        }
        let mut exprs: Vec<SpannedFixAst> = Vec::new();
        let mut m: usize = 0;
        while m < items.len()
            invariant
                lo <= hi <= ts@.len(),
                tv == stvs_of(ts@),
                iv == dot_items_v(items@),
                iv == dot_fold(tv, lo as int, hi as int),
                m <= items@.len(),
                forall|i: int| 0 <= i < iv.len() ==> item_in(#[trigger] iv[i], lo as int, hi as int),
                forall|i: int| 0 <= i < iv.len() && (#[trigger] iv[i]) is Chain ==> hi - lo >= 3,
                app_items(tv, lo as int, hi as int, iv, 0) == sasts_v(exprs@) + app_items(tv, lo as int, hi as int, iv, m as int),
            decreases items@.len() - m,
        {
            proof {
                assert(iv[m as int] == dot_item_v(items@[m as int]));
                assert(item_in(iv[m as int], lo as int, hi as int));
            }
            let e = match &items[m] {
                DotItemE::One(j) => {
                    let j = *j;
                    match &ts[j].tree {
                        TokenTree::Leaf(tok) => leaf_expr_exec(tok, ts[j].start, ts[j].end),
                        TokenTree::Group(g) => {
                            proof {
                                assert(decreases_to!(ts@ => ts@[j as int]));
                                assert(decreases_to!(ts@[j as int] => ts@[j as int].tree));
                                assert(tv[j as int] == stv_of(ts@[j as int]));
                            }
                            let inner = parse_level_exec(g, 0, g.len(), 0);
                            SpannedFixAst(SpannedAst::Group(Box::new(inner)), (ts[j].start, ts[j].end))
                        },
                    }
                },
                DotItemE::Chain(idx, s, e) => {
                    let ghost ix = idx@.map_values(|x: usize| x as int);
                    let mut ds: Vec<SpannedFixAst> = Vec::new();
                    let mut q: usize = 0;
                    while q < idx.len()
                        invariant
                            lo <= hi <= ts@.len(),
                            hi - lo >= 3,
                            tv == stvs_of(ts@),
                            ix == idx@.map_values(|x: usize| x as int),
                            forall|t: int| 0 <= t < ix.len() ==> lo <= #[trigger] ix[t] < hi,
                            q <= idx@.len(),
                            chain_items(tv, lo as int, hi as int, ix, 0) == sasts_v(ds@) + chain_items(tv, lo as int, hi as int, ix, q as int),
                        decreases idx@.len() - q,
                    {
                        proof {
                            assert(ix[q as int] == idx@[q as int] as int);
                        }
                        let d = parse_level_exec(ts, idx[q], idx[q] + 1, 0);
                        let ghost before = ds@;
                        ds.push(d);
                        proof {
                            lemma_sasts_push(before, d);
                            assert(sasts_v(before) + chain_items(tv, lo as int, hi as int, ix, q as int) =~= sasts_v(ds@)
                                + chain_items(tv, lo as int, hi as int, ix, q + 1));
                        }
                        q = q + 1;
                    }
                    proof {
                        assert(sasts_v(ds@) =~= sasts_v(ds@) + chain_items(tv, lo as int, hi as int, ix, q as int));
                    }
                    SpannedFixAst(SpannedAst::Dot(ds), (*s, *e))
                },
            };
            let ghost before = exprs@;
            exprs.push(e);
            proof {
                lemma_sasts_push(before, e);
                assert(sasts_v(before) + app_items(tv, lo as int, hi as int, iv, m as int) =~= sasts_v(exprs@)
                    + app_items(tv, lo as int, hi as int, iv, m + 1));
            }
            m = m + 1;
        }
        proof {
            assert(sasts_v(exprs@) =~= app_items(tv, lo as int, hi as int, iv, 0));
        }
        let sp = if items.len() > 0 {
            let first = match &items[0] {
                DotItemE::One(j) => ts[*j].start,
                DotItemE::Chain(_, s, _) => *s,
            };
            let last = match &items[items.len() - 1] {
                DotItemE::One(j) => ts[*j].end,
                DotItemE::Chain(_, _, e) => *e,
            };
            proof {
                assert(iv[0] == dot_item_v(items@[0]));
                assert(iv.last() == dot_item_v(items@[items@.len() - 1]));
                assert(item_in(iv[0], lo as int, hi as int));
                assert(item_in(iv.last(), lo as int, hi as int));
            }
            (first, last)
        } else {
            (0, 0)
        };
        if exprs.len() == 0 {
            unit_exec(sp)
        } else if exprs.len() == 1 {
            let r = exprs.pop().unwrap();
            r
        } else {
            SpannedFixAst(SpannedAst::App(exprs), sp)
        }
    } else {
        let parts = parts_exec(ts, lo, hi, n);
        let ghost pv = parts@.map_values(|p: (usize, usize)| (p.0 as int, p.1 as int));
        proof {
            lemma_parts_from(tv, lo as int, hi as int, n as int);
        }
        let mut exprs: Vec<SpannedFixAst> = Vec::new();
        let mut k: usize = 0;
        while k < parts.len()
            invariant
                lo <= hi <= ts@.len(),
                n < 7,
                tv == stvs_of(ts@),
                pv == parts@.map_values(|p: (usize, usize)| (p.0 as int, p.1 as int)),
                pv == parts_from(tv, lo as int, hi as int, n as int),
                forall|i: int| 0 <= i < pv.len() ==> lo <= (#[trigger] pv[i]).0 <= pv[i].1 <= hi,
                k <= parts@.len(),
                parse_parts(tv, lo as int, hi as int, n as int, pv, 0) == sasts_v(exprs@) + parse_parts(tv, lo as int, hi as int, n as int, pv, k as int),
            decreases parts@.len() - k,
        {
            let (a, b) = parts[k];
            proof {
                assert(pv[k as int] == (a as int, b as int));
            }
            let e = parse_level_exec(ts, a, b, n + 1);
            let ghost before = exprs@;
            exprs.push(e);
            proof {
                lemma_sasts_push(before, e);
                assert(sasts_v(before) + parse_parts(tv, lo as int, hi as int, n as int, pv, k as int) =~= sasts_v(exprs@)
                    + parse_parts(tv, lo as int, hi as int, n as int, pv, k + 1));
            }
            k = k + 1;
        }
        proof {
            assert(sasts_v(exprs@) =~= parse_parts(tv, lo as int, hi as int, n as int, pv, 0));
        }
        let sp = if lo < hi {
            (ts[lo].start, ts[hi - 1].end)
        } else {
            (0, 0)
        };
        proof {
            if lo < hi {
                assert(tv[lo as int] == stv_of(ts@[lo as int]));
                assert(tv[hi - 1] == stv_of(ts@[hi - 1]));
            }
        }
        if exprs.len() == 0 {
            unit_exec(sp)
        } else if exprs.len() == 1 {
            let r = exprs.pop().unwrap();
            r
        } else {
            make_node(n, exprs, sp)
        }
    }
}

fn clone_indexed(x: &(usize, ValidToken<AbsoluteIndent>)) -> (r: (usize, ValidToken<AbsoluteIndent>))
    ensures
        r.0 == x.0,
        r.1@ == x.1@,
{
    (x.0, clone_token(&x.1))
}

/// The definitions of `tokens` parsed as `parse_spec` says; `None` when the
/// parentheses of a definition do not match.
pub fn try_parse(tokens: &Vec<ValidToken<AbsoluteIndent>>) -> (r: Option<Vec<SpannedFixAst>>)
    ensures
        match (r, parse_spec(tokens_v(tokens@))) {
            (Some(v), Some(sv)) => sasts_v(v@) == sv,
            (None, None) => true,
            _ => false,
        },
{
    let ghost tv = tokens_v(tokens@);
    let mut xs: Vec<(usize, ValidToken<AbsoluteIndent>)> = Vec::new();
    let mut i: usize = 0;
    while i < tokens.len()
        invariant
            i <= tokens@.len(),
            tv == tokens_v(tokens@),
            indexed_v(xs@) == non_newlines(tv.take(i as int)),
            forall|t: int| 0 <= t < xs@.len() ==> xs@[t].0 < i,
        decreases tokens@.len() - i,
    {
        proof {
            assert(tv.take(i + 1).drop_last() =~= tv.take(i as int));
            assert(tv.take(i + 1).last() == tokens@[i as int]@);
        }
        match &tokens[i] {
            ValidToken::Newline(_) => {},
            t => {
                let ghost before = xs@;
                xs.push((i, clone_token(t)));
                proof {
                    assert(indexed_v(xs@) =~= indexed_v(before).push((i as int, tokens@[i as int]@)));
                }
            },
        }
        i = i + 1;
    }
    proof {
        assert(tv.take(tokens@.len() as int) =~= tv);
    }
    let ghost xv = indexed_v(xs@);
    if xs.len() == 0 {
        let v: Vec<SpannedFixAst> = Vec::new();
        proof {
            assert(sasts_v(v@) =~= Seq::<SAstV>::empty());
        }
        return Some(v);
    }
    proof {
        assert(xv[0] == (xs@[0].0 as int, xs@[0].1@));
        assert(xv == non_newlines(tv));
    }
    if !matches!(xs[0].1, ValidToken::Def) {
        let err = SpannedFixAst(SpannedAst::Error(AstError::InvalidToken(clone_token(&xs[0].1)), Vec::new()), (0, 0));
        let v = vec![err];
        proof {
            assert(sasts_v(Seq::<SpannedFixAst>::empty()) =~= Seq::<SAstV>::empty());
            assert(sasts_v(v@) =~= seq![sast_v(err)]);
        }
        return Some(v);
    }
    // the ranges between the `def`s after the first one
    let mut parts: Vec<(usize, usize)> = Vec::new();
    let mut k: usize = 1;
    loop
        invariant_except_break
            1 <= k <= xs@.len(),
            def_parts(xv, 1) == parts@.map_values(|p: (usize, usize)| (p.0 as int, p.1 as int)) + def_parts(xv, k as int),
        invariant
            xv == indexed_v(xs@),
        ensures
            def_parts(xv, 1) == parts@.map_values(|p: (usize, usize)| (p.0 as int, p.1 as int)),
        decreases xs@.len() - k,
    {
        let mut e = k;
        while e < xs.len() && !matches!(xs[e].1, ValidToken::Def)
            invariant
                k <= e <= xs@.len(),
                xv == indexed_v(xs@),
                next_def(xv, k as int) == next_def(xv, e as int),
            decreases xs@.len() - e,
        {
            proof {
                assert(xv[e as int] == (xs@[e as int].0 as int, xs@[e as int].1@));
            }
            e = e + 1;
        }
        proof {
            if e < xs.len() {
                assert(xv[e as int] == (xs@[e as int].0 as int, xs@[e as int].1@));
            }
        }
        let ghost before = parts@;
        if e < xs.len() {
            parts.push((k, e));
            proof {
                assert(parts@.map_values(|p: (usize, usize)| (p.0 as int, p.1 as int)) =~= before.map_values(
                    |p: (usize, usize)| (p.0 as int, p.1 as int),
                ).push((k as int, e as int)));
            }
            k = e + 1;
        } else {
            parts.push((k, xs.len()));
            proof {
                assert(parts@.map_values(|p: (usize, usize)| (p.0 as int, p.1 as int)) =~= before.map_values(
                    |p: (usize, usize)| (p.0 as int, p.1 as int),
                ) + def_parts(xv, k as int));
            }
            break;
        }
    }
    let ghost pv = parts@.map_values(|p: (usize, usize)| (p.0 as int, p.1 as int));
    proof {
        lemma_def_parts(xv, 1);
    }
    let mut out: Vec<SpannedFixAst> = Vec::new();
    let mut q: usize = 0;
    while q < parts.len()
        invariant
            xv == indexed_v(xs@),
            xv == non_newlines(tv),
            tv == tokens_v(tokens@),
            xv.len() > 0,
            xv[0].1 is Def,
            pv == parts@.map_values(|p: (usize, usize)| (p.0 as int, p.1 as int)),
            pv == def_parts(xv, 1),
            forall|t: int| 0 <= t < pv.len() ==> 1 <= (#[trigger] pv[t]).0 <= pv[t].1 <= xv.len(),
            q <= parts@.len(),
            parse_defs(xv, pv, 0) == match parse_defs(xv, pv, q as int) {
                Some(rest) => Some(sasts_v(out@) + rest),
                None => None::<Seq<SAstV>>,
            },
        decreases parts@.len() - q,
    {
        let (a, b) = parts[q];
        proof {
            assert(pv[q as int] == (a as int, b as int));
        }
        let mut group: Vec<(usize, ValidToken<AbsoluteIndent>)> = Vec::new();
        let mut t = a;
        while t < b
            invariant
                a <= t <= b <= xs@.len(),
                xv == indexed_v(xs@),
                indexed_v(group@) == xv.subrange(a as int, t as int),
            decreases b - t,
        {
            let ghost before = group@;
            let x = clone_indexed(&xs[t]);
            group.push(x);
            proof {
                assert(group@ == before.push(x));
                assert(indexed_v(group@) =~= indexed_v(before).push((x.0 as int, x.1@)));
                assert(xv[t as int] == (xs@[t as int].0 as int, xs@[t as int].1@));
                assert(xv.subrange(a as int, t + 1) =~= xv.subrange(a as int, t as int).push(xv[t as int]));
            }
            t = t + 1;
        }
        proof {
            assert(indexed_v(group@) == xv.subrange(pv[q as int].0, pv[q as int].1));
        }
        match trees_from_exec(&group, 0, false) {
            None => {
                proof {
                    assert(parse_defs(xv, pv, q as int) is None);
                    assert(xv[0].1 is Def);
                    assert(parse_spec(tv) == parse_defs(xv, pv, 0));
                }
                return None;
            },
            Some((ts, _)) => {
                let e = parse_level_exec(&ts, 0, ts.len(), 0);
                let ghost before = out@;
                out.push(e);
                proof {
                    lemma_sasts_push(before, e);
                    let next = parse_defs(xv, pv, q + 1);
                    if next is Some {
                        assert(sasts_v(before) + (seq![sast_v(e)] + next.unwrap()) =~= sasts_v(out@) + next.unwrap());
                    }
                }
            },
        }
        q = q + 1;
    }
    proof {
        assert(sasts_v(out@) + Seq::<SAstV>::empty() =~= sasts_v(out@));
    }
    Some(out)
}

/// The definitions of `tokens`, as `parse_spec` says. The parentheses of
/// each definition must match.
pub fn parse(tokens: Vec<ValidToken<AbsoluteIndent>>) -> (r: Vec<SpannedFixAst>)
    requires
        parse_spec(tokens_v(tokens@)) is Some,
    ensures
        sasts_v(r@) == parse_spec(tokens_v(tokens@)).unwrap(),
{
    match try_parse(&tokens) {
        Some(v) => v,
        None => Vec::new(),
    }
}

/// The parsing pass.
pub struct Parser;

impl Parser {
    /// Parses the valid tokens of a file; the parentheses of each definition
    /// must match.
    pub fn run(input: Vec<ValidToken<AbsoluteIndent>>) -> (r: Result<Vec<SpannedFixAst>, AstError>)
        requires
            parse_spec(tokens_v(input@)) is Some,
        ensures
            r matches Ok(v) && sasts_v(v@) == parse_spec(tokens_v(input@)).unwrap(),
    {
        Ok(parse(input))
    }
}

} // verus!
