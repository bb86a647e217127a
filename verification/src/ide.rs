//! What an editor asks of a file: the kind of each token for highlighting,
//! and the source region of a node of the surface tree.
use vstd::prelude::*;

use crate::ast::{SAstV, SpannedFixAst, sasts_v};
use crate::defs::{search_defs_from, search_defs_ref, traverse_defs_ref, traverse_defs_spec, Located, LocatedV, NamedDefs, NamedDefV};
use crate::desugar::{LTm, SpannedNamedNode};
use crate::positions::{paths_v, search_list, search_list_from};
use crate::tokens::{
    count_valid, lemma_count_valid_mono, lemma_valid_pos_unique, spanned_views, valid_pos, GToken, GTokenV,
    InertToken, InertTokenV, Span, Spanned, ValidToken, ValidTokenV,
};

verus! {

broadcast use vstd::std_specs::vec::group_vec_axioms;

/// The kind of a token as far as the token alone tells, numbered as in
/// the editor's legend: 0 keyword, 1 operator, 2 variable, 3 type (for
/// numbers), 4 enum (for `Type`), 11 comment, 12 string, 14 error.
pub open spec fn token_index_spec<T>(t: GTokenV<T>) -> Option<u32> {
    match t {
        GTokenV::ValidToken(v) => match v {
            ValidTokenV::Type => Some(4),
            ValidTokenV::Number(_) => Some(3),
            ValidTokenV::Ident(_) => Some(2),
            ValidTokenV::String(_) => Some(12),
            ValidTokenV::Dot | ValidTokenV::Colon | ValidTokenV::Arrow | ValidTokenV::DoubleArrow
            | ValidTokenV::Pipe | ValidTokenV::Comma | ValidTokenV::Eq => Some(1),
            ValidTokenV::Fn | ValidTokenV::Loop | ValidTokenV::While | ValidTokenV::For | ValidTokenV::Break
            | ValidTokenV::Let | ValidTokenV::In => Some(0),
            _ => None,
        },
        GTokenV::InertToken(InertTokenV::Comment(_)) => Some(11),
        GTokenV::InertToken(InertTokenV::Space(_)) => None,
        GTokenV::ErrorToken(_) => Some(14),
    }
}

/// The kind of a token, as `token_index_spec` says.
pub fn token_index<T>(token: GToken<T>) -> (r: Option<u32>)
    ensures
        r == token_index_spec(token@),
{
    match token {
        GToken::ValidToken(v) => match v {
            ValidToken::Type => Some(4),
            ValidToken::Number(_) => Some(3),
            ValidToken::Ident(_) => Some(2),
            ValidToken::String(_) => Some(12),
            ValidToken::Dot | ValidToken::Colon | ValidToken::Arrow | ValidToken::DoubleArrow | ValidToken::Pipe
            | ValidToken::Comma | ValidToken::Eq => Some(1),
            ValidToken::Fn | ValidToken::Loop | ValidToken::While | ValidToken::For | ValidToken::Break
            | ValidToken::Let | ValidToken::In => Some(0),
            _ => None,
        },
        GToken::InertToken(InertToken::Comment(_)) => Some(11),
        GToken::InertToken(InertToken::Space(_)) => None,
        GToken::ErrorToken(_) => Some(14),
    }
}

/// The kind of the node that an identifier became: the first surface
/// path found for valid token `x`, the first node of the definitions made
/// from that path, and 2 when that node is a variable, 8 when it is a
/// binder; `None` when a step finds nothing or the node is of another kind.
pub open spec fn ident_kind(asts: Seq<SAstV>, ds: Seq<NamedDefV>, x: int) -> Option<u32> {
    let ps = search_list_from(asts, x, 0);
    if ps.len() == 0 {
        None
    } else {
        let es = search_defs_from(ds, ps[0], 0);
        if es.len() == 0 {
            None
        } else {
            match traverse_defs_spec(ds, es[0]) {
                Some(LocatedV::Node(n)) => match n {
                    LTm::Var(..) => Some(2),
                    LTm::Lam(..) | LTm::Pi(..) => Some(8),
                    _ => None,
                },
                _ => None,
            }
        }
    }
}

/// The kind of a token in its file: as `token_index_spec` says, but `def`
/// is a keyword and an identifier is looked up (`token_idx` being its
/// number among the valid tokens) as `ident_kind` says.
pub open spec fn semantic_spec<T>(asts: Seq<SAstV>, ds: Seq<NamedDefV>, t: GTokenV<T>, token_idx: Option<usize>) -> Option<u32> {
    match t {
        GTokenV::ValidToken(ValidTokenV::Ident(_)) => match token_idx {
            Some(x) => ident_kind(asts, ds, x as int),
            None => None,
        },
        GTokenV::ValidToken(ValidTokenV::Def) => Some(0),
        _ => token_index_spec(t),
    }
}

/// The kind of `token` for highlighting, as `semantic_spec` says.
pub fn semantic_token<T>(ast: Vec<SpannedFixAst>, expr: NamedDefs, token: Spanned<GToken<T>>, token_idx: Option<usize>) -> (r: Option<u32>)
    ensures
        r == semantic_spec(sasts_v(ast@), expr@, token.0@, token_idx),
{
    let ghost asts = sasts_v(ast@);
    match token.0 {
        GToken::ValidToken(ValidToken::Ident(_)) => {
            let x = match token_idx {
                Some(x) => x,
                None => return None,
            };
            let ps = search_list(ast, x);
            if ps.len() == 0 {
                return None;
            }
            assert(paths_v(ps@)[0] == ps@[0]@);
            let es = search_defs_ref(&expr, &ps[0]);
            if es.len() == 0 {
                return None;
            }
            assert(crate::defs::paths_of(es@)[0] == es@[0]@);
            match traverse_defs_ref(&expr, &es[0]) {
                Some(Located::Node(n)) => match n.0 {
                    SpannedNamedNode::Var { .. } => Some(2),
                    SpannedNamedNode::Lambda { .. } | SpannedNamedNode::Pi { .. } => Some(8),
                    _ => None,
                },
                _ => None,
            }
        },
        GToken::ValidToken(ValidToken::Def) => Some(0),
        t => token_index(t),
    }
}

/// Where the valid token numbered `n` stands among all tokens, as
/// `valid_pos` says.
pub fn nth_valid<T>(tokens: &Vec<Spanned<GToken<T>>>, n: usize) -> (r: Option<usize>)
    ensures
        match (r, valid_pos(spanned_views(tokens@), n as int)) {
            (Some(p), Some(q)) => p == q,
            (None, None) => true,
            _ => false,
        },
{
    let ghost ts = spanned_views(tokens@);
    proof {
        lemma_count_valid_mono(ts);
    }
    let mut count: usize = 0;
    let mut i: usize = 0;
    while i < tokens.len()
        invariant
            ts == spanned_views(tokens@),
            i <= tokens@.len(),
            count == count_valid(ts, i as int),
            count <= i,
            forall|q: int| 0 <= q < i ==> !(#[trigger] ts[q] is ValidToken && count_valid(ts, q) == n),
        decreases tokens@.len() - i,
    {
        assert(ts[i as int] == tokens@[i as int].0@);
        if matches!(tokens[i].0, GToken::ValidToken(_)) {
            if count == n {
                proof {
                    lemma_valid_pos_unique(ts, i as int, n as int);
                }
                return Some(i);
            }
            count = count + 1;
        }
        i = i + 1;
    }
    proof {
        assert(!exists|p: int| 0 <= p < ts.len() && #[trigger] ts[p] is ValidToken && count_valid(ts, p) == n);
    }
    None
}

/// The source region from the start of valid token `span.0` to the end of
/// valid token `span.1`, both ends included as in a syntax tree's span;
/// `None` when either does not exist.
pub open spec fn char_span_spec<T>(tokens: Seq<Spanned<GToken<T>>>, span: (usize, usize)) -> Option<Span> {
    match (valid_pos(spanned_views(tokens), span.0 as int), valid_pos(spanned_views(tokens), span.1 as int)) {
        (Some(s), Some(e)) => Some(Span { start: tokens[s].1.start, end: tokens[e].1.end }),
        _ => None,
    }
}

/// The source region of a syntax tree's span of valid tokens, both ends
/// included, as `char_span_spec` says.
pub fn char_span_from_ast_span<T>(tokens: &Vec<Spanned<GToken<T>>>, span: (usize, usize)) -> (r: Option<Span>)
    ensures
        r == char_span_spec(tokens@, span),
{
    let s = match nth_valid(tokens, span.0) {
        Some(s) => s,
        None => return None,
    };
    let e = match nth_valid(tokens, span.1) {
        Some(e) => e,
        None => return None,
    };
    Some(Span { start: tokens[s].1.start, end: tokens[e].1.end })
}

} // verus!
