//! Small utilities shared by the passes.
use std::rc::Rc;
use vstd::prelude::*;

use crate::ast::{SAstV, SpannedFixAst, sasts_v};
use crate::positions::{paths_v, search_list, search_list_from, straverse_list, traverse_list};
use crate::tokens::{GToken, Spanned, Token, count_valid, spanned_views};

verus! {

/// Returns `v` with `elem` appended.
pub fn push_new<T: Clone>(v: Vec<T>, elem: T) -> (r: Vec<T>)
    ensures
        r@ == v@.push(elem),
{
    let mut v = v;
    v.push(elem);
    v
}

/// Another handle on the value behind `r` (std's `Rc::clone`, which only
/// increments the reference count).
#[verifier::external_body]
pub fn rc_clone<T>(r: &Rc<T>) -> (res: Rc<T>)
    ensures
        res == *r,
{
    Rc::clone(r)
}

/// The position of token `n` among the valid tokens of `v`, when token `n`
/// is valid.
pub fn map_index<T>(v: &[Spanned<GToken<T>>], n: usize) -> (r: Option<usize>)
    ensures
        r == (if n < v@.len() && spanned_views(v@)[n as int] is ValidToken {
            Some(count_valid(spanned_views(v@), n as int) as usize)
        } else {
            None
        }),
{
    let ghost ts = spanned_views(v@);
    if n >= v.len() {
        return None;
    }
    proof {
        assert(ts[n as int] == v@[n as int].0@);
    }
    if !matches!(v[n].0, GToken::ValidToken(_)) {
        return None;
    }
    let mut count: usize = 0;
    let mut i: usize = 0;
    while i < n
        invariant
            i <= n < v@.len(),
            ts == spanned_views(v@),
            count == count_valid(ts, i as int),
            count <= i,
        decreases n - i,
    {
        proof {
            assert(ts[i as int] == v@[i as int].0@);
        }
        if matches!(v[i].0, GToken::ValidToken(_)) {
            count = count + 1;
        }
        i = i + 1;
    }
    Some(count)
}

/// The first token, from the `i`-th on, that ends at or after byte
/// `offset`, or the number of tokens when none does. For tokens in source
/// order (as the lexer gives them) this is where a binary search by end
/// lands.
pub open spec fn token_at_from(tokens: Seq<Spanned<Token>>, offset: int, i: int) -> int
    decreases tokens.len() - i,
{
    if i < 0 || i >= tokens.len() {
        tokens.len() as int
    } else if tokens[i].1.end >= offset {
        i
    } else {
        token_at_from(tokens, offset, i + 1)
    }
}

/// The token under byte `offset`, as `token_at_from` says.
pub fn token_at(tokens: &Vec<Spanned<Token>>, offset: usize) -> (r: usize)
    ensures
        r == token_at_from(tokens@, offset as int, 0),
{
    let mut i: usize = 0;
    while i < tokens.len()
        invariant
            i <= tokens@.len(),
            token_at_from(tokens@, offset as int, 0) == token_at_from(tokens@, offset as int, i as int),
        decreases tokens@.len() - i,
    {
        if tokens[i].1.end >= offset {
            return i;
        }
        i = i + 1;
    }
    i
}

/// The first path, from the `i`-th on, that is not empty.
pub open spec fn first_nonempty(ps: Seq<Seq<usize>>, i: int) -> Option<Seq<usize>>
    decreases ps.len() - i,
{
    if i < 0 || i >= ps.len() {
        None
    } else if ps[i].len() > 0 {
        Some(ps[i])
    } else {
        first_nonempty(ps, i + 1)
    }
}

/// What is known of the character under a position: the token it belongs
/// to, that token's number among the valid tokens, the path of the surface
/// node found for it, and the node at that path.
pub struct CharLookup {
    pub token: usize,
    pub ast_index: Option<usize>,
    pub ast_path: Option<Vec<usize>>,
    pub node: Option<Option<Box<SpannedFixAst>>>,
}

/// The surface path found for valid token `x`, as `first_nonempty` says of
/// what `search_list` finds.
pub open spec fn path_for(asts: Seq<SAstV>, x: Option<usize>) -> Option<Seq<usize>> {
    match x {
        Some(x) => first_nonempty(search_list_from(asts, x as int, 0), 0),
        None => None,
    }
}

/// Looks up the character under byte `offset`: `None` when no token ends
/// at or after it; otherwise the token `token_at` gives, its number among
/// the valid tokens as `map_index` says, the path `path_for` gives, and the
/// node that `traverse_list` finds at that path.
pub fn find_char(tokens: &Vec<Spanned<Token>>, ast: Vec<SpannedFixAst>, offset: usize) -> (r: Option<CharLookup>)
    ensures
        r is None <==> token_at_from(tokens@, offset as int, 0) >= tokens@.len(),
        r matches Some(l) ==> {
            &&& l.token == token_at_from(tokens@, offset as int, 0)
            &&& l.ast_index == (if spanned_views(tokens@)[l.token as int] is ValidToken {
                Some(count_valid(spanned_views(tokens@), l.token as int) as usize)
            } else {
                None::<usize>
            })
            &&& match (l.ast_path, path_for(sasts_v(ast@), l.ast_index)) {
                (Some(p), Some(q)) => p@ == q,
                (None, None) => true,
                _ => false,
            }
            &&& match (l.ast_path, l.node) {
                (Some(p), Some(n)) => match (n, straverse_list(sasts_v(ast@), p@)) {
                    (Some(b), Some(m)) => (*b)@ == m,
                    (None, None) => true,
                    _ => false,
                },
                (None, None) => true,
                _ => false,
            }
        },
{
    let idx = token_at(tokens, offset);
    if idx >= tokens.len() {
        return None;
    }
    let ast_index = map_index(tokens.as_slice(), idx);
    let ghost asts = sasts_v(ast@);
    let ast_path = match ast_index {
        Some(x) => {
            let ps = search_list(clone_asts(&ast), x);
            first_nonempty_path(&ps)
        },
        None => None,
    };
    let node = match &ast_path {
        Some(p) => Some(traverse_list(ast, crate::expr::clone_path(p))),
        None => None,
    };
    Some(CharLookup { token: idx, ast_index, ast_path, node })
}

fn first_nonempty_path(ps: &Vec<Vec<usize>>) -> (r: Option<Vec<usize>>)
    ensures
        match (r, first_nonempty(paths_v(ps@), 0)) {
            (Some(p), Some(q)) => p@ == q,
            (None, None) => true,
            _ => false,
        },
{
    let ghost pv = paths_v(ps@);
    let mut i: usize = 0;
    while i < ps.len()
        invariant
            pv == paths_v(ps@),
            i <= ps@.len(),
            first_nonempty(pv, 0) == first_nonempty(pv, i as int),
        decreases ps@.len() - i,
    {
        assert(pv[i as int] == ps@[i as int]@);
        if ps[i].len() > 0 {
            return Some(crate::expr::clone_path(&ps[i]));
        }
        i = i + 1;
    }
    None
}

/// Copies a list of surface trees.
pub fn clone_asts(v: &Vec<SpannedFixAst>) -> (r: Vec<SpannedFixAst>)
    ensures
        sasts_v(r@) == sasts_v(v@),
{
    let mut r: Vec<SpannedFixAst> = Vec::new();
    let mut i: usize = 0;
    while i < v.len()
        invariant
            i <= v@.len(),
            r@.len() == i,
            forall|j: int| 0 <= j < i ==> #[trigger] r@[j]@ == v@[j]@,
        decreases v@.len() - i,
    {
        r.push(crate::ast::clone_sast(&v[i]));
        i = i + 1;
    }
    assert forall|j: int| 0 <= j < v@.len() implies #[trigger] sasts_v(r@)[j] == sasts_v(v@)[j] by {
        assert(r@[j]@ == v@[j]@);
    }
    assert(sasts_v(r@) =~= sasts_v(v@));
    r
}

} // verus!
