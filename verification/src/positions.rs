//! Positions in the source: byte offsets to lines and columns, and paths in
//! the trees of the passes back to the tokens they came from.
use vstd::prelude::*;
use vstd::string::*;

use crate::ast::{AstKind, SAstV, SpannedAst, SpannedFixAst, sast_v, sasts_v};
use crate::desugar::{LTm, SpannedNamedExpr, SpannedNamedNode, loc_of, ltms_of};
use crate::expr::clone_path;
use crate::tokens::Span;

verus! {

broadcast use vstd::std_specs::vec::group_vec_axioms;

/// A start and an end position, each a line and a column counted from 1.
pub type LineRange = ((usize, usize), (usize, usize));

/// The number of line breaks among the first `i` bytes.
pub open spec fn newlines_before(b: Seq<u8>, i: int) -> nat
    decreases i,
{
    if i <= 0 {
        0
    } else {
        newlines_before(b, i - 1) + if b[i - 1] == 10u8 { 1nat } else { 0nat }
    }
}

/// Where the line of byte `i` starts: just after the last line break
/// before `i`, or 0.
pub open spec fn line_start(b: Seq<u8>, i: int) -> int
    decreases i,
{
    if i <= 0 {
        0
    } else if b[i - 1] == 10u8 {
        i
    } else {
        line_start(b, i - 1)
    }
}

/// The line and column of byte `i` of `b`, both counted from 1; a line
/// break belongs to the line it ends. `None` past the end.
pub open spec fn line_offset_spec(b: Seq<u8>, i: int) -> Option<(usize, usize)> {
    if 0 <= i < b.len() {
        Some(((newlines_before(b, i) + 1) as usize, (i - line_start(b, i) + 1) as usize))
    } else {
        None
    }
}

proof fn lemma_line_bounds(b: Seq<u8>, i: int)
    requires
        0 <= i,
    ensures
        newlines_before(b, i) <= i,
        0 <= line_start(b, i) <= i,
    decreases i,
{
    if i > 0 {
        lemma_line_bounds(b, i - 1);
    }
}

/// The line and column of byte `index` of `s`, as `line_offset_spec` says;
/// `None` when `index` is not a byte of `s`.
pub fn char_index_to_line_offset(s: &str, index: usize) -> (r: Option<(usize, usize)>)
    ensures
        r == line_offset_spec(s.spec_bytes(), index as int),
{
    let b = s.as_bytes();
    let n = b.len();
    if index >= n {
        return None;
    }
    let mut lines: usize = 0;
    let mut start: usize = 0;
    let mut j: usize = 0;
    while j < index
        invariant
            j <= index < n,
            n == b@.len(),
            b@ == s.spec_bytes(),
            lines == newlines_before(b@, j as int),
            start == line_start(b@, j as int),
        decreases index - j,
    {
        proof {
            lemma_line_bounds(b@, j as int);
        }
        if b[j] == 10u8 {
            lines = lines + 1;
            start = j + 1;
        }
        j = j + 1;
    }
    proof {
        lemma_line_bounds(b@, index as int);
    }
    Some((lines + 1, index - start + 1))
}

/// The lines and columns of the start and the end of `range`.
pub fn range_to_line_offset_range(range: Span, content: &str) -> (r: Option<LineRange>)
    ensures
        r is Some <==> line_offset_spec(content.spec_bytes(), range.start as int) is Some
            && line_offset_spec(content.spec_bytes(), range.end as int) is Some,
        r matches Some(lr) ==> Some(lr.0) == line_offset_spec(content.spec_bytes(), range.start as int)
            && Some(lr.1) == line_offset_spec(content.spec_bytes(), range.end as int),
{
    let start = char_index_to_line_offset(content, range.start);
    let end = char_index_to_line_offset(content, range.end);
    match (start, end) {
        (Some(s), Some(e)) => Some((s, e)),
        _ => None,
    }
}

// ---------------------------------------------------------------------------
// Paths in the surface tree
// ---------------------------------------------------------------------------

/// The node at `path[k..]` below `a`: for a group only 0 leads on, for an
/// operator the position of an operand; a leaf ends every path.
pub open spec fn straverse(a: SAstV, path: Seq<usize>, k: int) -> Option<SAstV>
    decreases a, path.len() - k,
{
    if k < 0 || k >= path.len() {
        Some(a)
    } else {
        match a.kind {
            AstKind::Unit | AstKind::Var(_) | AstKind::Type | AstKind::Lit(_) => None,
            AstKind::Group => if path[k] == 0 && a.items.len() > 0 {
                straverse(a.items[0], path, k + 1)
            } else {
                None
            },
            _ => if path[k] < a.items.len() {
                straverse(a.items[path[k] as int], path, k + 1)
            } else {
                None
            },
        }
    }
}

/// The node of a list of definitions at `path`: `path[0]` picks the
/// definition. `None` for the empty path.
pub open spec fn straverse_list(defs: Seq<SAstV>, path: Seq<usize>) -> Option<SAstV> {
    if path.len() == 0 || path[0] >= defs.len() {
        None
    } else {
        straverse(defs[path[0] as int], path, 1)
    }
}

proof fn lemma_sasts(v: Seq<SpannedFixAst>, i: int)
    requires
        0 <= i < v.len(),
    ensures
        sasts_v(v).len() == v.len(),
        sasts_v(v)[i] == v[i]@,
{
}

/// Paths written as sequences.
pub open spec fn paths_v(v: Seq<Vec<usize>>) -> Seq<Seq<usize>> {
    v.map_values(|p: Vec<usize>| p@)
}

/// Whether the token range of `a` holds token `loc`.
pub open spec fn holds(a: SAstV, loc: int) -> bool {
    a.start <= loc <= a.end
}

/// The paths, below the node at path `cur`, of the innermost nodes of `a`
/// whose token range holds token `loc`, children in order: a node that
/// holds `loc` but none of whose children does is found itself.
pub open spec fn search_spec(a: SAstV, loc: int, cur: Seq<usize>) -> Seq<Seq<usize>>
    decreases a, 1nat, 0nat,
{
    if holds(a, loc) {
        let found = match a.kind {
            AstKind::Unit | AstKind::Var(_) | AstKind::Type | AstKind::Lit(_) => Seq::empty(),
            AstKind::Group => if a.items.len() > 0 {
                search_spec(a.items[0], loc, cur.push(0))
            } else {
                Seq::empty()
            },
            _ => search_items(a, loc, cur, a.items.len() as int),
        };
        if found.len() == 0 {
            seq![cur]
        } else {
            found
        }
    } else {
        Seq::empty()
    }
}

/// What `search_spec` finds below the first `n` children of `a`, in order.
pub open spec fn search_items(a: SAstV, loc: int, cur: Seq<usize>, n: int) -> Seq<Seq<usize>>
    decreases a, 0nat, n,
{
    if n <= 0 || n > a.items.len() {
        Seq::empty()
    } else {
        search_items(a, loc, cur, n - 1) + search_spec(a.items[n - 1], loc, cur.push((n - 1) as usize))
    }
}

/// The paths that `search_spec` finds in the first definition that holds
/// token `loc`, starting with that definition's position; none when no
/// definition holds it.
pub open spec fn search_list_from(defs: Seq<SAstV>, loc: int, i: int) -> Seq<Seq<usize>>
    decreases defs.len() - i,
{
    if i < 0 || i >= defs.len() {
        Seq::empty()
    } else if search_spec(defs[i], loc, seq![i as usize]).len() > 0 {
        search_spec(defs[i], loc, seq![i as usize])
    } else {
        search_list_from(defs, loc, i + 1)
    }
}

proof fn lemma_paths_append(a: Seq<Vec<usize>>, b: Seq<Vec<usize>>)
    ensures
        paths_v(a + b) == paths_v(a) + paths_v(b),
{
    assert(paths_v(a + b) =~= paths_v(a) + paths_v(b));
}

/// The paths of the innermost nodes of `ast` that hold token `loc`, as
/// `search_spec` says; `cur_loc` is the path of `ast` itself.
pub fn search(ast: SpannedFixAst, loc: usize, cur_loc: Vec<usize>) -> (r: Vec<Vec<usize>>)
    ensures
        paths_v(r@) == search_spec(ast@, loc as int, cur_loc@),
{
    search_ref(&ast, loc, &cur_loc)
}

#[verifier::loop_isolation(false)]
fn search_ref(a: &SpannedFixAst, loc: usize, cur: &Vec<usize>) -> (r: Vec<Vec<usize>>)
    ensures
        paths_v(r@) == search_spec(a@, loc as int, cur@),
    decreases a,
{
    if !(a.1.0 <= loc && loc <= a.1.1) {
        assert(paths_v(Seq::<Vec<usize>>::empty()) =~= Seq::<Seq<usize>>::empty());
        return Vec::new();
    }
    let ghost av = a@;
    let mut found: Vec<Vec<usize>> = match &a.0 {
        SpannedAst::Unit | SpannedAst::Var(_) | SpannedAst::Type | SpannedAst::Lit(_) => Vec::new(),
        SpannedAst::Group(inner) => {
            let c = crate::helper::push_new(clone_path(cur), 0);
            search_ref(inner, loc, &c)
        },
        SpannedAst::App(items) | SpannedAst::Dot(items) | SpannedAst::Ann(items) | SpannedAst::Binding(items)
        | SpannedAst::Lambda(items) | SpannedAst::Pi(items) | SpannedAst::Tuple(items) | SpannedAst::Sigma(items)
        | SpannedAst::Pipe(items) | SpannedAst::Error(_, items) => {
            assert(av.items == sasts_v(items@));
            assert(av.items.len() == items@.len());
            let mut acc: Vec<Vec<usize>> = Vec::new();
            let mut i: usize = 0;
            assert(paths_v(acc@) =~= search_items(av, loc as int, cur@, 0));
            while i < items.len()
                invariant
                    i <= items@.len(),
                    av.items == sasts_v(items@),
                    av.items.len() == items@.len(),
                    paths_v(acc@) == search_items(av, loc as int, cur@, i as int),
                decreases items@.len() - i,
            {
                proof {
                    lemma_sasts(items@, i as int);
                    assert(decreases_to!(a.0 => *items));
                    assert(decreases_to!(*items => items@));
                    assert(decreases_to!(items@ => items@[i as int]));
                }
                let c = crate::helper::push_new(clone_path(cur), i);
                let mut r = search_ref(&items[i], loc, &c);
                proof {
                    lemma_paths_append(acc@, r@);
                }
                acc.append(&mut r);
                i = i + 1;
            }
            acc
        },
    };
    if found.len() == 0 {
        found.push(clone_path(cur));
        assert(paths_v(found@) =~= seq![cur@]);
    }
    found
}

/// The paths that `search` finds in the first definition holding token
/// `loc`, as `search_list_from` says.
pub fn search_list(ast: Vec<SpannedFixAst>, loc: usize) -> (r: Vec<Vec<usize>>)
    ensures
        paths_v(r@) == search_list_from(sasts_v(ast@), loc as int, 0),
{
    let ghost defs = sasts_v(ast@);
    let mut i: usize = 0;
    while i < ast.len()
        invariant
            i <= ast@.len(),
            defs == sasts_v(ast@),
            defs.len() == ast@.len(),
            search_list_from(defs, loc as int, 0) == search_list_from(defs, loc as int, i as int),
        decreases ast@.len() - i,
    {
        proof {
            lemma_sasts(ast@, i as int);
        }
        let mut start: Vec<usize> = Vec::new();
        start.push(i);
        assert(start@ =~= seq![i]);
        let r = search_ref(&ast[i], loc, &start);
        if r.len() > 0 {
            return r;
        }
        i = i + 1;
    }
    assert(paths_v(Seq::<Vec<usize>>::empty()) =~= Seq::<Seq<usize>>::empty());
    Vec::new()
}

/// Every node below `a` has at most as many children as a `usize` counts.
pub open spec fn fits(a: SAstV) -> bool
    decreases a, 1nat, 0nat,
{
    a.items.len() <= usize::MAX && children_fit(a, a.items.len() as int)
}

/// The first `n` children of `a` fit, as `fits` says.
pub open spec fn children_fit(a: SAstV, n: int) -> bool
    decreases a, 0nat, n,
{
    if n <= 0 || n > a.items.len() {
        true
    } else {
        children_fit(a, n - 1) && fits(a.items[n - 1])
    }
}

proof fn lemma_children_fit(a: SAstV, n: int, i: int)
    requires
        0 <= i < n <= a.items.len(),
        children_fit(a, n),
    ensures
        fits(a.items[i]),
    decreases n,
{
    if i < n - 1 {
        lemma_children_fit(a, n - 1, i);
    }
}

proof fn lemma_children_fit_from(a: SAstV, n: int)
    requires
        0 <= n <= a.items.len(),
        forall|i: int| 0 <= i < n ==> #[trigger] fits(a.items[i]),
    ensures
        children_fit(a, n),
    decreases n,
{
    if n > 0 {
        lemma_children_fit_from(a, n - 1);
        assert(fits(a.items[n - 1]));
    }
}

proof fn lemma_fits(x: SpannedFixAst)
    ensures
        fits(sast_v(x)),
    decreases x,
{
    match x.0 {
        SpannedAst::Group(b) => {
            lemma_fits(*b);
            assert(sast_v(x).items =~= seq![sast_v(*b)]);
            assert(sast_v(x).items[0] == sast_v(*b));
            lemma_children_fit_from(sast_v(x), 1);
        },
        SpannedAst::App(v) | SpannedAst::Dot(v) | SpannedAst::Ann(v) | SpannedAst::Binding(v)
        | SpannedAst::Lambda(v) | SpannedAst::Pi(v) | SpannedAst::Tuple(v) | SpannedAst::Sigma(v)
        | SpannedAst::Pipe(v) | SpannedAst::Error(_, v) => {
            let av = sast_v(x);
            assert(av.items == sasts_v(v@));
            assert(v@.len() == v.len());
            assert(av.items.len() == v@.len());
            assert forall|i: int| 0 <= i < av.items.len() implies #[trigger] fits(av.items[i]) by {
                assert(decreases_to!(x => v));
                assert(decreases_to!(v => v@));
                assert(decreases_to!(v@ => v@[i]));
                lemma_fits(v@[i]);
                assert(av.items[i] == sast_v(v@[i]));
            }
            lemma_children_fit_from(av, av.items.len() as int);
        },
        _ => {},
    }
}

/// Path `p` extends `cur` and leads from `a` (standing at `cur`) to a node
/// that holds token `loc`.
pub open spec fn reaches(a: SAstV, loc: int, cur: Seq<usize>, p: Seq<usize>) -> bool {
    &&& cur.len() <= p.len()
    &&& p.subrange(0, cur.len() as int) == cur
    &&& straverse(a, p, cur.len() as int) matches Some(n) && holds(n, loc)
}

proof fn lemma_search_reaches(a: SAstV, loc: int, cur: Seq<usize>)
    requires
        fits(a),
    ensures
        search_spec(a, loc, cur).len() > 0 <==> holds(a, loc),
        forall|j: int| 0 <= j < search_spec(a, loc, cur).len() ==> reaches(a, loc, cur, #[trigger] search_spec(a, loc, cur)[j]),
    decreases a, 1nat, 0nat,
{
    if holds(a, loc) {
        let r = search_spec(a, loc, cur);
        let k = cur.len() as int;
        match a.kind {
            AstKind::Unit | AstKind::Var(_) | AstKind::Type | AstKind::Lit(_) => {
                assert(r == seq![cur]);
                assert(cur.subrange(0, k) =~= cur);
            },
            AstKind::Group => {
                if a.items.len() > 0 {
                    let c = cur.push(0);
                    lemma_children_fit(a, a.items.len() as int, 0);
                    lemma_search_reaches(a.items[0], loc, c);
                    let inner = search_spec(a.items[0], loc, c);
                    if inner.len() == 0 {
                        assert(cur.subrange(0, k) =~= cur);
                    } else {
                        assert forall|j: int| 0 <= j < r.len() implies reaches(a, loc, cur, #[trigger] r[j]) by {
                            let p = r[j];
                            assert(reaches(a.items[0], loc, c, p));
                            assert(p.subrange(0, k + 1) == c);
                            assert(p.subrange(0, k) =~= p.subrange(0, k + 1).subrange(0, k));
                            assert(cur =~= c.subrange(0, k));
                            assert(p[k] == p.subrange(0, k + 1)[k]);
                        }
                    }
                } else {
                    assert(cur.subrange(0, k) =~= cur);
                }
            },
            _ => {
                let n = a.items.len() as int;
                lemma_search_items_reaches(a, loc, cur, n);
                let inner = search_items(a, loc, cur, n);
                if inner.len() == 0 {
                    assert(cur.subrange(0, k) =~= cur);
                } else {
                    assert forall|j: int| 0 <= j < r.len() implies reaches(a, loc, cur, #[trigger] r[j]) by {
                        assert(inner[j] == r[j]);
                    }
                }
            },
        }
    }
}

/// Every path that `search_items` finds extends `cur` by the position of
/// a child among the first `n`, and leads from that child to a node that
/// holds `loc`.
proof fn lemma_search_items_reaches(a: SAstV, loc: int, cur: Seq<usize>, n: int)
    requires
        fits(a),
        a.kind != AstKind::Group,
        !(a.kind is Unit || a.kind is Var || a.kind is Type || a.kind is Lit),
    ensures
        forall|j: int| 0 <= j < search_items(a, loc, cur, n).len() ==> reaches(a, loc, cur, #[trigger] search_items(a, loc, cur, n)[j]),
    decreases a, 0nat, n,
{
    if 0 < n <= a.items.len() {
        let k = cur.len() as int;
        let c = cur.push((n - 1) as usize);
        lemma_search_items_reaches(a, loc, cur, n - 1);
        lemma_children_fit(a, a.items.len() as int, n - 1);
        lemma_search_reaches(a.items[n - 1], loc, c);
        let front = search_items(a, loc, cur, n - 1);
        let back = search_spec(a.items[n - 1], loc, c);
        let r = search_items(a, loc, cur, n);
        assert(r == front + back);
        assert forall|j: int| 0 <= j < r.len() implies reaches(a, loc, cur, #[trigger] r[j]) by {
            if j >= front.len() {
                let p = r[j];
                assert(p == back[j - front.len()]);
                assert(reaches(a.items[n - 1], loc, c, p));
                assert(p.subrange(0, k + 1) == c);
                assert(p.subrange(0, k) =~= p.subrange(0, k + 1).subrange(0, k));
                assert(cur =~= c.subrange(0, k));
                assert(p[k] == p.subrange(0, k + 1)[k]);
            } else {
                assert(r[j] == front[j]);
            }
        }
    }
}

/// What `search_list` finds are paths to definition nodes that hold token
/// `loc`: each leads, by `traverse_list`, to such a node. Nothing is found
/// exactly when no definition holds `loc`.
pub proof fn lemma_search_list_reaches(ast: Seq<SpannedFixAst>, loc: int)
    requires
        ast.len() <= usize::MAX,
    ensures
        search_list_from(sasts_v(ast), loc, 0).len() == 0 <==> forall|i: int|
            0 <= i < ast.len() ==> !holds(#[trigger] sasts_v(ast)[i], loc),
        forall|j: int| 0 <= j < search_list_from(sasts_v(ast), loc, 0).len() ==>
            (straverse_list(sasts_v(ast), #[trigger] search_list_from(sasts_v(ast), loc, 0)[j]) matches Some(n)
                && holds(n, loc)),
{
    let defs = sasts_v(ast);
    assert forall|i: int| 0 <= i < defs.len() implies #[trigger] fits(defs[i]) by {
        lemma_fits(ast[i]);
    }
    lemma_search_list_from(defs, loc, 0);
}

proof fn lemma_search_list_from(defs: Seq<SAstV>, loc: int, i: int)
    requires
        0 <= i,
        defs.len() <= usize::MAX,
        forall|q: int| 0 <= q < defs.len() ==> #[trigger] fits(defs[q]),
    ensures
        search_list_from(defs, loc, i).len() == 0 <==> forall|q: int| i <= q < defs.len() ==> !holds(#[trigger] defs[q], loc),
        forall|j: int| 0 <= j < search_list_from(defs, loc, i).len() ==>
            (straverse_list(defs, #[trigger] search_list_from(defs, loc, i)[j]) matches Some(n) && holds(n, loc)),
    decreases defs.len() - i,
{
    if i < defs.len() {
        let c = seq![i as usize];
        lemma_search_reaches(defs[i], loc, c);
        lemma_search_list_from(defs, loc, i + 1);
        let r = search_spec(defs[i], loc, c);
        if r.len() > 0 {
            assert forall|j: int| 0 <= j < r.len() implies (straverse_list(defs, #[trigger] r[j]) matches Some(n) && holds(n, loc)) by {
                let p = r[j];
                assert(reaches(defs[i], loc, c, p));
                assert(p[0] == p.subrange(0, 1)[0]);
            }
        }
    }
}

/// The token range of the node at `path[k..]` below `a`.
#[verifier::loop_isolation(false)]
fn span_at(a: &SpannedFixAst, path: &Vec<usize>, k: usize) -> (r: Option<(usize, usize)>)
    requires
        k <= path@.len(),
    ensures
        match (r, straverse(a@, path@, k as int)) {
            (Some(s), Some(n)) => s.0 == n.start && s.1 == n.end,
            (None, None) => true,
            _ => false,
        },
    decreases a, path@.len() - k,
{
    if k >= path.len() {
        return Some(a.1);
    }
    let cur = path[k];
    match &a.0 {
        SpannedAst::Unit | SpannedAst::Var(_) | SpannedAst::Type | SpannedAst::Lit(_) => None,
        SpannedAst::Group(inner) => {
            if cur == 0 {
                span_at(inner, path, k + 1)
            } else {
                None
            }
        },
        SpannedAst::App(items) | SpannedAst::Dot(items) | SpannedAst::Ann(items) | SpannedAst::Binding(items)
        | SpannedAst::Lambda(items) | SpannedAst::Pi(items) | SpannedAst::Tuple(items) | SpannedAst::Sigma(items)
        | SpannedAst::Pipe(items) | SpannedAst::Error(_, items) => {
            proof {
                if cur < items.len() {
                    lemma_sasts(items@, cur as int);
                } else {
                    assert(sasts_v(items@).len() == items@.len());
                }
            }
            if cur < items.len() {
                proof {
                    assert(decreases_to!(a.0 => *items));
                    assert(decreases_to!(*items => items@));
                    assert(decreases_to!(items@ => items@[cur as int]));
                }
                span_at(&items[cur], path, k + 1)
            } else {
                None
            }
        },
    }
}

/// The token range of the definition node at `path`.
pub fn span_at_list(defs: &Vec<SpannedFixAst>, path: &Vec<usize>) -> (r: Option<(usize, usize)>)
    ensures
        match (r, straverse_list(sasts_v(defs@), path@)) {
            (Some(s), Some(n)) => s.0 == n.start && s.1 == n.end,
            (None, None) => true,
            _ => false,
        },
{
    if path.len() == 0 {
        return None;
    }
    let i = path[0];
    if i >= defs.len() {
        proof {
            assert(sasts_v(defs@).len() == defs@.len());
        }
        return None;
    }
    proof {
        lemma_sasts(defs@, i as int);
    }
    span_at(&defs[i], path, 1)
}

/// The node at `path[k..]` below `a`, as `straverse` says.
#[verifier::loop_isolation(false)]
fn traverse_from(a: SpannedFixAst, path: &Vec<usize>, k: usize) -> (r: Option<Box<SpannedFixAst>>)
    requires
        k <= path@.len(),
    ensures
        match (r, straverse(a@, path@, k as int)) {
            (Some(n), Some(m)) => (*n)@ == m,
            (None, None) => true,
            _ => false,
        },
    decreases a, path@.len() - k,
{
    if k >= path.len() {
        return Some(Box::new(a));
    }
    let cur = path[k];
    let ghost av = a@;
    let SpannedFixAst(node, span) = a;
    match node {
        SpannedAst::Unit | SpannedAst::Var(_) | SpannedAst::Type | SpannedAst::Lit(_) => None,
        SpannedAst::Group(inner) => {
            if cur == 0 {
                traverse_from(*inner, path, k + 1)
            } else {
                None
            }
        },
        SpannedAst::App(items) | SpannedAst::Dot(items) | SpannedAst::Ann(items) | SpannedAst::Binding(items)
        | SpannedAst::Lambda(items) | SpannedAst::Pi(items) | SpannedAst::Tuple(items) | SpannedAst::Sigma(items)
        | SpannedAst::Pipe(items) | SpannedAst::Error(_, items) => {
            proof {
                assert(av.items == sasts_v(items@));
                if cur < items.len() {
                    lemma_sasts(items@, cur as int);
                } else {
                    assert(sasts_v(items@).len() == items@.len());
                }
            }
            if cur < items.len() {
                let ghost iv = items@;
                let mut items = items;
                let x = items.remove(cur);
                proof {
                    assert(x == iv[cur as int]);
                    assert(decreases_to!(a => iv));
                    assert(decreases_to!(iv => iv[cur as int]));
                }
                traverse_from(x, path, k + 1)
            } else {
                None
            }
        },
    }
}

impl crate::Traverse for SpannedFixAst {
    type Span = Vec<usize>;

    /// The node at `path` below `self`, as `straverse` says.
    fn traverse(self, span: Vec<usize>) -> (r: Option<Box<SpannedFixAst>>)
        ensures
            match (r, straverse(self@, span@, 0)) {
                (Some(n), Some(m)) => (*n)@ == m,
                (None, None) => true,
                _ => false,
            },
    {
        traverse_from(self, &span, 0)
    }
}

/// The node of a list of definitions at `path`, as `straverse_list` says.
pub fn traverse_list(ast: Vec<SpannedFixAst>, path: Vec<usize>) -> (r: Option<Box<SpannedFixAst>>)
    ensures
        match (r, straverse_list(sasts_v(ast@), path@)) {
            (Some(n), Some(m)) => (*n)@ == m,
            (None, None) => true,
            _ => false,
        },
{
    if path.len() == 0 {
        return None;
    }
    let i = path[0];
    if i >= ast.len() {
        proof {
            assert(sasts_v(ast@).len() == ast@.len());
        }
        return None;
    }
    proof {
        lemma_sasts(ast@, i as int);
    }
    let ghost av = ast@;
    let mut ast = ast;
    let x = ast.remove(i);
    assert(x == av[i as int]);
    traverse_from(x, &path, 1)
}

// ---------------------------------------------------------------------------
// Paths in the desugared tree
// ---------------------------------------------------------------------------

/// The surface path recorded at `path[k..]` below `t`: 0 and 1 lead into
/// an application, 1 and 2 into the type and body of a binder, and 0 stops
/// at a binder's name (the path the name was written at); the position leads into the
/// items of an error node.
pub open spec fn loc_at_spec(t: LTm, path: Seq<usize>, k: int) -> Option<Seq<usize>>
    decreases t, path.len() - k,
{
    if k < 0 || k >= path.len() {
        Some(loc_of(t))
    } else {
        match t {
            LTm::App(f, a, _) => if path[k] == 0 {
                loc_at_spec(*f, path, k + 1)
            } else if path[k] == 1 {
                loc_at_spec(*a, path, k + 1)
            } else {
                None
            },
            LTm::Lam(n, p, b, _) | LTm::Pi(n, p, b, _) => if path[k] == 0 {
                Some(n.1)
            } else if path[k] == 1 {
                loc_at_spec(*p, path, k + 1)
            } else if path[k] == 2 {
                loc_at_spec(*b, path, k + 1)
            } else {
                None
            },
            LTm::Fail(_, ts, _) => if path[k] < ts.len() {
                loc_at_spec(ts[path[k] as int], path, k + 1)
            } else {
                None
            },
            _ => None,
        }
    }
}

/// The surface path recorded at `path[k..]` below `e`, as `loc_at_spec`
/// says.
#[verifier::loop_isolation(false)]
pub fn loc_at(e: &SpannedNamedExpr, path: &Vec<usize>, k: usize) -> (r: Option<Vec<usize>>)
    requires
        k <= path@.len(),
    ensures
        match (r, loc_at_spec(e@, path@, k as int)) {
            (Some(l), Some(m)) => l@ == m,
            (None, None) => true,
            _ => false,
        },
    decreases e, path@.len() - k,
{
    if k >= path.len() {
        proof {
            crate::desugar::lemma_loc_pub(*e);
        }
        return Some(crate::expr::clone_path(&e.1));
    }
    let cur = path[k];
    match &e.0 {
        SpannedNamedNode::App { func, arg } => {
            if cur == 0 {
                loc_at(func, path, k + 1)
            } else if cur == 1 {
                loc_at(arg, path, k + 1)
            } else {
                None
            }
        },
        SpannedNamedNode::Lambda { name, param_ty, body: rest } | SpannedNamedNode::Pi { name, param_ty, ret_ty: rest } => {
            if cur == 0 {
                Some(crate::expr::clone_path(&name.1))
            } else if cur == 1 {
                loc_at(param_ty, path, k + 1)
            } else if cur == 2 {
                loc_at(rest, path, k + 1)
            } else {
                None
            }
        },
        SpannedNamedNode::Error(_, items) => {
            proof {
                assert(ltms_of(items@).len() == items@.len());
            }
            if cur < items.len() {
                proof {
                    assert(ltms_of(items@)[cur as int] == ltm_of_box(items@[cur as int]));
                    assert(decreases_to!(e.0 => *items));
                    assert(decreases_to!(*items => items@));
                    assert(decreases_to!(items@ => items@[cur as int]));
                }
                loc_at(&items[cur], path, k + 1)
            } else {
                None
            }
        },
        _ => None,
    }
}

pub open spec fn ltm_of_box(b: Box<SpannedNamedExpr>) -> LTm {
    (*b)@
}

} // verus!
