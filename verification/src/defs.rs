//! Definitions of a module with the paths they were desugared from, and the
//! queries that go from a path in the surface tree to the nodes of the
//! desugared expressions made from it, and back.
use vstd::prelude::*;

use crate::desugar::{clone_spanned, loc_of, LName, LTm, Name, SpannedNamedExpr, SpannedNamedNode};
use crate::expr::{clone_path, VarKind};
use crate::text::{cat, owned};

verus! {

broadcast use vstd::std_specs::vec::group_vec_axioms;

/// What a path in a desugared expression leads to: a node, or the name of a
/// binder together with the path of the binder.
pub enum Located {
    Node(SpannedNamedExpr),
    Name(String, Vec<usize>),
}

pub enum LocatedV {
    Node(LTm),
    Name(Seq<char>, Seq<usize>),
}

impl View for Located {
    type V = LocatedV;

    open spec fn view(&self) -> LocatedV {
        match self {
            Located::Node(e) => LocatedV::Node(e@),
            Located::Name(s, l) => LocatedV::Name(s@, l@),
        }
    }
}

/// How a binder name is written: a name as it is, an anonymous binder's
/// hint after a `$`.
pub open spec fn name_text(n: Name) -> Seq<char> {
    match n {
        VarKind::Named(s) => s,
        VarKind::Idx(s) => "$"@ + s,
    }
}

/// Writes a binder name as `name_text` says.
pub fn binder_text(n: &VarKind<String, String>) -> (r: String)
    ensures
        r@ == name_text(n@),
{
    match n {
        VarKind::Named(s) => s.clone(),
        VarKind::Idx(s) => {
            proof {
                reveal_strlit("$");
            }
            cat(owned("$"), s.as_str())
        },
    }
}

/// What `path[k..]` leads to below `t`: the children of an application
/// are numbered 0 and 1, those of a binder 1 (its type) and 2 (its body),
/// while 0 stops at the binder's name whatever follows; the items of an
/// error node are numbered by position. A leaf ends every path.
pub open spec fn ltraverse(t: LTm, path: Seq<usize>, k: int) -> Option<LocatedV>
    decreases t, path.len() - k,
{
    if k < 0 || k >= path.len() {
        Some(LocatedV::Node(t))
    } else {
        match t {
            LTm::App(f, a, _) => if path[k] == 0 {
                ltraverse(*f, path, k + 1)
            } else if path[k] == 1 {
                ltraverse(*a, path, k + 1)
            } else {
                None
            },
            LTm::Lam(n, p, b, l) => if path[k] == 0 {
                Some(LocatedV::Name(name_text(n.0), n.1))
            } else if path[k] == 1 {
                ltraverse(*p, path, k + 1)
            } else if path[k] == 2 {
                ltraverse(*b, path, k + 1)
            } else {
                None
            },
            LTm::Pi(n, p, r, l) => if path[k] == 0 {
                Some(LocatedV::Name(name_text(n.0), n.1))
            } else if path[k] == 1 {
                ltraverse(*p, path, k + 1)
            } else if path[k] == 2 {
                ltraverse(*r, path, k + 1)
            } else {
                None
            },
            LTm::Fail(_, ts, _) => if path[k] < ts.len() {
                ltraverse(ts[path[k] as int], path, k + 1)
            } else {
                None
            },
            _ => None,
        }
    }
}

pub open spec fn located_opt(r: Option<Located>) -> Option<LocatedV> {
    match r {
        Some(x) => Some(x@),
        None => None,
    }
}

impl SpannedNamedExpr {
    /// What `path` leads to below `self`, as `ltraverse` says.
    pub fn traverse(self, path: Vec<usize>) -> (r: Option<Located>)
        ensures
            located_opt(r) == ltraverse(self@, path@, 0),
    {
        traverse_at(self, &path, 0)
    }
}

#[verifier::loop_isolation(false)]
fn traverse_at(e: SpannedNamedExpr, path: &Vec<usize>, k: usize) -> (r: Option<Located>)
    requires
        k <= path@.len(),
    ensures
        located_opt(r) == ltraverse(e@, path@, k as int),
    decreases e, path@.len() - k,
{
    if k >= path.len() {
        return Some(Located::Node(e));
    }
    let cur = path[k];
    let ghost ev = e@;
    let SpannedNamedExpr(node, loc) = e;
    match node {
        SpannedNamedNode::App { func, arg } => {
            if cur == 0 {
                traverse_at(*func, path, k + 1)
            } else if cur == 1 {
                traverse_at(*arg, path, k + 1)
            } else {
                None
            }
        },
        SpannedNamedNode::Lambda { name, param_ty, body } => {
            if cur == 0 {
                Some(Located::Name(binder_text(&name.0), name.1))
            } else if cur == 1 {
                traverse_at(*param_ty, path, k + 1)
            } else if cur == 2 {
                traverse_at(*body, path, k + 1)
            } else {
                None
            }
        },
        SpannedNamedNode::Pi { name, param_ty, ret_ty } => {
            if cur == 0 {
                Some(Located::Name(binder_text(&name.0), name.1))
            } else if cur == 1 {
                traverse_at(*param_ty, path, k + 1)
            } else if cur == 2 {
                traverse_at(*ret_ty, path, k + 1)
            } else {
                None
            }
        },
        SpannedNamedNode::Error(_, items) => {
            let ghost iv = items@;
            assert(ev == LTm::Fail(ev->Fail_0, crate::desugar::ltms_of(iv), loc@));
            if cur < items.len() {
                let mut items = items;
                let x = items.remove(cur);
                proof {
                    assert(x == iv[cur as int]);
                    assert(decreases_to!(node => iv));
                    assert(decreases_to!(iv => iv[cur as int]));
                }
                traverse_at(*x, path, k + 1)
            } else {
                None
            }
        },
        _ => None,
    }
}

/// Whether `a` is a prefix of `b`.
pub open spec fn is_prefix(a: Seq<usize>, b: Seq<usize>) -> bool {
    a.len() <= b.len() && b.subrange(0, a.len() as int) == a
}

/// The paths, below the node at path `cur`, of the nodes of `t` that were
/// made from the surface node at path `loc`: a node made from `loc` is found
/// itself; below a node made from an ancestor of `loc` the children are
/// searched in order (type before body), then the binder's name, at child
/// 0, is found when it was written at `loc`.
pub open spec fn lsearch(t: LTm, loc: Seq<usize>, cur: Seq<usize>) -> Seq<Seq<usize>>
    decreases t, 1nat, 0nat,
{
    if is_prefix(loc_of(t), loc) {
        if loc.len() == loc_of(t).len() {
            seq![cur]
        } else {
            match t {
                LTm::App(f, a, _) => lsearch(*f, loc, cur.push(0)) + lsearch(*a, loc, cur.push(1)),
                LTm::Lam(n, p, b, _) => lsearch(*p, loc, cur.push(1)) + lsearch(*b, loc, cur.push(2)) + name_hit(
                    n,
                    loc,
                    cur,
                ),
                LTm::Pi(n, p, r, _) => lsearch(*p, loc, cur.push(1)) + lsearch(*r, loc, cur.push(2)) + name_hit(
                    n,
                    loc,
                    cur,
                ),
                LTm::Fail(_, ts, _) => lsearch_items(t, loc, cur, ts.len() as int),
                _ => Seq::empty(),
            }
        }
    } else {
        Seq::empty()
    }
}

/// The path of a binder's name, child 0 of the binder at `cur`, when the
/// name was written at `loc`.
pub open spec fn name_hit(n: LName, loc: Seq<usize>, cur: Seq<usize>) -> Seq<Seq<usize>> {
    if n.1 == loc {
        seq![cur.push(0)]
    } else {
        Seq::empty()
    }
}

/// What `lsearch` finds below the first `n` items of an error node.
pub open spec fn lsearch_items(t: LTm, loc: Seq<usize>, cur: Seq<usize>, n: int) -> Seq<Seq<usize>>
    decreases t, 0nat, n,
{
    match t {
        LTm::Fail(_, ts, _) => if n <= 0 || n > ts.len() {
            Seq::empty()
        } else {
            lsearch_items(t, loc, cur, n - 1) + lsearch(ts[n - 1], loc, cur.push((n - 1) as usize))
        },
        _ => Seq::empty(),
    }
}

/// Paths written as sequences.
pub open spec fn paths_of(v: Seq<Vec<usize>>) -> Seq<Seq<usize>> {
    v.map_values(|p: Vec<usize>| p@)
}

proof fn lemma_paths_of_append(a: Seq<Vec<usize>>, b: Seq<Vec<usize>>)
    ensures
        paths_of(a + b) == paths_of(a) + paths_of(b),
{
    assert(paths_of(a + b) =~= paths_of(a) + paths_of(b));
}

/// Whether `a` is a prefix of `b`.
pub fn starts_with(b: &Vec<usize>, a: &Vec<usize>) -> (r: bool)
    ensures
        r == is_prefix(a@, b@),
{
    if a.len() > b.len() {
        return false;
    }
    let mut i: usize = 0;
    while i < a.len()
        invariant
            a@.len() <= b@.len(),
            i <= a@.len(),
            forall|j: int| 0 <= j < i ==> a@[j] == b@[j],
        decreases a@.len() - i,
    {
        if a[i] != b[i] {
            assert(b@.subrange(0, a@.len() as int)[i as int] != a@[i as int]);
            return false;
        }
        i = i + 1;
    }
    assert(b@.subrange(0, a@.len() as int) =~= a@);
    true
}

/// The paths of the nodes of `expr` made from the surface node at `loc`,
/// as `lsearch` says; `cur_loc` is the path of `expr` itself.
pub fn search(expr: SpannedNamedExpr, loc: Vec<usize>, cur_loc: Vec<usize>) -> (r: Vec<Vec<usize>>)
    ensures
        paths_of(r@) == lsearch(expr@, loc@, cur_loc@),
{
    search_ref(&expr, &loc, &cur_loc)
}

fn name_hit_exec(name_loc: &Vec<usize>, loc: &Vec<usize>, cur: &Vec<usize>) -> (r: Vec<Vec<usize>>)
    ensures
        paths_of(r@) == (if name_loc@ == loc@ {
            seq![cur@.push(0)]
        } else {
            Seq::<Seq<usize>>::empty()
        }),
{
    let mut r: Vec<Vec<usize>> = Vec::new();
    if name_loc.len() == loc.len() && starts_with(loc, name_loc) {
        assert(loc@.subrange(0, name_loc@.len() as int) =~= loc@);
        r.push(crate::helper::push_new(clone_path(cur), 0));
        assert(paths_of(r@) =~= seq![cur@.push(0)]);
    } else {
        assert(name_loc@ != loc@) by {
            if name_loc@ == loc@ {
                assert(loc@.subrange(0, name_loc@.len() as int) =~= loc@);
            }
        }
        assert(paths_of(r@) =~= Seq::<Seq<usize>>::empty());
    }
    r
}

fn two(a: Vec<Vec<usize>>, b: Vec<Vec<usize>>) -> (r: Vec<Vec<usize>>)
    ensures
        paths_of(r@) == paths_of(a@) + paths_of(b@),
{
    let mut a = a;
    let mut b = b;
    proof {
        lemma_paths_of_append(a@, b@);
    }
    a.append(&mut b);
    a
}

#[verifier::loop_isolation(false)]
fn search_ref(e: &SpannedNamedExpr, loc: &Vec<usize>, cur: &Vec<usize>) -> (r: Vec<Vec<usize>>)
    ensures
        paths_of(r@) == lsearch(e@, loc@, cur@),
    decreases e,
{
    proof {
        crate::desugar::lemma_loc_pub(*e);
    }
    if !starts_with(loc, &e.1) {
        assert(paths_of(Seq::<Vec<usize>>::empty()) =~= Seq::<Seq<usize>>::empty());
        return Vec::new();
    }
    if loc.len() == e.1.len() {
        let mut r: Vec<Vec<usize>> = Vec::new();
        r.push(clone_path(cur));
        assert(paths_of(r@) =~= seq![cur@]);
        return r;
    }
    let ghost ev = e@;
    match &e.0 {
        SpannedNamedNode::App { func, arg } => {
            let a = search_ref(func, loc, &crate::helper::push_new(clone_path(cur), 0));
            let b = search_ref(arg, loc, &crate::helper::push_new(clone_path(cur), 1));
            two(a, b)
        },
        SpannedNamedNode::Lambda { name, param_ty, body } => {
            let a = search_ref(param_ty, loc, &crate::helper::push_new(clone_path(cur), 1));
            let b = search_ref(body, loc, &crate::helper::push_new(clone_path(cur), 2));
            two(two(a, b), name_hit_exec(&name.1, loc, cur))
        },
        SpannedNamedNode::Pi { name, param_ty, ret_ty } => {
            let a = search_ref(param_ty, loc, &crate::helper::push_new(clone_path(cur), 1));
            let b = search_ref(ret_ty, loc, &crate::helper::push_new(clone_path(cur), 2));
            two(two(a, b), name_hit_exec(&name.1, loc, cur))
        },
        SpannedNamedNode::Error(_, items) => {
            let ghost ts = crate::desugar::ltms_of(items@);
            assert(ev == LTm::Fail(ev->Fail_0, ts, e.1@));
            let mut acc: Vec<Vec<usize>> = Vec::new();
            let mut i: usize = 0;
            assert(paths_of(acc@) =~= lsearch_items(ev, loc@, cur@, 0));
            while i < items.len()
                invariant
                    i <= items@.len(),
                    ts.len() == items@.len(),
                    paths_of(acc@) == lsearch_items(ev, loc@, cur@, i as int),
                decreases items@.len() - i,
            {
                proof {
                    assert(decreases_to!(e.0 => *items));
                    assert(decreases_to!(*items => items@));
                    assert(decreases_to!(items@ => items@[i as int]));
                    assert(ts[i as int] == items@[i as int]@);
                }
                let r = search_ref(&items[i], loc, &crate::helper::push_new(clone_path(cur), i));
                acc = two(acc, r);
                i = i + 1;
            }
            acc
        },
        _ => {
            assert(paths_of(Seq::<Vec<usize>>::empty()) =~= Seq::<Seq<usize>>::empty());
            Vec::new()
        },
    }
}

/// A definition: its name with the path of the name, its type when it was
/// given one, and its value.
pub struct NamedDef {
    pub name: (String, Vec<usize>),
    pub ty: Option<SpannedNamedExpr>,
    pub val: SpannedNamedExpr,
}

/// The definitions of a module, in order.
pub struct NamedDefs(pub Vec<NamedDef>);

pub struct NamedDefV {
    pub name: Seq<char>,
    pub name_loc: Seq<usize>,
    pub ty: Option<LTm>,
    pub val: LTm,
}

impl View for NamedDef {
    type V = NamedDefV;

    open spec fn view(&self) -> NamedDefV {
        NamedDefV {
            name: self.name.0@,
            name_loc: self.name.1@,
            ty: match self.ty {
                Some(t) => Some(t@),
                None => None,
            },
            val: self.val@,
        }
    }
}

impl View for NamedDefs {
    type V = Seq<NamedDefV>;

    open spec fn view(&self) -> Seq<NamedDefV> {
        self.0@.map_values(|d: NamedDef| d@)
    }
}

/// What `lsearch` finds in definition `i`: the name itself (path `[i, 0]`)
/// when it was written at `loc`, else the nodes of its type (below `[i, 1]`)
/// and then those of its value (below `[i, 2]`).
pub open spec fn search_def(d: NamedDefV, i: usize, loc: Seq<usize>) -> Seq<Seq<usize>> {
    if loc == d.name_loc {
        seq![seq![i, 0usize]]
    } else {
        let ty = match d.ty {
            Some(t) => lsearch(t, loc, seq![i, 1usize]),
            None => Seq::empty(),
        };
        ty + lsearch(d.val, loc, seq![i, 2usize])
    }
}

/// What `search_def` finds in the first definition, from the `i`-th on,
/// where it finds anything; nothing when it finds nothing anywhere.
pub open spec fn search_defs_from(ds: Seq<NamedDefV>, loc: Seq<usize>, i: int) -> Seq<Seq<usize>>
    decreases ds.len() - i,
{
    if i < 0 || i >= ds.len() {
        Seq::empty()
    } else if search_def(ds[i], i as usize, loc).len() > 0 {
        search_def(ds[i], i as usize, loc)
    } else {
        search_defs_from(ds, loc, i + 1)
    }
}

/// The paths of the nodes of the definitions made from the surface node at
/// `loc`, as `search_defs_from` says.
pub fn search_defs(expr: NamedDefs, loc: Vec<usize>) -> (r: Vec<Vec<usize>>)
    ensures
        paths_of(r@) == search_defs_from(expr@, loc@, 0),
{
    search_defs_ref(&expr, &loc)
}

pub(crate) fn search_defs_ref(expr: &NamedDefs, loc: &Vec<usize>) -> (r: Vec<Vec<usize>>)
    ensures
        paths_of(r@) == search_defs_from(expr@, loc@, 0),
{
    let ghost ds = expr@;
    let defs = &expr.0;
    let mut i: usize = 0;
    while i < defs.len()
        invariant
            ds == expr@,
            ds == defs@.map_values(|d: NamedDef| d@),
            ds.len() == defs@.len(),
            i <= defs@.len(),
            search_defs_from(ds, loc@, 0) == search_defs_from(ds, loc@, i as int),
        decreases defs@.len() - i,
    {
        let d = &defs[i];
        assert(ds[i as int] == d@);
        let found = if vec_eq(loc, &d.name.1) {
            let mut p: Vec<usize> = Vec::new();
            p.push(i);
            p.push(0);
            assert(p@ =~= seq![i, 0usize]);
            let mut r: Vec<Vec<usize>> = Vec::new();
            r.push(p);
            assert(paths_of(r@) =~= seq![seq![i, 0usize]]);
            r
        } else {
            let mut start: Vec<usize> = Vec::new();
            start.push(i);
            let ty = match &d.ty {
                Some(t) => search_ref(t, loc, &crate::helper::push_new(clone_path(&start), 1)),
                None => {
                    assert(paths_of(Seq::<Vec<usize>>::empty()) =~= Seq::<Seq<usize>>::empty());
                    Vec::new()
                },
            };
            assert(start@.push(1) =~= seq![i, 1usize]);
            assert(start@.push(2) =~= seq![i, 2usize]);
            let val = search_ref(&d.val, loc, &crate::helper::push_new(start, 2));
            two(ty, val)
        };
        assert(paths_of(found@) == search_def(ds[i as int], i, loc@));
        assert(paths_of(found@).len() == found@.len());
        if found.len() > 0 {
            return found;
        }
        i = i + 1;
    }
    assert(paths_of(Seq::<Vec<usize>>::empty()) =~= Seq::<Seq<usize>>::empty());
    Vec::new()
}

fn vec_eq(a: &Vec<usize>, b: &Vec<usize>) -> (r: bool)
    ensures
        r == (a@ == b@),
{
    if a.len() != b.len() {
        return false;
    }
    let mut i: usize = 0;
    while i < a.len()
        invariant
            a@.len() == b@.len(),
            i <= a@.len(),
            forall|j: int| 0 <= j < i ==> a@[j] == b@[j],
        decreases a@.len() - i,
    {
        if a[i] != b[i] {
            return false;
        }
        i = i + 1;
    }
    assert(a@ =~= b@);
    true
}

/// What `path` leads to in the definitions: `path[0]` picks the definition
/// and `path[1]` its part (0 the name, 1 the type, 2 the value); the rest of
/// the path goes on in that part as `ltraverse` says. `None` when a step
/// does not exist, the definition has no type among them.
pub open spec fn traverse_defs_spec(ds: Seq<NamedDefV>, path: Seq<usize>) -> Option<LocatedV> {
    if path.len() < 2 || path[0] >= ds.len() {
        None
    } else {
        let d = ds[path[0] as int];
        if path[1] == 0 {
            Some(LocatedV::Name(d.name, d.name_loc))
        } else if path[1] == 1 {
            match d.ty {
                Some(t) => ltraverse(t, path, 2),
                None => None,
            }
        } else if path[1] == 2 {
            ltraverse(d.val, path, 2)
        } else {
            None
        }
    }
}

/// What `path` leads to in the definitions, as `traverse_defs_spec` says.
pub fn traverse_defs(expr: NamedDefs, path: Vec<usize>) -> (r: Option<Located>)
    ensures
        located_opt(r) == traverse_defs_spec(expr@, path@),
{
    let ghost ds = expr@;
    if path.len() < 2 {
        return None;
    }
    let i = path[0];
    let NamedDefs(defs) = expr;
    if i >= defs.len() {
        return None;
    }
    let ghost dv = defs@;
    let mut defs = defs;
    let d = defs.remove(i);
    assert(d == dv[i as int]);
    assert(ds[i as int] == d@);
    let part = path[1];
    if part == 0 {
        Some(Located::Name(d.name.0, d.name.1))
    } else if part == 1 {
        match d.ty {
            Some(t) => traverse_at(t, &path, 2),
            None => None,
        }
    } else if part == 2 {
        traverse_at(d.val, &path, 2)
    } else {
        None
    }
}


/// What `path` leads to in the definitions, as `traverse_defs_spec` says,
/// without taking the definitions.
pub(crate) fn traverse_defs_ref(expr: &NamedDefs, path: &Vec<usize>) -> (r: Option<Located>)
    ensures
        located_opt(r) == traverse_defs_spec(expr@, path@),
{
    let ghost ds = expr@;
    if path.len() < 2 {
        return None;
    }
    let i = path[0];
    if i >= expr.0.len() {
        return None;
    }
    let d = &expr.0[i];
    assert(ds[i as int] == d@);
    let part = path[1];
    if part == 0 {
        Some(Located::Name(d.name.0.clone(), clone_path(&d.name.1)))
    } else if part == 1 {
        match &d.ty {
            Some(t) => traverse_at(clone_spanned(t), path, 2),
            None => None,
        }
    } else if part == 2 {
        traverse_at(clone_spanned(&d.val), path, 2)
    } else {
        None
    }
}

/// Every error node below `t` has at most as many items as a `usize`
/// counts.
pub open spec fn lfits(t: LTm) -> bool
    decreases t, 1nat, 0nat,
{
    match t {
        LTm::App(f, a, _) => lfits(*f) && lfits(*a),
        LTm::Lam(_, p, b, _) => lfits(*p) && lfits(*b),
        LTm::Pi(_, p, r, _) => lfits(*p) && lfits(*r),
        LTm::Fail(_, ts, _) => ts.len() <= usize::MAX && items_fit(t, ts.len() as int),
        _ => true,
    }
}

/// The first `n` items of an error node fit, as `lfits` says.
pub open spec fn items_fit(t: LTm, n: int) -> bool
    decreases t, 0nat, n,
{
    match t {
        LTm::Fail(_, ts, _) => if n <= 0 || n > ts.len() {
            true
        } else {
            items_fit(t, n - 1) && lfits(ts[n - 1])
        },
        _ => true,
    }
}

proof fn lemma_items_fit(t: LTm, n: int, i: int)
    requires
        t is Fail,
        0 <= i < n <= t->Fail_1.len(),
        items_fit(t, n),
    ensures
        lfits(t->Fail_1[i]),
    decreases n,
{
    if i < n - 1 {
        lemma_items_fit(t, n - 1, i);
    }
}

proof fn lemma_items_fit_from(t: LTm, n: int)
    requires
        t is Fail,
        0 <= n <= t->Fail_1.len(),
        forall|i: int| 0 <= i < n ==> #[trigger] lfits(t->Fail_1[i]),
    ensures
        items_fit(t, n),
    decreases n,
{
    if n > 0 {
        lemma_items_fit_from(t, n - 1);
        assert(lfits(t->Fail_1[n - 1]));
    }
}

proof fn lemma_lfits(e: SpannedNamedExpr)
    ensures
        lfits(e@),
    decreases e,
{
    match e.0 {
        SpannedNamedNode::App { func, arg } => {
            lemma_lfits(*func);
            lemma_lfits(*arg);
        },
        SpannedNamedNode::Lambda { param_ty, body, .. } => {
            lemma_lfits(*param_ty);
            lemma_lfits(*body);
        },
        SpannedNamedNode::Pi { param_ty, ret_ty, .. } => {
            lemma_lfits(*param_ty);
            lemma_lfits(*ret_ty);
        },
        SpannedNamedNode::Error(_, items) => {
            let t = e@;
            let ts = crate::desugar::ltms_of(items@);
            assert(t->Fail_1 == ts);
            assert(items@.len() == items.len());
            assert forall|i: int| 0 <= i < ts.len() implies #[trigger] lfits(t->Fail_1[i]) by {
                assert(decreases_to!(e => items));
                assert(decreases_to!(items => items@));
                assert(decreases_to!(items@ => items@[i]));
                lemma_lfits(*items@[i]);
            }
            lemma_items_fit_from(t, ts.len() as int);
        },
        _ => {},
    }
}

/// Path `p` extends `cur` and leads from `t` (standing at `cur`) to a node
/// made from the surface node at `loc`, or to a binder name written there.
pub open spec fn leads_to(t: LTm, loc: Seq<usize>, cur: Seq<usize>, p: Seq<usize>) -> bool {
    &&& is_prefix(cur, p)
    &&& match ltraverse(t, p, cur.len() as int) {
        Some(LocatedV::Node(n)) => loc_of(n) == loc,
        Some(LocatedV::Name(_, l)) => l == loc,
        None => false,
    }
}

proof fn lemma_step(cur: Seq<usize>, c: Seq<usize>, x: usize, p: Seq<usize>)
    requires
        c == cur.push(x),
        is_prefix(c, p),
    ensures
        is_prefix(cur, p),
        p[cur.len() as int] == x,
{
    let k = cur.len() as int;
    assert(p.subrange(0, k) =~= p.subrange(0, k + 1).subrange(0, k));
    assert(cur =~= c.subrange(0, k));
    assert(p[k] == p.subrange(0, k + 1)[k]);
}

proof fn lemma_lsearch_leads(t: LTm, loc: Seq<usize>, cur: Seq<usize>)
    requires
        lfits(t),
    ensures
        forall|j: int| 0 <= j < lsearch(t, loc, cur).len() ==> leads_to(t, loc, cur, #[trigger] lsearch(t, loc, cur)[j]),
    decreases t, 1nat, 0nat,
{
    let r = lsearch(t, loc, cur);
    if is_prefix(loc_of(t), loc) {
        if loc.len() == loc_of(t).len() {
            assert(loc =~= loc.subrange(0, loc.len() as int));
            assert(loc_of(t) == loc);
            assert(cur.subrange(0, cur.len() as int) =~= cur);
            assert(r =~= seq![cur]);
            assert(r[0] == cur);
            assert(ltraverse(t, cur, cur.len() as int) == Some(LocatedV::Node(t)));
            assert(leads_to(t, loc, cur, r[0]));
        } else {
            match t {
                LTm::App(f, a, _) => {
                    lemma_lsearch_leads(*f, loc, cur.push(0));
                    lemma_lsearch_leads(*a, loc, cur.push(1));
                    let ra = lsearch(*f, loc, cur.push(0));
                    assert forall|j: int| 0 <= j < r.len() implies leads_to(t, loc, cur, #[trigger] r[j]) by {
                        if j < ra.len() {
                            assert(r[j] == ra[j]);
                            lemma_step(cur, cur.push(0), 0, r[j]);
                        } else {
                            assert(r[j] == lsearch(*a, loc, cur.push(1))[j - ra.len()]);
                            lemma_step(cur, cur.push(1), 1, r[j]);
                        }
                    }
                },
                LTm::Lam(n, p, b, _) => {
                    lemma_lsearch_leads(*p, loc, cur.push(1));
                    lemma_lsearch_leads(*b, loc, cur.push(2));
                    let ra = lsearch(*p, loc, cur.push(1));
                    let rb = lsearch(*b, loc, cur.push(2));
                    assert forall|j: int| 0 <= j < r.len() implies leads_to(t, loc, cur, #[trigger] r[j]) by {
                        if j < ra.len() {
                            assert(r[j] == ra[j]);
                            lemma_step(cur, cur.push(1), 1, r[j]);
                        } else if j < ra.len() + rb.len() {
                            assert(r[j] == rb[j - ra.len()]);
                            lemma_step(cur, cur.push(2), 2, r[j]);
                        } else {
                            assert(r[j] == cur.push(0));
                            assert(cur.push(0).subrange(0, cur.len() as int) =~= cur);
                        }
                    }
                },
                LTm::Pi(n, p, b, _) => {
                    lemma_lsearch_leads(*p, loc, cur.push(1));
                    lemma_lsearch_leads(*b, loc, cur.push(2));
                    let ra = lsearch(*p, loc, cur.push(1));
                    let rb = lsearch(*b, loc, cur.push(2));
                    assert forall|j: int| 0 <= j < r.len() implies leads_to(t, loc, cur, #[trigger] r[j]) by {
                        if j < ra.len() {
                            assert(r[j] == ra[j]);
                            lemma_step(cur, cur.push(1), 1, r[j]);
                        } else if j < ra.len() + rb.len() {
                            assert(r[j] == rb[j - ra.len()]);
                            lemma_step(cur, cur.push(2), 2, r[j]);
                        } else {
                            assert(r[j] == cur.push(0));
                            assert(cur.push(0).subrange(0, cur.len() as int) =~= cur);
                        }
                    }
                },
                LTm::Fail(_, ts, _) => {
                    lemma_lsearch_items_leads(t, loc, cur, ts.len() as int);
                    assert(r == lsearch_items(t, loc, cur, ts.len() as int));
                },
                _ => {},
            }
        }
    }
}

proof fn lemma_lsearch_items_leads(t: LTm, loc: Seq<usize>, cur: Seq<usize>, n: int)
    requires
        lfits(t),
        t is Fail,
    ensures
        forall|j: int| 0 <= j < lsearch_items(t, loc, cur, n).len() ==> leads_to(t, loc, cur, #[trigger] lsearch_items(t, loc, cur, n)[j]),
    decreases t, 0nat, n,
{
    let ts = t->Fail_1;
    if 0 < n <= ts.len() {
        let c = cur.push((n - 1) as usize);
        lemma_lsearch_items_leads(t, loc, cur, n - 1);
        lemma_items_fit(t, ts.len() as int, n - 1);
        lemma_lsearch_leads(ts[n - 1], loc, c);
        let front = lsearch_items(t, loc, cur, n - 1);
        let back = lsearch(ts[n - 1], loc, c);
        let r = lsearch_items(t, loc, cur, n);
        assert(r == front + back);
        assert forall|j: int| 0 <= j < r.len() implies leads_to(t, loc, cur, #[trigger] r[j]) by {
            if j < front.len() {
                assert(r[j] == front[j]);
            } else {
                assert(r[j] == back[j - front.len()]);
                lemma_step(cur, c, (n - 1) as usize, r[j]);
            }
        }
    }
}

/// What `search` finds leads somewhere: every path it returns extends the
/// starting path `cur` and leads, by traversal from there, to a node made
/// from the surface node at `loc` or to a binder name written there; and
/// nothing is found when the path recorded on `expr` is not a prefix of
/// `loc`.
pub proof fn lemma_search_leads(expr: SpannedNamedExpr, loc: Seq<usize>, cur: Seq<usize>)
    ensures
        forall|j: int|
            0 <= j < lsearch(expr@, loc, cur).len() ==> leads_to(
                expr@,
                loc,
                cur,
                #[trigger] lsearch(expr@, loc, cur)[j],
            ),
        !is_prefix(loc_of(expr@), loc) ==> lsearch(expr@, loc, cur) == Seq::<Seq<usize>>::empty(),
{
    lemma_lfits(expr);
    lemma_lsearch_leads(expr@, loc, cur);
}

/// What `search_defs` finds leads, by `traverse_defs`, to what was made from
/// the surface node at `loc`: a definition's name written at `loc`, or a
/// node of a type or a value whose recorded path is `loc`.
pub proof fn lemma_search_defs_leads(defs: NamedDefs, loc: Seq<usize>)
    ensures
        forall|j: int| 0 <= j < search_defs_from(defs@, loc, 0).len() ==>
            match traverse_defs_spec(defs@, #[trigger] search_defs_from(defs@, loc, 0)[j]) {
                Some(LocatedV::Name(_, l)) => l == loc,
                Some(LocatedV::Node(n)) => loc_of(n) == loc,
                None => false,
            },
{
    let ds = defs@;
    assert(ds.len() == defs.0.len());
    assert forall|i: int| 0 <= i < ds.len() implies #[trigger] lfits(ds[i].val) && (ds[i].ty matches Some(t) ==> lfits(t)) by {
        assert(ds[i] == defs.0@[i]@);
        lemma_lfits(defs.0@[i].val);
        if defs.0@[i].ty is Some {
            lemma_lfits(defs.0@[i].ty.unwrap());
        }
    }
    lemma_search_defs_from_leads(ds, loc, 0);
}

proof fn lemma_search_defs_from_leads(ds: Seq<NamedDefV>, loc: Seq<usize>, i: int)
    requires
        0 <= i,
        ds.len() <= usize::MAX,
        forall|q: int| 0 <= q < ds.len() ==> #[trigger] lfits(ds[q].val) && (ds[q].ty matches Some(t) ==> lfits(t)),
    ensures
        forall|j: int| 0 <= j < search_defs_from(ds, loc, i).len() ==>
            match traverse_defs_spec(ds, #[trigger] search_defs_from(ds, loc, i)[j]) {
                Some(LocatedV::Name(_, l)) => l == loc,
                Some(LocatedV::Node(n)) => loc_of(n) == loc,
                None => false,
            },
    decreases ds.len() - i,
{
    if i < ds.len() {
        lemma_search_defs_from_leads(ds, loc, i + 1);
        let d = ds[i];
        assert(lfits(d.val));
        let r = search_def(d, i as usize, loc);
        if r.len() > 0 {
            if loc == d.name_loc {
                assert(r[0] == seq![i as usize, 0usize]);
            } else {
                let c1 = seq![i as usize, 1usize];
                let c2 = seq![i as usize, 2usize];
                let ty = match d.ty {
                    Some(t) => lsearch(t, loc, c1),
                    None => Seq::empty(),
                };
                lemma_lsearch_leads(d.val, loc, c2);
                if d.ty is Some {
                    lemma_lsearch_leads(d.ty.unwrap(), loc, c1);
                }
                assert forall|j: int| 0 <= j < r.len() implies match traverse_defs_spec(ds, #[trigger] r[j]) {
                    Some(LocatedV::Name(_, l)) => l == loc,
                    Some(LocatedV::Node(n)) => loc_of(n) == loc,
                    None => false,
                } by {
                    let p = r[j];
                    if j < ty.len() {
                        assert(p == ty[j]);
                        assert(leads_to(d.ty.unwrap(), loc, c1, p));
                        assert(p[0] == p.subrange(0, 2)[0]);
                        assert(p[1] == p.subrange(0, 2)[1]);
                    } else {
                        assert(p == lsearch(d.val, loc, c2)[j - ty.len()]);
                        assert(leads_to(d.val, loc, c2, p));
                        assert(p[0] == p.subrange(0, 2)[0]);
                        assert(p[1] == p.subrange(0, 2)[1]);
                    }
                }
            }
        }
    }
}

/// The surface path that `loc_at` reads at a path of a desugared expression
/// is the one recorded on what `traverse` reaches there: the node's own
/// path, or the binder's path for a binder name.
pub proof fn lemma_loc_at_is_traverse(t: LTm, path: Seq<usize>, k: int)
    ensures
        crate::positions::loc_at_spec(t, path, k) == match ltraverse(t, path, k) {
            Some(LocatedV::Node(n)) => Some(loc_of(n)),
            Some(LocatedV::Name(_, l)) => Some(l),
            None => None::<Seq<usize>>,
        },
    decreases t, path.len() - k,
{
    if 0 <= k < path.len() {
        match t {
            LTm::App(f, a, _) => {
                lemma_loc_at_is_traverse(*f, path, k + 1);
                lemma_loc_at_is_traverse(*a, path, k + 1);
            },
            LTm::Lam(_, p, b, _) | LTm::Pi(_, p, b, _) => {
                lemma_loc_at_is_traverse(*p, path, k + 1);
                lemma_loc_at_is_traverse(*b, path, k + 1);
            },
            LTm::Fail(_, ts, _) => {
                if path[k] < ts.len() {
                    lemma_loc_at_is_traverse(ts[path[k] as int], path, k + 1);
                }
            },
            _ => {},
        }
    }
}

} // verus!
