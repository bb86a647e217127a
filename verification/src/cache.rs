//! Hash-consed storage of expressions: every distinct layer is stored once,
//! keyed by its hash, with a reference count.
use std::collections::HashMap;
use std::hash::{BuildHasher, BuildHasherDefault, DefaultHasher};
use vstd::prelude::*;

use crate::expr::{clone_error, Builtin, Expr, ExprError, ExprF, GExpr, Term, Tm, tms_of, tm_of};

verus! {

broadcast use vstd::std_specs::hash::group_hash_axioms;

/// The hash of an expression layer, used as its identifier.
pub type ExprId = u64;

/// One layer of an expression whose children are identifiers; binder names
/// are dropped, so alpha-equivalent expressions share their nodes.
pub type ExprGraph = ExprF<ExprId, usize, (), Vec<usize>>;

/// Nodes by identifier, with a reference count each; `cache` maps an
/// expression to one it reduces to, `tys` an expression to its type.
/// `clashes` records, in order, each identifier whose slot held a different
/// layer when `add_node` was asked to store another, with that other layer.
/// already stored under the hash of theirs.
pub struct SeaOfNodes {
    pub nodes: HashMap<ExprId, (ExprGraph, usize)>,
    pub cache: HashMap<ExprId, ExprId>,
    pub tys: HashMap<ExprId, ExprId>,
    pub clashes: Ghost<Seq<(ExprId, ExprGraph)>>,
}

/// The hash of a layer under std's default hasher (`BuildHasher::hash_one`
/// with `BuildHasherDefault<DefaultHasher>`). Nothing is stated of the value:
/// it depends on the platform and the standard library's version.
#[verifier::external_body]
fn hash_node(node: &ExprGraph) -> (h: ExprId) {
    BuildHasherDefault::<DefaultHasher>::default().hash_one(node)
}

/// `after` is `before` followed by real clashes only: each added pair names
/// an identifier whose slot in `nodes` holds a layer other than the pair's.
pub open spec fn clashes_added(
    before: Seq<(ExprId, ExprGraph)>,
    after: Seq<(ExprId, ExprGraph)>,
    nodes: Map<ExprId, (ExprGraph, usize)>,
) -> bool {
    &&& before.len() <= after.len()
    &&& after.subrange(0, before.len() as int) == before
    &&& forall|i: int|
        before.len() <= i < after.len() ==> nodes.contains_key((#[trigger] after[i]).0) && nodes[after[i].0].0
            != after[i].1
}

/// `new` keeps every node of `old` with the same layer and a count no lower.
pub open spec fn extends(old: Map<ExprId, (ExprGraph, usize)>, new: Map<ExprId, (ExprGraph, usize)>) -> bool {
    forall|k: ExprId|
        old.contains_key(k) ==> #[trigger] new.contains_key(k) && new[k].0 == old[k].0 && new[k].1
            >= old[k].1
}

/// No count has reached the largest value a count can hold.
pub open spec fn counts_below_max(nodes: Map<ExprId, (ExprGraph, usize)>) -> bool {
    forall|k: ExprId| nodes.contains_key(k) ==> #[trigger] nodes[k].1 < usize::MAX
}

/// The layer stored at `id` has the shape of `t`, with children stored under
/// identifiers that represent the children of `t`; names are not compared.
pub open spec fn represents(nodes: Map<ExprId, (ExprGraph, usize)>, id: ExprId, t: Term) -> bool
    decreases t,
{
    nodes.contains_key(id) && match (nodes[id].0, t) {
        (ExprF::Var { idx }, Tm::Var(i)) => idx == i,
        (ExprF::App { func, arg }, Tm::App(f, a)) => represents(nodes, func, *f) && represents(
            nodes,
            arg,
            *a,
        ),
        (ExprF::Lambda { param_ty, body, .. }, Tm::Lam(_, p, b)) => represents(nodes, param_ty, *p)
            && represents(nodes, body, *b),
        (ExprF::Pi { param_ty, ret_ty, .. }, Tm::Pi(_, p, r)) => represents(nodes, param_ty, *p)
            && represents(nodes, ret_ty, *r),
        (ExprF::Type, Tm::Type) => true,
        (ExprF::Builtin(b), Tm::Lit(v)) => b@ == v,
        (ExprF::Error(e, ids), Tm::Fail(ev, ts)) => e@ == ev && ids@.len() == ts.len() && forall|
            i: int,
        |
            0 <= i < ts.len() ==> represents(nodes, #[trigger] ids@[i], ts[i]),
        _ => false,
    }
}

/// The expression stored at `id`, read with at most `n` nested lookups:
/// `None` when the fuel runs out, `Some(None)` when an identifier is missing.
pub open spec fn tree_fuel(nodes: Map<ExprId, (ExprGraph, usize)>, id: ExprId, n: nat) -> Option<
    Option<Term>,
>
    decreases n, 1nat, 0nat,
{
    if n == 0 {
        None
    } else if !nodes.contains_key(id) {
        Some(None)
    } else {
        let m = (n - 1) as nat;
        match nodes[id].0 {
            ExprF::Var { idx } => Some(Some(Tm::Var(idx))),
            ExprF::App { func, arg } => match tree_fuel(nodes, func, m) {
                Some(Some(f)) => match tree_fuel(nodes, arg, m) {
                    Some(Some(a)) => Some(Some(Tm::App(Box::new(f), Box::new(a)))),
                    other => other,
                },
                other => other,
            },
            ExprF::Lambda { param_ty, body, .. } => match tree_fuel(nodes, param_ty, m) {
                Some(Some(p)) => match tree_fuel(nodes, body, m) {
                    Some(Some(b)) => Some(Some(Tm::Lam(Seq::empty(), Box::new(p), Box::new(b)))),
                    other => other,
                },
                other => other,
            },
            ExprF::Pi { param_ty, ret_ty, .. } => match tree_fuel(nodes, param_ty, m) {
                Some(Some(p)) => match tree_fuel(nodes, ret_ty, m) {
                    Some(Some(r)) => Some(Some(Tm::Pi(Seq::empty(), Box::new(p), Box::new(r)))),
                    other => other,
                },
                other => other,
            },
            ExprF::Type => Some(Some(Tm::Type)),
            ExprF::Builtin(b) => Some(Some(Tm::Lit(b@))),
            ExprF::Error(e, ids) => match trees_fuel(nodes, ids@, m) {
                Some(Some(ts)) => Some(Some(Tm::Fail(e@, ts))),
                Some(None) => Some(None),
                None => None,
            },
        }
    }
}

/// The expressions stored at `ids`, read in order, stopping at the first
/// missing one.
pub open spec fn trees_fuel(nodes: Map<ExprId, (ExprGraph, usize)>, ids: Seq<ExprId>, n: nat) -> Option<
    Option<Seq<Term>>,
>
    decreases n, 2nat, ids.len(),
{
    if ids.len() == 0 {
        Some(Some(Seq::empty()))
    } else {
        match trees_fuel(nodes, ids.drop_last(), n) {
            Some(Some(ts)) => match tree_fuel(nodes, ids.last(), n) {
                Some(Some(t)) => Some(Some(ts.push(t))),
                Some(None) => Some(None),
                None => None,
            },
            other => other,
        }
    }
}

/// `t` with every binder name emptied, as a tree read back from the store has it.
pub open spec fn erase_names(t: Term) -> Term
    decreases t, 1nat,
{
    match t {
        Tm::App(f, a) => Tm::App(Box::new(erase_names(*f)), Box::new(erase_names(*a))),
        Tm::Lam(_, p, b) => Tm::Lam(Seq::empty(), Box::new(erase_names(*p)), Box::new(erase_names(*b))),
        Tm::Pi(_, p, r) => Tm::Pi(Seq::empty(), Box::new(erase_names(*p)), Box::new(erase_names(*r))),
        Tm::Fail(e, ts) => Tm::Fail(e, erase_names_all(ts)),
        _ => t,
    }
}

pub open spec fn erase_names_all(ts: Seq<Term>) -> Seq<Term>
    decreases ts, 0nat,
{
    if ts.len() == 0 {
        Seq::empty()
    } else {
        erase_names_all(ts.drop_last()).push(erase_names(ts.last()))
    }
}

pub open spec fn tree_terminates(nodes: Map<ExprId, (ExprGraph, usize)>, id: ExprId) -> bool {
    exists|n: nat| #[trigger] tree_fuel(nodes, id, n) is Some
}

pub open spec fn tree_steps(nodes: Map<ExprId, (ExprGraph, usize)>, id: ExprId) -> nat {
    choose|n: nat| #[trigger] tree_fuel(nodes, id, n) is Some
}

impl SeaOfNodes {
    /// An empty store.
    pub fn new() -> (s: Self)
        ensures
            s.nodes@ == Map::<ExprId, (ExprGraph, usize)>::empty(),
            s.cache@ == Map::<ExprId, ExprId>::empty(),
            s.tys@ == Map::<ExprId, ExprId>::empty(),
            s.clashes@ == Seq::<(ExprId, ExprGraph)>::empty(),
    {
        SeaOfNodes {
            nodes: HashMap::new(),
            cache: HashMap::new(),
            tys: HashMap::new(),
            clashes: Ghost(Seq::empty()),
        }
    }

    /// Stores `node` under its hash, or counts one more reference when that
    /// hash is already present, and returns the hash. When a different layer
    /// already has the same hash, that layer stays and is what the hash names,
    /// and the call counts as a collision.
    pub fn add_node(&mut self, node: ExprGraph) -> (id: ExprId)
        requires
            counts_below_max(old(self).nodes@),
        ensures
            old(self).nodes@.contains_key(id) ==> final(self).nodes@ == old(self).nodes@.insert(
                id,
                (old(self).nodes@[id].0, (old(self).nodes@[id].1 + 1) as usize),
            ),
            !old(self).nodes@.contains_key(id) ==> final(self).nodes@ == old(self).nodes@.insert(
                id,
                (node, 1usize),
            ),
            final(self).cache@ == old(self).cache@,
            final(self).tys@ == old(self).tys@,
            final(self).clashes@ == if old(self).nodes@.contains_key(id) && old(self).nodes@[id].0 != node {
                old(self).clashes@.push((id, node))
            } else {
                old(self).clashes@
            },
    {
        let hash = hash_node(&node);
        let ghost clash = self.nodes@.contains_key(hash) && self.nodes@[hash].0 != node;
        self.clashes = Ghost(
            if clash {
                self.clashes@.push((hash, node))
            } else {
                self.clashes@
            },
        );
        match self.nodes.remove(&hash) {
            None => {
                self.nodes.insert(hash, (node, 1));
            },
            Some((g, count)) => {
                self.nodes.insert(hash, (g, count + 1));
            },
        }
        proof {
            assert(old(self).nodes@.contains_key(hash) ==> final(self).nodes@ =~= old(self).nodes@.insert(
                hash,
                (old(self).nodes@[hash].0, (old(self).nodes@[hash].1 + 1) as usize),
            ));
            assert(!old(self).nodes@.contains_key(hash) ==> final(self).nodes@ =~= old(self).nodes@.insert(
                hash,
                (node, 1usize),
            ));
        }
        hash
    }

    /// The layer stored under `id`, if any.
    pub fn get_node(&self, id: ExprId) -> (r: Option<&ExprGraph>)
        ensures
            r is Some <==> self.nodes@.contains_key(id),
            r matches Some(g) ==> *g == self.nodes@[id].0,
    {
        match self.nodes.get(&id) {
            Some(x) => Some(&x.0),
            None => None,
        }
    }

    fn get_trees(&self, ids: &Vec<ExprId>, Ghost(n): Ghost<nat>) -> (r: Option<Vec<Box<Expr>>>)
        requires
            trees_fuel(self.nodes@, ids@, n) is Some,
        ensures
            trees_fuel(self.nodes@, ids@, n) matches Some(res) && match (res, r) {
                (Some(ts), Some(v)) => tms_of(v@) == ts,
                (None, None) => true,
                _ => false,
            },
        decreases n, 2nat, 0nat,
    {
        let mut v: Vec<Box<Expr>> = Vec::new();
        let mut i: usize = 0;
        while i < ids.len()
            invariant
                i <= ids.len(),
                trees_fuel(self.nodes@, ids@, n) is Some,
                trees_fuel(self.nodes@, ids@.take(i as int), n) == Some(Some(tms_of(v@))),
            decreases ids.len() - i,
        {
            proof {
                lemma_trees_fuel_prefix(self.nodes@, ids@, n, (i + 1) as int);
                assert(ids@.take(i + 1).drop_last() =~= ids@.take(i as int));
            }
            match self.get_tree_go(ids[i], Ghost(n)) {
                Some(t) => {
                    let b = Box::new(t);
                    proof {
                        crate::expr::lemma_tms_of_push(v@, b);
                    }
                    v.push(b);
                },
                None => {
                    proof {
                        lemma_trees_fuel_stop(self.nodes@, ids@, n, (i + 1) as int);
                    }
                    return None;
                },
            }
            i = i + 1;
        }
        assert(ids@.take(ids.len() as int) =~= ids@);
        Some(v)
    }

    fn get_tree_go(&self, id: ExprId, Ghost(n): Ghost<nat>) -> (r: Option<Expr>)
        requires
            tree_fuel(self.nodes@, id, n) is Some,
        ensures
            tree_fuel(self.nodes@, id, n) matches Some(res) && match (res, r) {
                (Some(t), Some(e)) => e@ == t,
                (None, None) => true,
                _ => false,
            },
        decreases n, 1nat, 0nat,
    {
        let graph = match self.get_node(id) {
            Some(g) => g,
            None => return None,
        };
        let ghost m = (n - 1) as nat;
        let inner = match graph {
            ExprF::Var { idx } => GExpr::Var { idx: *idx },
            ExprF::App { func, arg } => {
                let f = self.get_tree_go(*func, Ghost(m))?;
                let a = self.get_tree_go(*arg, Ghost(m))?;
                GExpr::App { func: Box::new(f), arg: Box::new(a) }
            },
            ExprF::Lambda { param_ty, body, .. } => {
                let p = self.get_tree_go(*param_ty, Ghost(m))?;
                let b = self.get_tree_go(*body, Ghost(m))?;
                GExpr::Lambda { name: String::new(), param_ty: Box::new(p), body: Box::new(b) }
            },
            ExprF::Pi { param_ty, ret_ty, .. } => {
                let p = self.get_tree_go(*param_ty, Ghost(m))?;
                let r = self.get_tree_go(*ret_ty, Ghost(m))?;
                GExpr::Pi { name: String::new(), param_ty: Box::new(p), ret_ty: Box::new(r) }
            },
            ExprF::Type => GExpr::Type,
            ExprF::Builtin(b) => GExpr::Builtin(crate::expr::clone_builtin(b)),
            ExprF::Error(e, ids) => {
                let items = self.get_trees(ids, Ghost(m))?;
                GExpr::Error(clone_error(e), items)
            },
        };
        Some(inner)
    }

    /// Rebuilds the expression stored under `id`; binders get empty names.
    /// `None` when some identifier on the way is missing.
    pub fn get_tree(&self, id: ExprId) -> (r: Option<Expr>)
        requires
            tree_terminates(self.nodes@, id),
        ensures
            tree_fuel(self.nodes@, id, tree_steps(self.nodes@, id)) matches Some(res) && match (
                res,
                r,
            ) {
                (Some(t), Some(e)) => e@ == t,
                (None, None) => true,
                _ => false,
            },
    {
        self.get_tree_go(id, Ghost(tree_steps(self.nodes@, id)))
    }
}

/// The number of nodes of a term, children of error nodes included.
pub open spec fn size_tm(t: Term) -> nat
    decreases t, 1nat,
{
    match t {
        Tm::App(f, a) => 1 + size_tm(*f) + size_tm(*a),
        Tm::Lam(_, p, b) => 1 + size_tm(*p) + size_tm(*b),
        Tm::Pi(_, p, r) => 1 + size_tm(*p) + size_tm(*r),
        Tm::Fail(_, ts) => 1 + sizes_tm(ts),
        _ => 1,
    }
}

pub open spec fn sizes_tm(ts: Seq<Term>) -> nat
    decreases ts, 0nat,
{
    if ts.len() == 0 {
        0
    } else {
        sizes_tm(ts.drop_last()) + size_tm(ts.last())
    }
}

/// Every count can still grow by `k` without reaching the largest value.
pub open spec fn room(nodes: Map<ExprId, (ExprGraph, usize)>, k: nat) -> bool {
    &&& k < usize::MAX
    &&& forall|id: ExprId| nodes.contains_key(id) ==> #[trigger] nodes[id].1 + k < usize::MAX
}

/// Counts grew by at most `k` (new identifiers count from zero).
pub open spec fn grew_by_at_most(
    old: Map<ExprId, (ExprGraph, usize)>,
    new: Map<ExprId, (ExprGraph, usize)>,
    k: nat,
) -> bool {
    forall|id: ExprId|
        new.contains_key(id) ==> #[trigger] new[id].1 <= (if old.contains_key(id) {
            old[id].1 as nat
        } else {
            0nat
        }) + k
}

proof fn lemma_add_node_steps(
    a: Map<ExprId, (ExprGraph, usize)>,
    b: Map<ExprId, (ExprGraph, usize)>,
    c: Map<ExprId, (ExprGraph, usize)>,
    k1: nat,
    k2: nat,
)
    requires
        extends(a, b),
        extends(b, c),
        grew_by_at_most(a, b, k1),
        grew_by_at_most(b, c, k2),
    ensures
        extends(a, c),
        grew_by_at_most(a, c, k1 + k2),
{
    assert forall|id: ExprId| c.contains_key(id) implies #[trigger] c[id].1 <= (if a.contains_key(
        id,
    ) {
        a[id].1 as nat
    } else {
        0nat
    }) + k1 + k2 by {
        if b.contains_key(id) {
        }
    }
}

proof fn lemma_room_after(a: Map<ExprId, (ExprGraph, usize)>, b: Map<ExprId, (ExprGraph, usize)>, k1: nat, k2: nat)
    requires
        room(a, k1 + k2),
        grew_by_at_most(a, b, k1),
    ensures
        room(b, k2),
{
    assert forall|id: ExprId| b.contains_key(id) implies #[trigger] b[id].1 + k2 < usize::MAX by {
        if a.contains_key(id) {
        }
    }
}

fn add_node_tracked(sea: &mut SeaOfNodes, node: ExprGraph) -> (id: ExprId)
    requires
        room(old(sea).nodes@, 1),
    ensures
        extends(old(sea).nodes@, final(sea).nodes@),
        grew_by_at_most(old(sea).nodes@, final(sea).nodes@, 1),
        final(sea).nodes@.contains_key(id),
        clashes_added(old(sea).clashes@, final(sea).clashes@, final(sea).nodes@),
        final(sea).clashes@.len() == old(sea).clashes@.len() ==> final(sea).nodes@[id].0 == node,
        final(sea).cache@ == old(sea).cache@,
        final(sea).tys@ == old(sea).tys@,
{
    let id = sea.add_node(node);
    assert(sea.clashes@.subrange(0, old(sea).clashes@.len() as int) =~= old(sea).clashes@);
    id
}

/// Lowers each of `items` in order and returns their identifiers.
fn lower_all(items: &Vec<Box<Expr>>, sea: &mut SeaOfNodes) -> (ids: Vec<ExprId>)
    requires
        room(old(sea).nodes@, sizes_tm(tms_of(items@))),
    ensures
        ids@.len() == items@.len(),
        extends(old(sea).nodes@, final(sea).nodes@),
        grew_by_at_most(old(sea).nodes@, final(sea).nodes@, sizes_tm(tms_of(items@))),
        forall|i: int| 0 <= i < ids@.len() ==> final(sea).nodes@.contains_key(#[trigger] ids@[i]),
        clashes_added(old(sea).clashes@, final(sea).clashes@, final(sea).nodes@),
        final(sea).clashes@.len() == old(sea).clashes@.len() ==> forall|i: int|
            0 <= i < ids@.len() ==> represents(final(sea).nodes@, #[trigger] ids@[i], tms_of(items@)[i]),
        final(sea).cache@ == old(sea).cache@,
        final(sea).tys@ == old(sea).tys@,
    decreases items, 0nat,
{
    let ghost ts = tms_of(items@);
    proof {
        crate::expr::lemma_tms_of_len(items@);
    }
    let mut ids: Vec<ExprId> = Vec::new();
    let mut i: usize = 0;
    assert(sea.clashes@.subrange(0, sea.clashes@.len() as int) =~= sea.clashes@);
    while i < items.len()
        invariant
            i <= items.len(),
            ids@.len() == i,
            ts == tms_of(items@),
            ts.len() == items@.len(),
            forall|j: int| 0 <= j < items@.len() ==> #[trigger] ts[j] == tm_of(*items@[j]),
            room(old(sea).nodes@, sizes_tm(ts)),
            extends(old(sea).nodes@, sea.nodes@),
            grew_by_at_most(old(sea).nodes@, sea.nodes@, sizes_tm(ts.take(i as int))),
            forall|j: int| 0 <= j < ids@.len() ==> sea.nodes@.contains_key(#[trigger] ids@[j]),
            clashes_added(old(sea).clashes@, sea.clashes@, sea.nodes@),
            sea.clashes@.len() == old(sea).clashes@.len() ==> forall|j: int|
                0 <= j < ids@.len() ==> represents(sea.nodes@, #[trigger] ids@[j], ts[j]),
            sea.cache@ == old(sea).cache@,
            sea.tys@ == old(sea).tys@,
        decreases items.len() - i,
    {
        proof {
            assert(decreases_to!(*items => items@));
            assert(decreases_to!(items@ => items@[i as int]));
            lemma_sizes_take(ts, i as int);
            lemma_room_after(old(sea).nodes@, sea.nodes@, sizes_tm(ts.take(i as int)), (sizes_tm(ts) - sizes_tm(ts.take(i as int))) as nat);
        }
        let ghost before = sea.nodes@;
        let ghost c_before = sea.clashes@;
        let id = lower_go(&items[i], sea);
        proof {
            lemma_clashes_trans(old(sea).clashes@, c_before, sea.clashes@, before, sea.nodes@);
            lemma_add_node_steps(old(sea).nodes@, before, sea.nodes@, sizes_tm(ts.take(i as int)), size_tm(ts[i as int]));
            assert(ts.take(i + 1).drop_last() =~= ts.take(i as int));
            if sea.clashes@.len() == old(sea).clashes@.len() {
                assert forall|j: int| 0 <= j < ids@.len() implies represents(
                    sea.nodes@,
                    #[trigger] ids@[j],
                    ts[j],
                ) by {
                    lemma_represents_extends(before, sea.nodes@, ids@[j], ts[j]);
                }
            }
        }
        ids.push(id);
        i = i + 1;
    }
    assert(ts.take(items.len() as int) =~= ts);
    ids
}

proof fn lemma_sizes_take(ts: Seq<Term>, i: int)
    requires
        0 <= i < ts.len(),
    ensures
        sizes_tm(ts.take(i)) + size_tm(ts[i]) <= sizes_tm(ts),
        sizes_tm(ts.take(i + 1)) == sizes_tm(ts.take(i)) + size_tm(ts[i]),
    decreases ts.len(),
{
    assert(ts.take(i + 1).drop_last() =~= ts.take(i));
    if i + 1 < ts.len() {
        lemma_sizes_take(ts.drop_last(), i);
        assert(ts.drop_last().take(i) =~= ts.take(i));
        assert(ts.drop_last().take(i + 1) =~= ts.take(i + 1));
    } else {
        assert(ts.take(i + 1) =~= ts);
    }
}

/// Stores every layer of `ast` and returns the identifier of its root.
/// Which layer an identifier names is decided by the hash: when `ast` has a
/// layer whose hash an earlier, different layer already has, the earlier one
/// stays and the identifier with the refused layer is added to `clashes`;
/// only such real clashes are added. When none was added, the identifier
/// represents `ast`, and `get_tree` reads back `ast` with its binder names
/// emptied.
pub fn lower_expr(ast: &Expr, sea: &mut SeaOfNodes) -> (id: ExprId)
    requires
        room(old(sea).nodes@, size_tm(ast@)),
    ensures
        extends(old(sea).nodes@, final(sea).nodes@),
        grew_by_at_most(old(sea).nodes@, final(sea).nodes@, size_tm(ast@)),
        final(sea).nodes@.contains_key(id),
        clashes_added(old(sea).clashes@, final(sea).clashes@, final(sea).nodes@),
        final(sea).clashes@.len() == old(sea).clashes@.len() ==> represents(final(sea).nodes@, id, ast@)
            && tree_terminates(final(sea).nodes@, id) && tree_fuel(
            final(sea).nodes@,
            id,
            tree_steps(final(sea).nodes@, id),
        ) == Some(Some(erase_names(ast@))),
        final(sea).cache@ == old(sea).cache@,
        final(sea).tys@ == old(sea).tys@,
{
    let id = lower_go(ast, sea);
    proof {
        if sea.clashes@.len() == old(sea).clashes@.len() {
            lemma_represented_reads_back(sea.nodes@, id, ast@);
        }
    }
    id
}

fn lower_go(ast: &Expr, sea: &mut SeaOfNodes) -> (id: ExprId)
    requires
        room(old(sea).nodes@, size_tm(ast@)),
    ensures
        extends(old(sea).nodes@, final(sea).nodes@),
        grew_by_at_most(old(sea).nodes@, final(sea).nodes@, size_tm(ast@)),
        final(sea).nodes@.contains_key(id),
        clashes_added(old(sea).clashes@, final(sea).clashes@, final(sea).nodes@),
        final(sea).clashes@.len() == old(sea).clashes@.len() ==> represents(final(sea).nodes@, id, ast@),
        final(sea).cache@ == old(sea).cache@,
        final(sea).tys@ == old(sea).tys@,
    decreases ast, 1nat,
{
    let ghost n0 = sea.nodes@;
    match ast {
        GExpr::Var { idx } => add_node_tracked(sea, ExprF::Var { idx: *idx }),
        GExpr::App { func, arg } => {
            let func_id = lower_go(func, sea);
            let ghost n1 = sea.nodes@;
            let ghost c1 = sea.clashes@;
            proof { lemma_room_after(n0, n1, size_tm(func@), size_tm(arg@) + 1); }
            let arg_id = lower_go(arg, sea);
            let ghost n2 = sea.nodes@;
            let ghost c2 = sea.clashes@;
            proof {
                lemma_add_node_steps(n0, n1, n2, size_tm(func@), size_tm(arg@));
                lemma_room_after(n0, n2, size_tm(func@) + size_tm(arg@), 1);
            }
            let id = add_node_tracked(sea, ExprF::App { func: func_id, arg: arg_id });
            proof {
                lemma_clashes_trans(old(sea).clashes@, c1, c2, n1, n2);
                lemma_clashes_trans(old(sea).clashes@, c2, sea.clashes@, n2, sea.nodes@);
                lemma_add_node_steps(n0, n2, sea.nodes@, size_tm(func@) + size_tm(arg@), 1);
                if sea.clashes@.len() == old(sea).clashes@.len() {
                    lemma_represents_extends(n1, n2, func_id, func@);
                    lemma_represents_extends(n1, sea.nodes@, func_id, func@);
                    lemma_represents_extends(n2, sea.nodes@, arg_id, arg@);
                }
            }
            id
        },
        GExpr::Lambda { name: _, param_ty, body } => {
            let ghost pt = *param_ty;
            let ghost ps = size_tm(param_ty@);
            let param_ty = lower_go(param_ty, sea);
            let ghost n1 = sea.nodes@;
            let ghost c1 = sea.clashes@;
            proof { lemma_room_after(n0, n1, ps, size_tm(body@) + 1); }
            let body_id = lower_go(body, sea);
            let ghost n2 = sea.nodes@;
            let ghost c2 = sea.clashes@;
            proof {
                lemma_add_node_steps(n0, n1, n2, ps, size_tm(body@));
                lemma_room_after(n0, n2, (size_tm(ast@) - 1) as nat, 1);
            }
            let id = add_node_tracked(sea, ExprF::Lambda { name: (), param_ty, body: body_id });
            proof {
                lemma_clashes_trans(old(sea).clashes@, c1, c2, n1, n2);
                lemma_clashes_trans(old(sea).clashes@, c2, sea.clashes@, n2, sea.nodes@);
                lemma_add_node_steps(n0, n2, sea.nodes@, (size_tm(ast@) - 1) as nat, 1);
                if sea.clashes@.len() == old(sea).clashes@.len() {
                    lemma_represents_extends(n1, n2, param_ty, pt@);
                    lemma_represents_extends(n1, sea.nodes@, param_ty, pt@);
                    lemma_represents_extends(n2, sea.nodes@, body_id, body@);
                }
            }
            id
        },
        GExpr::Pi { name: _, param_ty, ret_ty } => {
            let param_ty_id = lower_go(param_ty, sea);
            let ghost n1 = sea.nodes@;
            let ghost c1 = sea.clashes@;
            proof { lemma_room_after(n0, n1, size_tm(param_ty@), size_tm(ret_ty@) + 1); }
            let ret_ty_id = lower_go(ret_ty, sea);
            let ghost n2 = sea.nodes@;
            let ghost c2 = sea.clashes@;
            proof {
                lemma_add_node_steps(n0, n1, n2, size_tm(param_ty@), size_tm(ret_ty@));
                lemma_room_after(n0, n2, (size_tm(ast@) - 1) as nat, 1);
            }
            let id = add_node_tracked(sea, ExprF::Pi { name: (), param_ty: param_ty_id, ret_ty: ret_ty_id });
            proof {
                lemma_clashes_trans(old(sea).clashes@, c1, c2, n1, n2);
                lemma_clashes_trans(old(sea).clashes@, c2, sea.clashes@, n2, sea.nodes@);
                lemma_add_node_steps(n0, n2, sea.nodes@, (size_tm(ast@) - 1) as nat, 1);
                if sea.clashes@.len() == old(sea).clashes@.len() {
                    lemma_represents_extends(n1, n2, param_ty_id, param_ty@);
                    lemma_represents_extends(n1, sea.nodes@, param_ty_id, param_ty@);
                    lemma_represents_extends(n2, sea.nodes@, ret_ty_id, ret_ty@);
                }
            }
            id
        },
        GExpr::Type => add_node_tracked(sea, ExprF::Type),
        GExpr::Builtin(b) => add_node_tracked(sea, ExprF::Builtin(crate::expr::clone_builtin(b))),
        GExpr::Error(err, items) => {
            proof {
                assert(decreases_to!(*ast => *items));
            }
            let ids = lower_all(items, sea);
            let ghost n1 = sea.nodes@;
            proof {
                crate::expr::lemma_tms_of_len(items@);
                lemma_room_after(n0, n1, sizes_tm(tms_of(items@)), 1);
            }
            let ghost id_seq = ids@;
            let ghost c1 = sea.clashes@;
            let id = add_node_tracked(sea, ExprF::Error(clone_error(err), ids));
            proof {
                lemma_clashes_trans(old(sea).clashes@, c1, sea.clashes@, n1, sea.nodes@);
                lemma_add_node_steps(n0, n1, sea.nodes@, sizes_tm(tms_of(items@)), 1);
                if sea.clashes@.len() == old(sea).clashes@.len() {
                    let ts = tms_of(items@);
                    assert forall|i: int| 0 <= i < ts.len() implies represents(
                        sea.nodes@,
                        #[trigger] id_seq[i],
                        ts[i],
                    ) by {
                        lemma_represents_extends(n1, sea.nodes@, id_seq[i], ts[i]);
                    }
                }
            }
            id
        },
    }
}

proof fn lemma_clashes_trans(
    a: Seq<(ExprId, ExprGraph)>,
    b: Seq<(ExprId, ExprGraph)>,
    c: Seq<(ExprId, ExprGraph)>,
    nb: Map<ExprId, (ExprGraph, usize)>,
    nc: Map<ExprId, (ExprGraph, usize)>,
)
    requires
        clashes_added(a, b, nb),
        clashes_added(b, c, nc),
        extends(nb, nc),
    ensures
        clashes_added(a, c, nc),
{
    assert(c.subrange(0, a.len() as int) =~= c.subrange(0, b.len() as int).subrange(0, a.len() as int));
    assert forall|i: int| a.len() <= i < c.len() implies nc.contains_key((#[trigger] c[i]).0) && nc[c[i].0].0
        != c[i].1 by {
        if i < b.len() {
            assert(c[i] == c.subrange(0, b.len() as int)[i]);
            assert(nb.contains_key(b[i].0));
        }
    }
}

/// A layer that represents `t` keeps doing so when the store grows.
proof fn lemma_represents_extends(
    a: Map<ExprId, (ExprGraph, usize)>,
    b: Map<ExprId, (ExprGraph, usize)>,
    id: ExprId,
    t: Term,
)
    requires
        extends(a, b),
        represents(a, id, t),
    ensures
        represents(b, id, t),
    decreases t,
{
    assert(b.contains_key(id) && b[id].0 == a[id].0);
    match t {
        Tm::App(f, x) => {
            let (fi, xi) = match a[id].0 {
                ExprF::App { func, arg } => (func, arg),
                _ => (0, 0),
            };
            lemma_represents_extends(a, b, fi, *f);
            lemma_represents_extends(a, b, xi, *x);
        },
        Tm::Lam(_, p, x) => {
            let (pi, xi) = match a[id].0 {
                ExprF::Lambda { param_ty, body, .. } => (param_ty, body),
                _ => (0, 0),
            };
            lemma_represents_extends(a, b, pi, *p);
            lemma_represents_extends(a, b, xi, *x);
        },
        Tm::Pi(_, p, x) => {
            let (pi, xi) = match a[id].0 {
                ExprF::Pi { param_ty, ret_ty, .. } => (param_ty, ret_ty),
                _ => (0, 0),
            };
            lemma_represents_extends(a, b, pi, *p);
            lemma_represents_extends(a, b, xi, *x);
        },
        Tm::Fail(_, ts) => {
            let ids = match a[id].0 {
                ExprF::Error(_, ids) => ids@,
                _ => Seq::empty(),
            };
            assert forall|i: int| 0 <= i < ts.len() implies represents(b, #[trigger] ids[i], ts[i]) by {
                assert(decreases_to!(t => ts));
                assert(decreases_to!(ts => ts[i]));
                lemma_represents_extends(a, b, ids[i], ts[i]);
            }
        },
        _ => {},
    }
}

/// Reading back a layer that represents `t` gives `t` without its binder
/// names whenever the fuel suffices, and more than `size_tm(t)` suffices.
proof fn lemma_represents_fuel(nodes: Map<ExprId, (ExprGraph, usize)>, id: ExprId, t: Term, n: nat)
    requires
        represents(nodes, id, t),
    ensures
        n > size_tm(t) ==> tree_fuel(nodes, id, n) is Some,
        tree_fuel(nodes, id, n) is Some ==> tree_fuel(nodes, id, n) == Some(Some(erase_names(t))),
    decreases t, 1nat,
{
    if n > 0 {
        let m = (n - 1) as nat;
        match t {
            Tm::App(f, x) => {
                let (fi, xi) = match nodes[id].0 {
                    ExprF::App { func, arg } => (func, arg),
                    _ => (0, 0),
                };
                lemma_represents_fuel(nodes, fi, *f, m);
                lemma_represents_fuel(nodes, xi, *x, m);
            },
            Tm::Lam(_, p, x) => {
                let (pi, xi) = match nodes[id].0 {
                    ExprF::Lambda { param_ty, body, .. } => (param_ty, body),
                    _ => (0, 0),
                };
                lemma_represents_fuel(nodes, pi, *p, m);
                lemma_represents_fuel(nodes, xi, *x, m);
            },
            Tm::Pi(_, p, x) => {
                let (pi, xi) = match nodes[id].0 {
                    ExprF::Pi { param_ty, ret_ty, .. } => (param_ty, ret_ty),
                    _ => (0, 0),
                };
                lemma_represents_fuel(nodes, pi, *p, m);
                lemma_represents_fuel(nodes, xi, *x, m);
            },
            Tm::Fail(_, ts) => {
                let ids = match nodes[id].0 {
                    ExprF::Error(_, ids) => ids@,
                    _ => Seq::empty(),
                };
                assert(decreases_to!(t => ts));
                lemma_represents_fuel_all(nodes, ids, ts, m);
            },
            _ => {},
        }
    }
}

proof fn lemma_represents_fuel_all(
    nodes: Map<ExprId, (ExprGraph, usize)>,
    ids: Seq<ExprId>,
    ts: Seq<Term>,
    n: nat,
)
    requires
        ids.len() == ts.len(),
        forall|i: int| 0 <= i < ts.len() ==> represents(nodes, #[trigger] ids[i], ts[i]),
    ensures
        n > sizes_tm(ts) ==> trees_fuel(nodes, ids, n) is Some,
        trees_fuel(nodes, ids, n) is Some ==> trees_fuel(nodes, ids, n) == Some(
            Some(erase_names_all(ts)),
        ),
    decreases ts, 0nat,
{
    if ts.len() > 0 {
        let k = ts.len() - 1;
        assert(ids.drop_last().len() == ts.drop_last().len());
        assert forall|i: int| 0 <= i < ts.drop_last().len() implies represents(
            nodes,
            #[trigger] ids.drop_last()[i],
            ts.drop_last()[i],
        ) by {
            assert(ids.drop_last()[i] == ids[i]);
            assert(ts.drop_last()[i] == ts[i]);
        }
        lemma_represents_fuel_all(nodes, ids.drop_last(), ts.drop_last(), n);
        assert(represents(nodes, ids[k], ts[k]));
        assert(decreases_to!(ts => ts[k]));
        lemma_represents_fuel(nodes, ids.last(), ts.last(), n);
    }
}

/// Lowering and reading back: a layer that represents `t` reads back, by
/// `get_tree`, as `t` with its binder names emptied.
pub proof fn lemma_represented_reads_back(nodes: Map<ExprId, (ExprGraph, usize)>, id: ExprId, t: Term)
    requires
        represents(nodes, id, t),
    ensures
        tree_terminates(nodes, id),
        tree_fuel(nodes, id, tree_steps(nodes, id)) == Some(Some(erase_names(t))),
{
    lemma_represents_fuel(nodes, id, t, size_tm(t) + 1);
    assert(tree_fuel(nodes, id, size_tm(t) + 1) is Some);
    lemma_represents_fuel(nodes, id, t, tree_steps(nodes, id));
}

proof fn lemma_trees_fuel_prefix(nodes: Map<ExprId, (ExprGraph, usize)>, ids: Seq<ExprId>, n: nat, k: int)
    requires
        0 <= k <= ids.len(),
        trees_fuel(nodes, ids, n) is Some,
    ensures
        trees_fuel(nodes, ids.take(k), n) is Some,
        trees_fuel(nodes, ids.take(k), n) matches Some(None) ==> trees_fuel(nodes, ids, n) == Some(
            None::<Seq<Term>>,
        ),
    decreases ids.len(),
{
    if k < ids.len() {
        assert(ids.drop_last().take(k) =~= ids.take(k));
        lemma_trees_fuel_prefix(nodes, ids.drop_last(), n, k);
    } else {
        assert(ids.take(k) =~= ids);
    }
}

proof fn lemma_trees_fuel_stop(nodes: Map<ExprId, (ExprGraph, usize)>, ids: Seq<ExprId>, n: nat, k: int)
    requires
        1 <= k <= ids.len(),
        trees_fuel(nodes, ids, n) is Some,
        trees_fuel(nodes, ids.take(k - 1), n) is Some,
        trees_fuel(nodes, ids.take(k - 1), n).unwrap() is Some,
        tree_fuel(nodes, ids[k - 1], n) == Some(None::<Term>),
    ensures
        trees_fuel(nodes, ids, n) == Some(None::<Seq<Term>>),
{
    assert(ids.take(k).drop_last() =~= ids.take(k - 1));
    assert(ids.take(k).last() == ids[k - 1]);
    assert(trees_fuel(nodes, ids.take(k), n) == Some(None::<Seq<Term>>));
    lemma_trees_fuel_prefix(nodes, ids, n, k);
}

} // verus!
