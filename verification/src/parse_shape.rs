//! The parse of a token stream, once token positions are dropped, depends
//! on the tokens alone: positions only ever become spans.
use vstd::prelude::*;

use crate::ast::{unspan, AstV, SAstV};
use crate::parser::{
    app_items, chain_items, def_parts, dot_fold, ends_with_dot, is_dot_leaf, is_sep, lemma_dot_fold, lemma_parts_from,
    next_def, next_sep, non_newlines, parse_defs, parse_level, parse_parts, parse_spec, parts_from, trees_from,
    DotItem, STV, TTV,
};
use crate::tokens::{AbsoluteIndent, ValidTokenV};

verus! {

/// A token tree with every position set to zero: its shape alone.
pub open spec fn erase_tree(t: STV) -> STV
    decreases t, 1nat,
{
    STV {
        tree: match t.tree {
            TTV::Leaf(x) => TTV::Leaf(x),
            TTV::Group(g) => {
                proof {
                    assert(decreases_to!(t => t.tree));
                }
                TTV::Group(erase_trees(g))
            },
        },
        start: 0,
        end: 0,
    }
}

/// The shapes of a list of token trees.
pub open spec fn erase_trees(ts: Seq<STV>) -> Seq<STV>
    decreases ts, 0nat,
{
    Seq::new(
        ts.len(),
        |i: int|
            if 0 <= i < ts.len() {
                erase_tree(ts[i])
            } else {
                STV { tree: TTV::Leaf(ValidTokenV::Dot), start: 0, end: 0 }
            },
    )
}

/// The syntax trees of a list, without their spans.
pub open spec fn unspans(s: Seq<SAstV>) -> Seq<AstV> {
    Seq::new(s.len(), |i: int| unspan(s[i]))
}

/// A `.` chain item without the positions of its ends.
pub open spec fn item_shape(it: DotItem) -> DotItem {
    match it {
        DotItem::One(j) => DotItem::One(j),
        DotItem::Chain(idx, _, _) => DotItem::Chain(idx, 0, 0),
    }
}

pub open spec fn item_shapes(s: Seq<DotItem>) -> Seq<DotItem> {
    Seq::new(s.len(), |i: int| item_shape(s[i]))
}

/// The tokens of a list of tokens with positions.
pub open spec fn labels(xs: Seq<(int, ValidTokenV<AbsoluteIndent>)>) -> Seq<ValidTokenV<AbsoluteIndent>> {
    Seq::new(xs.len(), |i: int| xs[i].1)
}

proof fn lemma_unspan_node(a: SAstV, b: SAstV)
    requires
        a.kind == b.kind,
        unspans(a.items) == unspans(b.items),
    ensures
        unspan(a) == unspan(b),
{
    assert(a.items.len() == unspans(a.items).len());
    assert(unspan(a).items =~= unspan(b).items) by {
        assert forall|i: int| 0 <= i < a.items.len() implies unspan(a).items[i] == unspan(b).items[i] by {
            assert(unspans(a.items)[i] == unspan(a.items[i]));
            assert(unspans(b.items)[i] == unspan(b.items[i]));
        }
    }
}

proof fn lemma_unspans_cons(x: SAstV, r: Seq<SAstV>)
    ensures
        unspans(seq![x] + r) == seq![unspan(x)] + unspans(r),
{
    assert(unspans(seq![x] + r) =~= seq![unspan(x)] + unspans(r));
}

proof fn lemma_next_sep(ts: Seq<STV>, k: int, hi: int, n: int)
    requires
        0 <= k,
        hi <= ts.len(),
    ensures
        next_sep(erase_trees(ts), k, hi, n) == next_sep(ts, k, hi, n),
    decreases hi - k,
{
    if k < hi {
        assert(erase_trees(ts)[k] == erase_tree(ts[k]));
        lemma_next_sep(ts, k + 1, hi, n);
    }
}

proof fn lemma_parts(ts: Seq<STV>, k: int, hi: int, n: int)
    requires
        0 <= k,
        hi <= ts.len(),
    ensures
        parts_from(erase_trees(ts), k, hi, n) == parts_from(ts, k, hi, n),
    decreases hi - k,
{
    lemma_next_sep(ts, k, hi, n);
    if k <= hi {
        crate::parser::lemma_next_sep(ts, k, hi, n);
    }
    let e = next_sep(ts, k, hi, n);
    if k <= e < hi {
        lemma_parts(ts, e + 1, hi, n);
    }
}

proof fn lemma_dot_fold_shape(ts: Seq<STV>, lo: int, k: int)
    requires
        0 <= lo <= k <= ts.len(),
    ensures
        item_shapes(dot_fold(erase_trees(ts), lo, k)) == item_shapes(dot_fold(ts, lo, k)),
    decreases k - lo,
{
    let es = erase_trees(ts);
    if k > lo {
        lemma_dot_fold_shape(ts, lo, k - 1);
        let a = dot_fold(es, lo, k - 1);
        let b = dot_fold(ts, lo, k - 1);
        let j = k - 1;
        assert(a.len() == item_shapes(a).len());
        assert(b.len() == item_shapes(b).len());
        assert(a.len() == b.len());
        if a.len() > 0 {
            assert(item_shapes(a)[a.len() - 1] == item_shapes(b)[b.len() - 1]);
            assert(item_shape(a.last()) == item_shape(b.last()));
            match b.last() {
                DotItem::One(d) => {
                    if 0 <= d < ts.len() {
                        assert(es[d] == erase_tree(ts[d]));
                    }
                },
                _ => {},
            }
        }
        assert(ends_with_dot(es, a) == ends_with_dot(ts, b));
        if ends_with_dot(ts, b) {
            let a1 = a.drop_last();
            let b1 = b.drop_last();
            if b1.len() > 0 {
                assert(item_shapes(a)[a.len() - 2] == item_shapes(b)[b.len() - 2]);
                assert(item_shape(a1.last()) == item_shape(b1.last()));
                assert(item_shapes(dot_fold(es, lo, k)) =~= item_shapes(dot_fold(ts, lo, k))) by {
                    assert forall|i: int| 0 <= i < a1.len() - 1 implies item_shapes(dot_fold(es, lo, k))[i]
                        == item_shapes(dot_fold(ts, lo, k))[i] by {
                        assert(item_shapes(a)[i] == item_shapes(b)[i]);
                    }
                }
            } else {
                assert(item_shapes(dot_fold(es, lo, k)) =~= item_shapes(dot_fold(ts, lo, k)));
            }
        } else {
            assert(item_shapes(dot_fold(es, lo, k)) =~= item_shapes(dot_fold(ts, lo, k))) by {
                assert forall|i: int| 0 <= i < a.len() implies item_shapes(dot_fold(es, lo, k))[i]
                    == item_shapes(dot_fold(ts, lo, k))[i] by {
                    assert(item_shapes(a)[i] == item_shapes(b)[i]);
                }
            }
        }
    }
}

proof fn lemma_level(ts: Seq<STV>, lo: int, hi: int, n: int)
    ensures
        unspan(parse_level(erase_trees(ts), lo, hi, n)) == unspan(parse_level(ts, lo, hi, n)),
    decreases ts, hi - lo, 8 - n, 2nat, 0nat,
{
    let es = erase_trees(ts);
    assert(es.len() == ts.len());
    if !(0 <= lo <= hi <= ts.len()) || n < 0 || n > 7 {
    } else if n == 7 {
        lemma_dot_fold_shape(ts, lo, hi);
        lemma_dot_fold(es, lo, hi);
        lemma_dot_fold(ts, lo, hi);
        let ie = dot_fold(es, lo, hi);
        let it = dot_fold(ts, lo, hi);
        lemma_app(ts, lo, hi, ie, it, 0);
        let ee = app_items(es, lo, hi, ie, 0);
        let et = app_items(ts, lo, hi, it, 0);
        assert(ee.len() == unspans(ee).len() && et.len() == unspans(et).len());
        if ee.len() == 1 {
            assert(unspans(ee)[0] == unspan(ee[0]) && unspans(et)[0] == unspan(et[0]));
        } else if ee.len() == 0 {
            lemma_unspan_node(parse_level(es, lo, hi, n), parse_level(ts, lo, hi, n));
        } else {
            lemma_unspan_node(parse_level(es, lo, hi, n), parse_level(ts, lo, hi, n));
        }
    } else {
        lemma_parts(ts, lo, hi, n);
        lemma_parts_from(ts, lo, hi, n);
        let parts = parts_from(ts, lo, hi, n);
        lemma_pparts(ts, lo, hi, n, parts, 0);
        let ee = parse_parts(es, lo, hi, n, parts, 0);
        let et = parse_parts(ts, lo, hi, n, parts, 0);
        assert(ee.len() == unspans(ee).len() && et.len() == unspans(et).len());
        if ee.len() == 1 {
            assert(unspans(ee)[0] == unspan(ee[0]) && unspans(et)[0] == unspan(et[0]));
        } else {
            lemma_unspan_node(parse_level(es, lo, hi, n), parse_level(ts, lo, hi, n));
        }
    }
}

proof fn lemma_pparts(ts: Seq<STV>, lo: int, hi: int, n: int, parts: Seq<(int, int)>, k: int)
    ensures
        unspans(parse_parts(erase_trees(ts), lo, hi, n, parts, k)) == unspans(parse_parts(ts, lo, hi, n, parts, k)),
    decreases ts, hi - lo, 8 - n, 0nat, parts.len() - k,
{
    let es = erase_trees(ts);
    if k < 0 || k >= parts.len() {
    } else if lo <= parts[k].0 <= parts[k].1 <= hi && 0 <= n < 7 {
        lemma_level(ts, parts[k].0, parts[k].1, n + 1);
        lemma_pparts(ts, lo, hi, n, parts, k + 1);
        lemma_unspans_cons(parse_level(es, parts[k].0, parts[k].1, n + 1), parse_parts(es, lo, hi, n, parts, k + 1));
        lemma_unspans_cons(parse_level(ts, parts[k].0, parts[k].1, n + 1), parse_parts(ts, lo, hi, n, parts, k + 1));
    }
}

proof fn lemma_app(ts: Seq<STV>, lo: int, hi: int, ie: Seq<DotItem>, it: Seq<DotItem>, m: int)
    requires
        item_shapes(ie) == item_shapes(it),
    ensures
        unspans(app_items(erase_trees(ts), lo, hi, ie, m)) == unspans(app_items(ts, lo, hi, it, m)),
    decreases ts, hi - lo, 1nat, 1nat, it.len() - m,
{
    let es = erase_trees(ts);
    assert(es.len() == ts.len());
    assert(ie.len() == item_shapes(ie).len() && it.len() == item_shapes(it).len());
    if m < 0 || m >= it.len() || !(0 <= lo <= hi <= ts.len()) {
    } else {
        assert(item_shapes(ie)[m] == item_shapes(it)[m]);
        assert(item_shapes(ie)[m] == item_shape(ie[m]));
        assert(item_shapes(it)[m] == item_shape(it[m]));
        let a = app_items(es, lo, hi, ie, m);
        let b = app_items(ts, lo, hi, it, m);
        let a_head = a[0];
        let b_head = b[0];
        assert(a == seq![a_head] + app_items(es, lo, hi, ie, m + 1));
        assert(b == seq![b_head] + app_items(ts, lo, hi, it, m + 1));
        match it[m] {
            DotItem::One(j) => {
                assert(item_shape(ie[m]) == DotItem::One(j));
                assert(ie[m] == DotItem::One(j));
                if 0 <= j < ts.len() {
                    assert(es[j] == erase_tree(ts[j]));
                    match ts[j].tree {
                        TTV::Leaf(tok) => {
                            assert(es[j].tree == TTV::Leaf(tok));
                            lemma_unspan_node(a_head, b_head);
                        },
                        TTV::Group(g) => {
                            assert(decreases_to!(ts => ts[j]));
                            assert(decreases_to!(ts[j] => ts[j].tree));
                            assert(decreases_to!(ts[j].tree => g));
                            assert(es[j].tree == TTV::Group(erase_trees(g)));
                            lemma_level(g, 0, g.len() as int, 0);
                            assert(erase_trees(g).len() == g.len());
                            lemma_unspans_cons(parse_level(erase_trees(g), 0, g.len() as int, 0), Seq::empty());
                            lemma_unspans_cons(parse_level(g, 0, g.len() as int, 0), Seq::empty());
                            assert(seq![parse_level(erase_trees(g), 0, g.len() as int, 0)] + Seq::<SAstV>::empty()
                                =~= seq![parse_level(erase_trees(g), 0, g.len() as int, 0)]);
                            assert(seq![parse_level(g, 0, g.len() as int, 0)] + Seq::<SAstV>::empty() =~= seq![
                                parse_level(g, 0, g.len() as int, 0),
                            ]);
                            lemma_unspan_node(a_head, b_head);
                        },
                    }
                }
            },
            DotItem::Chain(idx, _, _) => {
                assert(item_shape(ie[m]) == DotItem::Chain(idx, 0, 0));
                assert(ie[m] matches DotItem::Chain(idx2, _, _) && idx2 == idx);
                if hi - lo > 1 {
                    lemma_chain(ts, lo, hi, idx, 0);
                    lemma_unspan_node(a_head, b_head);
                }
            },
        }
        lemma_app(ts, lo, hi, ie, it, m + 1);
        lemma_unspans_cons(a_head, app_items(es, lo, hi, ie, m + 1));
        lemma_unspans_cons(b_head, app_items(ts, lo, hi, it, m + 1));
    }
}

proof fn lemma_chain(ts: Seq<STV>, lo: int, hi: int, idx: Seq<int>, m: int)
    ensures
        unspans(chain_items(erase_trees(ts), lo, hi, idx, m)) == unspans(chain_items(ts, lo, hi, idx, m)),
    decreases ts, hi - lo, 1nat, 0nat, idx.len() - m,
{
    if m < 0 || m >= idx.len() || hi - lo <= 1 {
    } else {
        lemma_level(ts, idx[m], idx[m] + 1, 0);
        lemma_chain(ts, lo, hi, idx, m + 1);
        lemma_unspans_cons(parse_level(erase_trees(ts), idx[m], idx[m] + 1, 0), chain_items(erase_trees(ts), lo, hi, idx, m + 1));
        lemma_unspans_cons(parse_level(ts, idx[m], idx[m] + 1, 0), chain_items(ts, lo, hi, idx, m + 1));
    }
}

proof fn lemma_erase_cons(g: STV, r: Seq<STV>)
    ensures
        erase_trees(seq![g] + r) == seq![erase_tree(g)] + erase_trees(r),
{
    assert(erase_trees(seq![g] + r) =~= seq![erase_tree(g)] + erase_trees(r));
}

/// Token trees read from two token lists with the same tokens have the
/// same shapes, whatever the positions.
proof fn lemma_trees(xs1: Seq<(int, ValidTokenV<AbsoluteIndent>)>, xs2: Seq<(int, ValidTokenV<AbsoluteIndent>)>, k: int, inside: bool)
    requires
        labels(xs1) == labels(xs2),
    ensures
        (trees_from(xs1, k, inside) is Some) == (trees_from(xs2, k, inside) is Some),
        trees_from(xs1, k, inside) is Some ==> trees_from(xs1, k, inside).unwrap().1 == trees_from(xs2, k, inside).unwrap().1
            && erase_trees(trees_from(xs1, k, inside).unwrap().0) == erase_trees(trees_from(xs2, k, inside).unwrap().0),
    decreases xs1.len() - k,
{
    assert(xs1.len() == labels(xs1).len() && xs2.len() == labels(xs2).len());
    if 0 <= k < xs1.len() {
        assert(labels(xs1)[k] == xs1[k].1 && labels(xs2)[k] == xs2[k].1);
        match xs1[k].1 {
            ValidTokenV::RParen => {},
            ValidTokenV::LParen => {
                lemma_trees(xs1, xs2, k + 1, true);
                if trees_from(xs1, k + 1, true) is Some {
                    let (inner1, m) = trees_from(xs1, k + 1, true).unwrap();
                    let (inner2, _) = trees_from(xs2, k + 1, true).unwrap();
                    if k < m < xs1.len() {
                        lemma_trees(xs1, xs2, m + 1, inside);
                        let g1 = STV { tree: TTV::Group(inner1), start: xs1[k].0, end: xs1[m].0 };
                        let g2 = STV { tree: TTV::Group(inner2), start: xs2[k].0, end: xs2[m].0 };
                        assert(erase_tree(g1) == erase_tree(g2));
                        if trees_from(xs1, m + 1, inside) is Some {
                            let r1 = trees_from(xs1, m + 1, inside).unwrap().0;
                            let r2 = trees_from(xs2, m + 1, inside).unwrap().0;
                            lemma_erase_cons(g1, r1);
                            lemma_erase_cons(g2, r2);
                        }
                    }
                }
            },
            t => {
                lemma_trees(xs1, xs2, k + 1, inside);
                if trees_from(xs1, k + 1, inside) is Some {
                    let r1 = trees_from(xs1, k + 1, inside).unwrap().0;
                    let r2 = trees_from(xs2, k + 1, inside).unwrap().0;
                    let l1 = STV { tree: TTV::Leaf(t), start: xs1[k].0, end: xs1[k].0 };
                    let l2 = STV { tree: TTV::Leaf(t), start: xs2[k].0, end: xs2[k].0 };
                    assert(erase_tree(l1) == erase_tree(l2));
                    lemma_erase_cons(l1, r1);
                    lemma_erase_cons(l2, r2);
                }
            },
        }
    }
}

proof fn lemma_next_def(xs1: Seq<(int, ValidTokenV<AbsoluteIndent>)>, xs2: Seq<(int, ValidTokenV<AbsoluteIndent>)>, k: int)
    requires
        labels(xs1) == labels(xs2),
        0 <= k,
    ensures
        next_def(xs1, k) == next_def(xs2, k),
    decreases xs1.len() - k,
{
    assert(xs1.len() == labels(xs1).len() && xs2.len() == labels(xs2).len());
    if k < xs1.len() {
        assert(labels(xs1)[k] == xs1[k].1 && labels(xs2)[k] == xs2[k].1);
        lemma_next_def(xs1, xs2, k + 1);
    }
}

proof fn lemma_def_parts_same(xs1: Seq<(int, ValidTokenV<AbsoluteIndent>)>, xs2: Seq<(int, ValidTokenV<AbsoluteIndent>)>, k: int)
    requires
        labels(xs1) == labels(xs2),
        0 <= k,
    ensures
        def_parts(xs1, k) == def_parts(xs2, k),
    decreases xs1.len() - k,
{
    assert(xs1.len() == labels(xs1).len() && xs2.len() == labels(xs2).len());
    lemma_next_def(xs1, xs2, k);
    let e = next_def(xs1, k);
    if k <= e < xs1.len() {
        lemma_def_parts_same(xs1, xs2, e + 1);
    }
}

proof fn lemma_parse_defs(
    xs1: Seq<(int, ValidTokenV<AbsoluteIndent>)>,
    xs2: Seq<(int, ValidTokenV<AbsoluteIndent>)>,
    parts: Seq<(int, int)>,
    k: int,
)
    requires
        labels(xs1) == labels(xs2),
        forall|i: int| 0 <= i < parts.len() ==> 0 <= (#[trigger] parts[i]).0 <= parts[i].1 <= xs1.len(),
    ensures
        (parse_defs(xs1, parts, k) is Some) == (parse_defs(xs2, parts, k) is Some),
        parse_defs(xs1, parts, k) is Some ==> unspans(parse_defs(xs1, parts, k).unwrap()) == unspans(
            parse_defs(xs2, parts, k).unwrap(),
        ),
    decreases parts.len() - k,
{
    assert(xs1.len() == labels(xs1).len() && xs2.len() == labels(xs2).len());
    if 0 <= k < parts.len() {
        let g1 = xs1.subrange(parts[k].0, parts[k].1);
        let g2 = xs2.subrange(parts[k].0, parts[k].1);
        assert(labels(g1) =~= labels(g2)) by {
            assert forall|i: int| 0 <= i < g1.len() implies labels(g1)[i] == labels(g2)[i] by {
                assert(labels(xs1)[parts[k].0 + i] == labels(xs2)[parts[k].0 + i]);
                assert(labels(xs1)[parts[k].0 + i] == xs1[parts[k].0 + i].1);
                assert(labels(xs2)[parts[k].0 + i] == xs2[parts[k].0 + i].1);
                assert(g1[i] == xs1[parts[k].0 + i] && g2[i] == xs2[parts[k].0 + i]);
                assert(labels(g1)[i] == g1[i].1 && labels(g2)[i] == g2[i].1);
            }
        }
        lemma_trees(g1, g2, 0, false);
        lemma_parse_defs(xs1, xs2, parts, k + 1);
        if trees_from(g1, 0, false) is Some && parse_defs(xs1, parts, k + 1) is Some {
            let ts1 = trees_from(g1, 0, false).unwrap().0;
            let ts2 = trees_from(g2, 0, false).unwrap().0;
            assert(erase_trees(ts1).len() == ts1.len() && erase_trees(ts2).len() == ts2.len());
            lemma_level(ts1, 0, ts1.len() as int, 0);
            lemma_level(ts2, 0, ts2.len() as int, 0);
            let p1 = parse_level(ts1, 0, ts1.len() as int, 0);
            let p2 = parse_level(ts2, 0, ts2.len() as int, 0);
            lemma_unspans_cons(p1, parse_defs(xs1, parts, k + 1).unwrap());
            lemma_unspans_cons(p2, parse_defs(xs2, parts, k + 1).unwrap());
        }
    }
}

/// The parse of a token stream, spans dropped, depends on its tokens other
/// than line breaks alone: two streams with the same such tokens both parse
/// or both fail, to the same trees up to their spans.
pub proof fn lemma_parse_ignores_positions(t1: Seq<ValidTokenV<AbsoluteIndent>>, t2: Seq<ValidTokenV<AbsoluteIndent>>)
    requires
        labels(non_newlines(t1)) == labels(non_newlines(t2)),
    ensures
        (parse_spec(t1) is Some) == (parse_spec(t2) is Some),
        parse_spec(t1) is Some ==> unspans(parse_spec(t1).unwrap()) == unspans(parse_spec(t2).unwrap()),
{
    let xs1 = non_newlines(t1);
    let xs2 = non_newlines(t2);
    assert(xs1.len() == labels(xs1).len() && xs2.len() == labels(xs2).len());
    if xs1.len() > 0 {
        assert(labels(xs1)[0] == xs1[0].1 && labels(xs2)[0] == xs2[0].1);
        if xs1[0].1 is Def {
            crate::parser::lemma_def_parts(xs1, 1);
            lemma_def_parts_same(xs1, xs2, 1);
            lemma_parse_defs(xs1, xs2, def_parts(xs1, 1), 0);
        }
    }
}

} // verus!
