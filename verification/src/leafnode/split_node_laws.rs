//! What a split of a leaf node does to its entries.
use crate::arena::{ArenaModel, LeafPtr};
use crate::leaf::laws::lemma_live_filter;
use crate::leaf::{
    accepts, holds, index_of, key_at, lemma_live, lemma_seek, lemma_seek_after, lemma_seek_is,
    lemma_with_entry, live, live_at, lookup, seek, seek_after, Entry, ARRAY_SIZE,
};
use crate::leafnode::model::NodeModel;
use crate::leafnode::split_node::{
    high_node, low_node, middle_bound, moved, moved_children, placed, row_cloned, splits_at,
};
use crate::leafnode::NewLeaves;
use crate::order::{alike, key_laws, lt, same};
use vstd::prelude::*;

verus! {

/// Leaves with their bounds; the last one may have none.
pub type Row<K> = Seq<(Option<K>, LeafPtr)>;

/// Bounds ascend, and only the last leaf can be without one.
pub open spec fn ascending<K: Ord>(l: Row<K>) -> bool {
    &&& forall|i: int| 0 <= i < l.len() - 1 ==> (#[trigger] l[i]).0 is Some
    &&& forall|i: int, j: int|
        0 <= i < j < l.len() && (#[trigger] l[i]).0 is Some && (#[trigger] l[j]).0 is Some ==> lt(
            l[i].0->0,
            l[j].0->0,
        )
}

/// The leaf in a row takes the key.
pub open spec fn takes<K: Ord>(e: (Option<K>, LeafPtr), x: K) -> bool {
    e.0 matches Some(b) ==> !lt(b, x)
}

/// The key belongs to the leaf in place `i` of the row: it is the first that takes it.
pub open spec fn routes<K: Ord>(l: Row<K>, x: K, i: int) -> bool {
    &&& 0 <= i < l.len()
    &&& takes(l[i], x)
    &&& forall|j: int| 0 <= j < i ==> !takes(#[trigger] l[j], x)
}

/// The leaves of a node with their bounds, the unbounded one last.
pub open spec fn row_of<K>(m: NodeModel<K>) -> Row<K> {
    Seq::new(
        live(m.children).len(),
        |i: int| (Some(live(m.children)[i].key), live(m.children)[i].value),
    )
        + seq![(None, m.unbounded)]
}

/// The place of the leaf under a bound in the row of a node.
pub open spec fn is_place<K: Ord>(m: NodeModel<K>, bound: Option<K>, j: int) -> bool {
    0 <= j < row_of(m).len() && alike(row_of(m)[j].0, bound)
}

/// A row in which the bounds are cloned leads keys to the same places.
pub proof fn lemma_row_cloned<K: Ord + Clone>(l: Row<K>, c: Row<K>)
    requires
        key_laws::<K>(),
        row_cloned(l, c),
    ensures
        ascending(l) ==> ascending(c),
        l.len() > 0 && l.last().0 is None ==> c.last().0 is None,
        forall|x: K, i: int| #[trigger] routes(l, x, i) ==> routes(c, x, i),
{
    if ascending(l) {
        assert forall|i: int| 0 <= i < c.len() - 1 implies (#[trigger] c[i]).0 is Some by {
            assert(l[i].0 is Some);
        }
        assert forall|i: int, j: int|
            0 <= i < j < c.len() && (#[trigger] c[i]).0 is Some && (#[trigger] c[j]).0
                is Some implies lt(c[i].0->0, c[j].0->0) by {
            assert(lt(l[i].0->0, l[j].0->0));
            assert(same(l[i].0->0, c[i].0->0) && same(l[j].0->0, c[j].0->0));
        }
    }
    assert forall|x: K, i: int| #[trigger] routes(l, x, i) implies routes(c, x, i) by {
        lemma_takes_cloned(l, c, x, i);
        assert forall|j: int| 0 <= j < i implies !takes(#[trigger] c[j], x) by {
            lemma_takes_cloned(l, c, x, j);
        }
    }
}

/// A leaf under a clone of its bound takes the same keys.
proof fn lemma_takes_cloned<K: Ord + Clone>(l: Row<K>, c: Row<K>, x: K, i: int)
    requires
        key_laws::<K>(),
        row_cloned(l, c),
        0 <= i < l.len(),
    ensures
        takes(l[i], x) == takes(c[i], x),
{
    if let Some(b) = l[i].0 {
        assert(same(b, c[i].0->0));
    }
}

/// A key belongs to the same leaf in a node and in its row.
pub proof fn lemma_row<K: Ord + Clone>(m: NodeModel<K>, x: K) -> (i: int)
    requires
        key_laws::<K>(),
        m.shape(),
    ensures
        ascending(row_of(m)),
        routes(row_of(m), x, i),
        row_of(m)[i] == (m.bound(x), m.slot(x)),
{
    let s = m.children;
    let l = live(s);
    let e = row_of(m);
    lemma_live(s);
    lemma_seek(s, x, 0);
    assert(e.len() == l.len() + 1);
    assert forall|i: int, j: int|
        0 <= i < j < e.len() && (#[trigger] e[i]).0 is Some && (#[trigger] e[j]).0
            is Some implies lt(
        e[i].0->0,
        e[j].0->0,
    ) by {
        assert(live_at(l, i));
        assert(lt(l[i].key, l[j].key) || (same(l[i].key, l[j].key) && l[i].removed));
    }
    let c = seek(s, x, 0);
    if c < s.len() {
        let j = choose|j: int| live_at(l, j) && #[trigger] l[j] == s[c];
        assert(e[j] == (m.bound(x), m.slot(x)));
        assert forall|i: int| 0 <= i < j implies !takes(#[trigger] e[i], x) by {
            assert(live_at(l, i));
            assert(lt(l[i].key, l[j].key) || (same(l[i].key, l[j].key) && l[i].removed));
            let d = choose|d: int| live_at(s, d) && #[trigger] s[d] == l[i];
            if d < c {
                assert(s[d].removed || lt(s[d].key, x));
            } else if d > c {
                assert(lt(s[c].key, s[d].key) || (same(s[c].key, s[d].key) && s[c].removed));
            }
        }
        j
    } else {
        let j = l.len() as int;
        assert forall|i: int| 0 <= i < j implies !takes(#[trigger] e[i], x) by {
            assert(live_at(l, i));
            let d = choose|d: int| live_at(s, d) && #[trigger] s[d] == l[i];
            assert(s[d].removed || lt(s[d].key, x));
        }
        j
    }
}

/// A key belongs to one place only.
pub proof fn lemma_routes_once<K: Ord>(l: Row<K>, x: K, i: int, j: int)
    requires
        routes(l, x, i),
        routes(l, x, j),
    ensures
        i == j,
{
    if i < j {
        assert(!takes(l[i], x));
    }
    if j < i {
        assert(!takes(l[j], x));
    }
}

/// Without the leaf that was split the bounded leaves stay as they are.
proof fn lemma_moved_others<K: Ord>(n: NewLeaves<K>, middle: K, s: Seq<Entry<K, LeafPtr>>)
    requires
        forall|i: int| 0 <= i < s.len() ==> !splits_at(n, (#[trigger] s[i]).key),
    ensures
        moved_children(n, middle, s) == Seq::new(s.len(), |i: int| (Some(s[i].key), s[i].value)),
    decreases s.len(),
{
    let t = Seq::new(s.len(), |i: int| (Some(s[i].key), s[i].value));
    if s.len() > 0 {
        lemma_moved_others(n, middle, s.drop_last());
        assert(!splits_at(n, s[s.len() - 1].key));
        assert(moved_children(n, middle, s) =~= t);
    } else {
        assert(moved_children(n, middle, s) =~= t);
    }
}

/// The new leaves take the place of the leaf that was split.
proof fn lemma_moved_children<K: Ord>(n: NewLeaves<K>, middle: K, s: Seq<Entry<K, LeafPtr>>, j: int)
    requires
        0 <= j < s.len(),
        splits_at(n, s[j].key),
        n.high_key_leaf is At,
        forall|i: int|
            0 <= i < s.len() && i != j ==> !splits_at(n, (#[trigger] s[i]).key),
    ensures
        ({
            let t = Seq::new(s.len(), |i: int| (Some(s[i].key), s[i].value));
            moved_children(n, middle, s) == t.take(j) + seq![
                (Some(middle), n.low_key_leaf),
                (Some(s[j].key), n.high_key_leaf),
            ] + t.skip(j + 1)
        }),
    decreases s.len(),
{
    let t = Seq::new(s.len(), |i: int| (Some(s[i].key), s[i].value));
    let d = s.drop_last();
    let td = Seq::new(d.len(), |i: int| (Some(d[i].key), d[i].value));
    let r = t.take(j) + seq![
        (Some(middle), n.low_key_leaf),
        (Some(s[j].key), n.high_key_leaf),
    ] + t.skip(j + 1);
    if j == s.len() - 1 {
        assert forall|i: int| 0 <= i < d.len() implies !splits_at(n, (#[trigger] d[i]).key) by {
            assert(d[i] == s[i]);
        }
        lemma_moved_others(n, middle, d);
        assert(td =~= t.take(j));
        assert(moved_children(n, middle, s) =~= r);
    } else {
        assert forall|i: int| 0 <= i < d.len() && i != j implies !splits_at(
            n,
            (#[trigger] d[i]).key,
        ) by {
            assert(d[i] == s[i]);
        }
        lemma_moved_children(n, middle, d, j);
        assert(!splits_at(n, s[s.len() - 1].key));
        assert(td.take(j) =~= t.take(j));
        assert(td.skip(j + 1).push(t[s.len() - 1]) =~= t.skip(j + 1));
        assert(moved_children(n, middle, s) =~= r);
    }
}

/// The row that a split of a node distributes: the row of the node with the new leaves in the
/// place of the leaf that was split.
pub open spec fn split_row<K>(e: Row<K>, j: int, middle: K, low: LeafPtr, high: LeafPtr) -> Row<K> {
    e.take(j) + seq![(Some(middle), low), (e[j].0, high)] + e.skip(j + 1)
}

/// The row that a split of a node distributes, from the row of the node.
pub proof fn lemma_moved_row<K: Ord + Clone>(m: NodeModel<K>, middle: K, j: int)
    requires
        key_laws::<K>(),
        m.shape(),
        m.new_leaves matches Some(n) && n.high_key_leaf is At && is_place(m, n.origin_leaf_key, j),
    ensures
        ({
            let n = m.new_leaves->0;
            moved(m, middle) == split_row(
                row_of(m),
                j,
                middle,
                n.low_key_leaf,
                n.high_key_leaf,
            )
        }),
{
    let n = m.new_leaves->0;
    let l = live(m.children);
    let e = row_of(m);
    let t = Seq::new(l.len(), |i: int| (Some(l[i].key), l[i].value));
    let r = split_row(e, j, middle, n.low_key_leaf, n.high_key_leaf);
    lemma_live(m.children);
    assert(e.len() == l.len() + 1);
    if j < l.len() {
        assert(e[j] == t[j]);
        assert forall|i: int| 0 <= i < l.len() && i != j implies !splits_at(
            n,
            (#[trigger] l[i]).key,
        ) by {
            assert(live_at(l, i) && live_at(l, j));
            if i < j {
                assert(lt(l[i].key, l[j].key) || l[i].removed);
            } else {
                assert(lt(l[j].key, l[i].key) || l[j].removed);
            }
        }
        lemma_moved_children(n, middle, l, j);
        assert(e.take(j) =~= t.take(j));
        assert(e.skip(j + 1) =~= t.skip(j + 1) + seq![(None, m.unbounded)]);
        assert(moved(m, middle) =~= r);
    } else {
        assert(j == l.len());
        assert(n.origin_leaf_key is None);
        lemma_moved_others(n, middle, l);
        assert(e.take(j) =~= t);
        assert(moved(m, middle) =~= r);
    }
}

/// Where a key belongs in the new row.
pub proof fn lemma_split_row<K: Ord + Clone>(
    e: Row<K>,
    j: int,
    middle: K,
    low: LeafPtr,
    high: LeafPtr,
    x: K,
    i: int,
)
    requires
        key_laws::<K>(),
        ascending(e),
        0 <= j < e.len(),
        routes(e, middle, j),
        !alike(e[j].0, Some(middle)),
        routes(e, x, i),
    ensures
        ({
            let l = split_row(e, j, middle, low, high);
            &&& l.len() == e.len() + 1
            &&& ascending(l)
            &&& l.last().0 == e.last().0
            &&& i < j ==> routes(l, x, i) && l[i] == e[i]
            &&& i == j && !lt(middle, x) ==> routes(l, x, j) && l[j] == (Some(middle), low)
            &&& i == j && lt(middle, x) ==> routes(l, x, j + 1) && l[j + 1] == (e[j].0, high)
            &&& i > j ==> routes(l, x, i + 1) && l[i + 1] == e[i]
        }),
{
    let l = split_row(e, j, middle, low, high);
    assert forall|p: int| 0 <= p < j implies #[trigger] l[p] == e[p] by {}
    assert(l[j] == (Some(middle), low));
    assert(l[j + 1] == (e[j].0, high));
    assert forall|p: int| j + 1 < p < l.len() implies #[trigger] l[p] == e[p - 1] by {}
    // The new bound lies between its neighbours.
    assert forall|p: int| 0 <= p < j implies lt((#[trigger] e[p]).0->0, middle) by {
        assert(!takes(e[p], middle));
    }
    if let Some(b) = e[j].0 {
        assert(lt(middle, b));
    }
    assert forall|p: int| j <= p < e.len() && (#[trigger] e[p]).0 is Some implies lt(
        middle,
        e[p].0->0,
    ) by {
        if p > j {
            assert(e[j].0 is Some);
            assert(lt(e[j].0->0, e[p].0->0));
        }
    }
    assert forall|p: int| 0 <= p < l.len() - 1 implies (#[trigger] l[p]).0 is Some by {
        if p < j {
            assert(e[p].0 is Some);
        } else if p > j {
            assert(e[p - 1].0 is Some);
        }
    }
    assert forall|p: int, q: int|
        0 <= p < q < l.len() && (#[trigger] l[p]).0 is Some && (#[trigger] l[q]).0
            is Some implies lt(
        l[p].0->0,
        l[q].0->0,
    ) by {
        let ep = if p <= j {
            p
        } else {
            p - 1
        };
        let eq = if q <= j {
            q
        } else {
            q - 1
        };
        if p == j {
            assert(lt(middle, e[eq].0->0));
        } else if q == j {
            assert(lt(e[ep].0->0, middle));
        } else {
            assert(e[ep].0 == l[p].0 && e[eq].0 == l[q].0);
            assert(lt(e[ep].0->0, e[eq].0->0));
        }
    }
    if i < j {
        assert(routes(l, x, i)) by {
            assert forall|p: int| 0 <= p < i implies !takes(#[trigger] l[p], x) by {
                assert(!takes(e[p], x));
            }
        }
    } else if i == j {
        assert forall|p: int| 0 <= p < j implies !takes(#[trigger] l[p], x) by {
            assert(!takes(e[p], x));
        }
    } else {
        assert(!takes(e[j], x));
        assert(e[j].0 is Some);
        assert(lt(middle, e[j].0->0));
        assert forall|p: int| 0 <= p < i + 1 implies !takes(#[trigger] l[p], x) by {
            if p < j {
                assert(!takes(e[p], x));
            } else if p > j {
                assert(!takes(e[p - 1], x));
            }
        }
    }
}

/// A blank node that is given leaves under ascending bounds holds just those.
pub proof fn lemma_placed<K: Ord + Clone>(m: NodeModel<K>, l: Row<K>)
    requires
        key_laws::<K>(),
        m.children.len() == 0,
        ascending(l),
        l.len() <= ARRAY_SIZE,
        forall|i: int| 0 <= i < l.len() ==> (#[trigger] l[i]).0 is Some,
    ensures
        ({
            let p = placed(m, l);
            &&& p.children == Seq::new(
                l.len(),
                |i: int| Entry { key: l[i].0->0, value: l[i].1, removed: false },
            )
            &&& p.unbounded == m.unbounded
            &&& p.new_leaves == m.new_leaves
            &&& p.shape()
        }),
    decreases l.len(),
{
    let p = placed(m, l);
    let t = Seq::new(l.len(), |i: int| Entry { key: l[i].0->0, value: l[i].1, removed: false });
    if l.len() == 0 {
        assert(p.children =~= t);
    } else {
        let d = l.drop_last();
        assert forall|i: int| 0 <= i < d.len() implies (#[trigger] d[i]).0 is Some by {
            assert(d[i] == l[i]);
        }
        assert forall|i: int, j: int|
            0 <= i < j < d.len() && (#[trigger] d[i]).0 is Some && (#[trigger] d[j]).0
                is Some implies lt(d[i].0->0, d[j].0->0) by {
            assert(d[i] == l[i] && d[j] == l[j]);
        }
        lemma_placed(m, d);
        let s = placed(m, d).children;
        let n = l.len() - 1;
        let k = l[n].0->0;
        assert(s.len() == n);
        assert forall|i: int| 0 <= i < n implies lt((#[trigger] s[i]).key, k) by {
            assert(s[i].key == l[i].0->0);
            assert(lt(l[i].0->0, l[n].0->0));
        }
        if holds(s, k) {
            let i = index_of(s, k);
            assert(key_at(s, k, i));
        }
        if n > 0 {
            assert(!s[0].removed);
        }
        assert(accepts(s, k));
        lemma_seek_after(s, k, 0);
        let j = seek_after(s, k, 0);
        if j < n {
            assert(lt(k, s[j].key));
            assert(lt(s[j].key, k));
        }
        lemma_with_entry(s, k, l[n].1);
        assert(p.children =~= t);
    }
}

/// Where a key belongs in a node that was given leaves under ascending bounds.
pub proof fn lemma_given<K: Ord + Clone>(m: NodeModel<K>, l: Row<K>, u: LeafPtr, x: K)
    requires
        key_laws::<K>(),
        m.shape(),
        m.unbounded == u,
        m.children == Seq::new(
            l.len(),
            |i: int| Entry { key: l[i].0->0, value: l[i].1, removed: false },
        ),
        forall|i: int| 0 <= i < l.len() ==> (#[trigger] l[i]).0 is Some,
    ensures
        forall|i: int| #[trigger] routes(l, x, i) ==> m.slot(x) == l[i].1,
        (forall|i: int| 0 <= i < l.len() ==> !takes(#[trigger] l[i], x)) ==> m.slot(x) == u,
{
    let s = m.children;
    assert forall|i: int| #[trigger] routes(l, x, i) implies m.slot(x) == l[i].1 by {
        assert forall|j: int| 0 <= j < i implies (#[trigger] s[j]).removed || lt(s[j].key, x) by {
            assert(!takes(l[j], x));
        }
        lemma_seek_is(s, x, 0, i);
    }
    if forall|i: int| 0 <= i < l.len() ==> !takes(#[trigger] l[i], x) {
        assert forall|j: int| 0 <= j < s.len() implies (#[trigger] s[j]).removed || lt(
            s[j].key,
            x,
        ) by {
            assert(!takes(l[j], x));
        }
        lemma_seek_is(s, x, 0, s.len() as int);
    }
}

/// Where a key belongs in the two nodes that a row is distributed to.
pub proof fn lemma_distributed<K: Ord + Clone>(
    low: NodeModel<K>,
    high: NodeModel<K>,
    l: Row<K>,
    x: K,
    i: int,
)
    requires
        key_laws::<K>(),
        low.children.len() == 0,
        high.children.len() == 0,
        2 <= l.len() <= ARRAY_SIZE + 2,
        ascending(l),
        l.last().0 is None,
        routes(l, x, i),
    ensures
        ({
            let half = l.len() as int / 2;
            &&& middle_bound(l) is Some
            &&& low_node(low, l).shape()
            &&& high_node(high, l).shape()
            &&& i < half <==> !lt(middle_bound(l)->0, x)
            &&& low_node(low, l).slot(x) == if i < half {
                l[i].1
            } else {
                l[half - 1].1
            }
            &&& high_node(high, l).slot(x) == if i < half {
                l[half].1
            } else {
                l[i].1
            }
        }),
{
    let half = l.len() as int / 2;
    let lp = l.take(half - 1);
    let hp = l.skip(half);
    let hs = hp.drop_last();
    let n = l.len() - 1;
    assert(l[half - 1].0 is Some);
    assert(l[n].0 is None);
    assert(ascending(lp)) by {
        assert forall|p: int| 0 <= p < lp.len() implies (#[trigger] lp[p]).0 is Some by {
            assert(l[p].0 is Some);
        }
        assert forall|p: int, q: int|
            0 <= p < q < lp.len() && (#[trigger] lp[p]).0 is Some && (#[trigger] lp[q]).0
                is Some implies lt(lp[p].0->0, lp[q].0->0) by {
            assert(lp[p] == l[p] && lp[q] == l[q]);
        }
    }
    assert forall|p: int| 0 <= p < lp.len() implies (#[trigger] lp[p]).0 is Some by {
        assert(l[p].0 is Some);
    }
    assert forall|p: int| 0 <= p < hs.len() implies (#[trigger] hs[p]).0 is Some by {
        assert(hs[p] == l[p + half]);
    }
    assert(ascending(hs)) by {
        assert forall|p: int, q: int|
            0 <= p < q < hs.len() && (#[trigger] hs[p]).0 is Some && (#[trigger] hs[q]).0
                is Some implies lt(hs[p].0->0, hs[q].0->0) by {
            assert(hs[p] == l[p + half] && hs[q] == l[q + half]);
        }
    }
    lemma_placed(low, lp);
    lemma_placed(high, hs);
    assert(hp.last() == l[n]);
    let lo = low_node(low, l);
    let hi = high_node(high, l);
    lemma_given(lo, lp, l[half - 1].1, x);
    lemma_given(hi, hs, l[n].1, x);
    let b = l[half - 1].0->0;
    if i < half {
        if i < half - 1 {
            assert(routes(lp, x, i)) by {
                assert(lp[i] == l[i]);
                assert forall|p: int| 0 <= p < i implies !takes(#[trigger] lp[p], x) by {
                    assert(!takes(l[p], x));
                }
            }
            assert(lt(l[i].0->0, b));
        } else {
            assert forall|p: int| 0 <= p < lp.len() implies !takes(#[trigger] lp[p], x) by {
                assert(!takes(l[p], x));
            }
        }
        // All bounds of the high-key node are beyond.
        if hs.len() > 0 {
            assert(hs[0] == l[half]);
            assert(lt(l[half - 1].0->0, l[half].0->0));
            assert(routes(hs, x, 0));
        }
    } else {
        assert(!takes(l[half - 1], x));
        assert forall|p: int| 0 <= p < lp.len() implies !takes(#[trigger] lp[p], x) by {
            assert(!takes(l[p], x));
        }
        if i < n {
            assert(routes(hs, x, i - half)) by {
                assert(hs[i - half] == l[i]);
                assert forall|p: int| 0 <= p < i - half implies !takes(#[trigger] hs[p], x) by {
                    assert(hs[p] == l[p + half]);
                    assert(!takes(l[p + half], x));
                }
            }
        } else {
            assert forall|p: int| 0 <= p < hs.len() implies !takes(#[trigger] hs[p], x) by {
                assert(hs[p] == l[p + half]);
                assert(!takes(l[p + half], x));
            }
        }
    }
}

/// Every key that a leaf of the row holds belongs to that leaf.
pub open spec fn row_in_place<K: Ord, V>(l: Row<K>, a: ArenaModel<K, V>) -> bool {
    forall|i: int, q: usize, x: K|
        #![trigger l[i], holds(a.entries(q), x)]
        0 <= i < l.len() && l[i].1 == LeafPtr::At(q) && holds(a.entries(q), x) ==> routes(l, x, i)
}

/// The two nodes that a row is distributed to hold its entries: the low-key node those up to the
/// bound between them, the high-key node those beyond.
pub proof fn lemma_distributed_found<K: Ord + Clone, V>(
    low: NodeModel<K>,
    high: NodeModel<K>,
    l: Row<K>,
    a: ArenaModel<K, V>,
    x: K,
    i: int,
)
    requires
        key_laws::<K>(),
        low.children.len() == 0,
        high.children.len() == 0,
        2 <= l.len() <= ARRAY_SIZE + 2,
        ascending(l),
        l.last().0 is None,
        row_in_place(l, a),
        routes(l, x, i),
    ensures
        ({
            let found = match l[i].1 {
                LeafPtr::At(p) => lookup(a.entries(p), x),
                LeafPtr::Null => None,
            };
            let below = !lt(middle_bound(l)->0, x);
            &&& middle_bound(l) is Some
            &&& low_node(low, l).found(a, x) == if below {
                found
            } else {
                None
            }
            &&& high_node(high, l).found(a, x) == if below {
                None
            } else {
                found
            }
        }),
{
    let half = l.len() as int / 2;
    lemma_distributed(low, high, l, x, i);
    if i < half {
        if let LeafPtr::At(q) = l[half].1 {
            if holds(a.entries(q), x) {
                lemma_routes_once(l, x, i, half);
            }
        }
    } else {
        if let LeafPtr::At(q) = l[half - 1].1 {
            if holds(a.entries(q), x) {
                lemma_routes_once(l, x, i, half - 1);
            }
        }
    }
}

/// When a node is split, each of its live leaves goes on under its bound, in order, and the
/// unbounded one comes last. In the place of the leaf that was split stand the low-key leaf, under
/// the bound `middle`, and then the high-key leaf, under the bound of the leaf that was split; if
/// there is no high-key leaf, the low-key leaf alone. Removed bounds are left out.
pub proof fn law_moved<K: Ord>(m: NodeModel<K>, middle: K)
    requires
        m.new_leaves is Some,
    ensures
        ({
            let n = m.new_leaves->0;
            let f = m.children.filter(|e: Entry<K, LeafPtr>| !e.removed);
            moved(m, middle) == Seq::new(
                f.len(),
                |i: int|
                    if n.origin_leaf_key is None || !same(f[i].key, n.origin_leaf_key->0) {
                        seq![(Some(f[i].key), f[i].value)]
                    } else if n.high_key_leaf is Null {
                        seq![(Some(middle), n.low_key_leaf)]
                    } else {
                        seq![(Some(middle), n.low_key_leaf), (Some(f[i].key), n.high_key_leaf)]
                    },
            ).flatten() + (if n.origin_leaf_key is Some {
                seq![(None, m.unbounded)]
            } else if n.high_key_leaf is Null {
                seq![(Some(middle), n.low_key_leaf)]
            } else {
                seq![(Some(middle), n.low_key_leaf), (None, n.high_key_leaf)]
            })
        }),
{
    lemma_live_filter(m.children);
    lemma_moved_flat(m.new_leaves->0, middle, live(m.children));
}

/// What becomes of the bounded leaves, leaf by leaf.
proof fn lemma_moved_flat<K: Ord>(n: NewLeaves<K>, middle: K, s: Seq<Entry<K, LeafPtr>>)
    ensures
        moved_children(n, middle, s) == Seq::new(
            s.len(),
            |i: int|
                if n.origin_leaf_key is None || !same(s[i].key, n.origin_leaf_key->0) {
                    seq![(Some(s[i].key), s[i].value)]
                } else if n.high_key_leaf is Null {
                    seq![(Some(middle), n.low_key_leaf)]
                } else {
                    seq![(Some(middle), n.low_key_leaf), (Some(s[i].key), n.high_key_leaf)]
                },
        ).flatten(),
    decreases s.len(),
{
    let part = |e: Entry<K, LeafPtr>|
        if n.origin_leaf_key is None || !same(e.key, n.origin_leaf_key->0) {
            seq![(Some(e.key), e.value)]
        } else if n.high_key_leaf is Null {
            seq![(Some(middle), n.low_key_leaf)]
        } else {
            seq![(Some(middle), n.low_key_leaf), (Some(e.key), n.high_key_leaf)]
        };
    let all = Seq::new(
        s.len(),
        |i: int|
            if n.origin_leaf_key is None || !same(s[i].key, n.origin_leaf_key->0) {
                seq![(Some(s[i].key), s[i].value)]
            } else if n.high_key_leaf is Null {
                seq![(Some(middle), n.low_key_leaf)]
            } else {
                seq![(Some(middle), n.low_key_leaf), (Some(s[i].key), n.high_key_leaf)]
            },
    );
    if s.len() > 0 {
        let t = s.drop_last();
        let some = Seq::new(
            t.len(),
            |i: int|
                if n.origin_leaf_key is None || !same(t[i].key, n.origin_leaf_key->0) {
                    seq![(Some(t[i].key), t[i].value)]
                } else if n.high_key_leaf is Null {
                    seq![(Some(middle), n.low_key_leaf)]
                } else {
                    seq![(Some(middle), n.low_key_leaf), (Some(t[i].key), n.high_key_leaf)]
                },
        );
        lemma_moved_flat(n, middle, t);
        some.lemma_flatten_push(part(s.last()));
        assert(all =~= some.push(part(s.last())));
        assert(moved_children(n, middle, s) =~= some.flatten() + part(s.last()));
    } else {
        assert(all =~= Seq::empty());
    }
}

/// A row of leaves is shared evenly between two blank nodes, in order. The last leaf of the lower
/// half becomes the unbounded leaf of the low-key node, and its bound is the one between the nodes.
/// A last leaf without a bound becomes the unbounded leaf of the high-key node; without such a leaf
/// that node keeps the one that it has. All other leaves keep their bounds.
pub proof fn law_shared_row<K: Ord + Clone>(low: NodeModel<K>, high: NodeModel<K>, l: Row<K>)
    requires
        key_laws::<K>(),
        low.children.len() == 0,
        high.children.len() == 0,
        2 <= l.len() <= ARRAY_SIZE + 2,
        ascending(l),
    ensures
        ({
            let half = l.len() as int / 2;
            let lo = low_node(low, l);
            let hi = high_node(high, l);
            let rest = l.len() - half - if l.last().0 is None {
                1int
            } else {
                0int
            };
            &&& middle_bound(l) == l[half - 1].0
            &&& lo.new_leaves == low.new_leaves
            &&& lo.unbounded == l[half - 1].1
            &&& lo.children.len() == half - 1
            &&& forall|i: int|
                0 <= i < half - 1 ==> #[trigger] lo.children[i] == (Entry {
                    key: l[i].0->0,
                    value: l[i].1,
                    removed: false,
                })
            &&& hi.new_leaves == high.new_leaves
            &&& hi.unbounded == if l.last().0 is None {
                l.last().1
            } else {
                high.unbounded
            }
            &&& hi.children.len() == rest
            &&& forall|i: int|
                0 <= i < rest ==> #[trigger] hi.children[i] == (Entry {
                    key: l[half + i].0->0,
                    value: l[half + i].1,
                    removed: false,
                })
        }),
{
    let half = l.len() as int / 2;
    let n = l.len() - 1;
    let lp = l.take(half - 1);
    let hp = l.skip(half);
    let hs = if l.last().0 is None {
        hp.drop_last()
    } else {
        hp
    };
    assert forall|p: int| 0 <= p < lp.len() implies (#[trigger] lp[p]).0 is Some by {
        assert(l[p].0 is Some);
    }
    assert(ascending(lp)) by {
        assert forall|p: int, q: int|
            0 <= p < q < lp.len() && (#[trigger] lp[p]).0 is Some && (#[trigger] lp[q]).0
                is Some implies lt(lp[p].0->0, lp[q].0->0) by {
            assert(lp[p] == l[p] && lp[q] == l[q]);
        }
    }
    assert forall|p: int| 0 <= p < hs.len() implies (#[trigger] hs[p]).0 is Some by {
        assert(hs[p] == l[p + half]);
        if p + half == n {
            assert(l[n] == l.last());
        }
    }
    assert(ascending(hs)) by {
        assert forall|p: int, q: int|
            0 <= p < q < hs.len() && (#[trigger] hs[p]).0 is Some && (#[trigger] hs[q]).0
                is Some implies lt(hs[p].0->0, hs[q].0->0) by {
            assert(hs[p] == l[p + half] && hs[q] == l[q + half]);
        }
    }
    lemma_placed(low, lp);
    lemma_placed(high, hs);
    assert(hp.last() == l[n]);
}

} // verus!
