//! What follows when a leaf node has no room for another leaf: it is split, or the split of the
//! leaf is given up.
use crate::arena::{lemma_discarded, lemma_links_only, ArenaModel, LeafPtr};
use crate::error::InsertError;
use crate::leaf::laws::{lemma_live_filter, lemma_lookup_copied};
use crate::leaf::{
    copied, entries_wf, holds, key_at, lemma_live, live, live_at, lookup, Entry, ARRAY_SIZE,
};
use crate::leafnode::arena_laws::apart;
use crate::leafnode::laws::{lemma_same_contents, lemma_slot_owned};
use crate::leafnode::locker::unlocked;
use crate::leafnode::model::{lemma_owns_active, lemma_same_leaves, lemma_wf_in, NodeModel};
use crate::leafnode::release::discarded_at;
use crate::leafnode::routing::{lemma_bound_held, lemma_leaf_bound, lemma_slot_same};
use crate::leafnode::split::{lemma_copied_live, lemma_split_plans, split_high, split_low};
use crate::leafnode::split_laws::{
    lemma_split_bound, lemma_split_frame, lemma_split_parts, lemma_split_shape, split_for,
};
use crate::leafnode::split_node::{high_node, low_node, middle_bound, moved, row_cloned};
use crate::leafnode::split_node_laws::{
    ascending, is_place, lemma_distributed, lemma_distributed_found, lemma_moved_row, lemma_placed,
    lemma_routes_once, lemma_row, lemma_row_cloned, lemma_split_row, routes, row_in_place, row_of,
    split_row, Row,
};
use crate::leafnode::write::inserts;
use crate::order::{alike, bound_cloned, class, key_laws, lt, same};
use vstd::prelude::*;

verus! {

/// Each leaf of a node stands in one place of its row, and is one that the node owns.
pub proof fn lemma_row_leaves<K: Ord + Clone, V>(m: NodeModel<K>, a: ArenaModel<K, V>)
    requires
        key_laws::<K>(),
        m.wf(a),
    ensures
        forall|i: int| 0 <= i < row_of(m).len() ==> m.owns((#[trigger] row_of(m)[i]).1) && a.sound(
            row_of(m)[i].1,
        ),
        forall|i: int, j: int|
            0 <= i < row_of(m).len() && 0 <= j < row_of(m).len() && i != j
                && (#[trigger] row_of(m)[i]).1 == (#[trigger] row_of(m)[j]).1 ==> row_of(m)[i].1
                is Null,
        forall|i: int, j: int|
            0 <= i < row_of(m).len() && 0 <= j < row_of(m).len() && (#[trigger] row_of(m)[i]).0
                == (#[trigger] row_of(m)[j]).0 ==> i == j,
        row_of(m).len() <= ARRAY_SIZE + 1,
{
    let s = m.children;
    let l = live(s);
    let e = row_of(m);
    lemma_live(s);
    assert(e.len() == l.len() + 1);
    assert forall|i: int| 0 <= i < e.len() implies m.owns((#[trigger] e[i]).1) && a.sound(
        e[i].1,
    ) by {
        if i < l.len() {
            let d = choose|d: int| live_at(s, d) && #[trigger] s[d] == l[i];
            assert(live_at(s, d) && s[d].value == e[i].1);
            assert(a.sound(s[d].value));
        } else {
            assert(e[i].1 == m.unbounded);
        }
    }
    assert forall|i: int, j: int|
        0 <= i < e.len() && 0 <= j < e.len() && i != j && (#[trigger] e[i]).1
            == (#[trigger] e[j]).1 implies e[i].1 is Null by {
        if i < l.len() && j < l.len() {
            let d = choose|d: int| live_at(s, d) && #[trigger] s[d] == l[i];
            let f = choose|f: int| live_at(s, f) && #[trigger] s[f] == l[j];
            assert(live_at(l, i) && live_at(l, j));
            if i < j {
                assert(lt(l[i].key, l[j].key) || (same(l[i].key, l[j].key) && l[i].removed));
            } else {
                assert(lt(l[j].key, l[i].key) || (same(l[i].key, l[j].key) && l[j].removed));
            }
            assert(d != f);
            assert(s[d].value == s[f].value);
        } else if i < l.len() {
            let d = choose|d: int| live_at(s, d) && #[trigger] s[d] == l[i];
            assert(s[d].value == m.unbounded);
        } else {
            let f = choose|f: int| live_at(s, f) && #[trigger] s[f] == l[j];
            assert(s[f].value == m.unbounded);
        }
    }
    assert forall|i: int, j: int|
        0 <= i < e.len() && 0 <= j < e.len() && (#[trigger] e[i]).0
            == (#[trigger] e[j]).0 implies i == j by {
        if i < l.len() && j < l.len() {
            assert(live_at(l, i) && live_at(l, j));
            if i < j {
                assert(lt(l[i].key, l[j].key) || (same(l[i].key, l[j].key) && l[i].removed));
            } else if j < i {
                assert(lt(l[j].key, l[i].key) || (same(l[i].key, l[j].key) && l[j].removed));
            }
        }
    }
}

/// The situation after an insertion for which the node had no room.
pub open spec fn full_for<K: Ord + Clone, V: Clone>(
    m: NodeModel<K>,
    a: ArenaModel<K, V>,
    k: K,
    v: V,
    m2: NodeModel<K>,
    a2: ArenaModel<K, V>,
) -> bool {
    &&& key_laws::<K>()
    &&& a.wf()
    &&& a2.wf()
    &&& m.wf(a)
    &&& m.keys_in_place(a)
    &&& inserts(m, a, k, v, Err(InsertError::Full((k, v))), m2, a2)
}

/// The bound of the low-key leaf when the node is split: its greatest key.
pub open spec fn low_key_bound<K, V>(m: NodeModel<K>, a: ArenaModel<K, V>) -> K {
    live(a.entries(m.new_leaves->0.low_key_leaf->At_0)).last().key
}

/// What an insertion for which there was no room leaves behind.
pub proof fn lemma_full<K: Ord + Clone, V: Clone>(
    m: NodeModel<K>,
    a: ArenaModel<K, V>,
    k: K,
    v: V,
    m2: NodeModel<K>,
    a2: ArenaModel<K, V>,
) -> (j: int)
    requires
        full_for(m, a, k, v, m2, a2),
    ensures
        ({
            let full = m.slot(k)->At_0;
            let s = a.entries(full);
            let low = a.next as usize;
            let high = (a.next + 1) as usize;
            let n = m2.new_leaves->0;
            let max = low_key_bound(m2, a2);
            &&& m.slot(k) is At
            &&& split_for(m, a, k, v, full, Err(InsertError::Full((k, v))), m2, a2)
            &&& m2.new_leaves is Some
            &&& m2.children == m.children
            &&& m2.unbounded == m.unbounded
            &&& alike(m.bound(k), n.origin_leaf_key)
            &&& n.low_key_leaf == LeafPtr::At(low)
            &&& n.high_key_leaf == LeafPtr::At(high)
            &&& split_high(live(s), k, v).len() > 0
            &&& copied(split_low(live(s), k, v), a2.entries(low))
            &&& copied(split_high(live(s), k, v), a2.entries(high))
            &&& same(max, split_low(live(s), k, v).last().key)
            &&& routes(row_of(m), k, j)
            &&& routes(row_of(m), max, j)
            &&& row_of(m)[j] == (m.bound(k), LeafPtr::At(full))
            &&& !alike(row_of(m)[j].0, Some(max))
            &&& moved(m2, max) == split_row(
                row_of(m),
                j,
                max,
                LeafPtr::At(low),
                LeafPtr::At(high),
            )
        }),
{
    let full = m.slot(k)->At_0;
    let s = a.entries(full);
    let low = a.next as usize;
    let high = (a.next + 1) as usize;
    let low_plan = split_low(live(s), k, v);
    let high_plan = split_high(live(s), k, v);
    lemma_slot_owned(m, a, k);
    lemma_bound_held(m, k);
    assert(split_for(m, a, k, v, full, Err(InsertError::Full((k, v))), m2, a2));
    let b = lemma_split_shape(m, a, k, v, full, Err(InsertError::Full((k, v))), m2, a2);
    let max = low_key_bound(m2, a2);
    assert(entries_wf(s));
    lemma_split_plans(s, k, v);
    lemma_copied_live(low_plan, a2.entries(low));
    assert(same(low_plan.last().key, max));
    lemma_row_leaves(m, a);
    let j = lemma_row(m, k);
    let i = lemma_row(m, max);
    lemma_split_bound(m, a, k, v, full, max);
    assert(row_of(m)[i].0 == row_of(m)[j].0);
    assert(i == j);
    // A key of the high-key leaf is beyond the bound of the low-key leaf, and not beyond that of
    // the full leaf.
    if alike(m.bound(k), Some(max)) {
        let t = high_plan.len() - 1;
        let y = high_plan[t].key;
        assert(!high_plan[t].removed);
        assert(key_at(high_plan, y, t));
        assert(holds(high_plan, y));
        lemma_split_parts(s, k, v, y);
        assert(lt(max, y));
        if !same(y, k) {
            assert(lookup(high_plan, y) is Some);
            assert(holds(s, y));
            lemma_leaf_bound(m, y, k, full);
        } else {
            lemma_slot_same(m, y, k);
        }
        lemma_bound_held(m, y);
        assert(false);
    }
    assert(row_of(m2) =~= row_of(m));
    assert(is_place(m2, m2.new_leaves->0.origin_leaf_key, j));
    lemma_moved_row(m2, max, j);
    j
}

/// In the row that is distributed every key stands in the leaf that it belongs to.
proof fn lemma_full_row<K: Ord + Clone, V: Clone>(
    m: NodeModel<K>,
    a: ArenaModel<K, V>,
    k: K,
    v: V,
    m2: NodeModel<K>,
    a2: ArenaModel<K, V>,
)
    requires
        full_for(m, a, k, v, m2, a2),
    ensures
        row_in_place(moved(m2, low_key_bound(m2, a2)), a2),
{
    let j = lemma_full(m, a, k, v, m2, a2);
    let full = m.slot(k)->At_0;
    let s = a.entries(full);
    let low = a.next as usize;
    let high = (a.next + 1) as usize;
    let low_plan = split_low(live(s), k, v);
    let high_plan = split_high(live(s), k, v);
    let max = low_key_bound(m2, a2);
    let e = row_of(m);
    let l = moved(m2, max);
    lemma_row_leaves(m, a);
    lemma_split_frame(m, a, k, v, full, Err(InsertError::Full((k, v))), m2, a2);
    assert(entries_wf(s));
    lemma_split_plans(s, k, v);
    assert forall|i: int, q: usize, x: K|
        #![trigger l[i], holds(a2.entries(q), x)]
        0 <= i < l.len() && l[i].1 == LeafPtr::At(q) && holds(a2.entries(q), x) implies routes(
        l,
        x,
        i,
    ) by {
        let r = lemma_row(m, x);
        lemma_split_row(e, j, max, LeafPtr::At(low), LeafPtr::At(high), x, r);
        if i == j || i == j + 1 {
            lemma_split_parts(s, k, v, x);
            if i == j {
                assert(q == low);
                lemma_lookup_copied(low_plan, a2.entries(low), x);
            } else {
                assert(q == high);
                lemma_lookup_copied(high_plan, a2.entries(high), x);
            }
            if !same(x, k) {
                assert(lookup(s, x) is Some);
                assert(holds(s, x));
                lemma_leaf_bound(m, x, k, full);
            } else {
                lemma_slot_same(m, x, k);
            }
            assert(e[r].0 == e[j].0);
            assert(r == j);
        } else {
            let c = if i < j {
                i
            } else {
                i - 1
            };
            assert(l[i] == e[c]);
            assert(m.owns(e[c].1));
            lemma_owns_active(m, a, q);
            assert(a2.entries(q) == a.entries(q));
            assert(m.slot(x) == LeafPtr::At(q));
            assert(e[r].1 == e[c].1);
            assert(r == c);
        }
    }
}

/// The same of the row with cloned bounds.
proof fn lemma_full_row_cloned<K: Ord + Clone, V: Clone>(
    m: NodeModel<K>,
    a: ArenaModel<K, V>,
    k: K,
    v: V,
    m2: NodeModel<K>,
    a2: ArenaModel<K, V>,
    leaves: Row<K>,
)
    requires
        full_for(m, a, k, v, m2, a2),
        row_cloned(moved(m2, low_key_bound(m2, a2)), leaves),
    ensures
        row_in_place(leaves, a2),
{
    let l = moved(m2, low_key_bound(m2, a2));
    lemma_full_row(m, a, k, v, m2, a2);
    lemma_row_cloned(l, leaves);
    assert forall|i: int, q: usize, x: K|
        #![trigger leaves[i], holds(a2.entries(q), x)]
        0 <= i < leaves.len() && leaves[i].1 == LeafPtr::At(q) && holds(
            a2.entries(q),
            x,
        ) implies routes(leaves, x, i) by {
        assert(l[i].1 == LeafPtr::At(q));
        assert(routes(l, x, i));
    }
}

/// An insertion for which the node had no room is completed by splitting the node into two blank
/// ones: together they hold the entries of the node and the new one, the low-key node those up to
/// the bound between them and the high-key node those beyond. In both every key stands in the leaf
/// that it belongs to, and they have no leaf in common.
///
/// The insertion leaves the arena `a2` behind, and the node is split in a later one, in which the
/// leaves concerned still have their entries. `leaves` are the leaves under clones of their bounds.
pub proof fn law_split_leaf_node<K: Ord + Clone, V: Clone>(
    m: NodeModel<K>,
    a: ArenaModel<K, V>,
    k: K,
    v: V,
    m2: NodeModel<K>,
    a2: ArenaModel<K, V>,
    later: ArenaModel<K, V>,
    low_blank: NodeModel<K>,
    high_blank: NodeModel<K>,
    leaves: Row<K>,
)
    requires
        full_for(m, a, k, v, m2, a2),
        same_leaves(m2, a2, later),
        row_cloned(moved(m2, low_key_bound(m2, later)), leaves),
        low_blank.children.len() == 0,
        high_blank.children.len() == 0,
    ensures
        ({
            let low = low_node(low_blank, leaves);
            let high = high_node(high_blank, leaves);
            let before = m.contents(a);
            let below = low.contents(later);
            let beyond = high.contents(later);
            &&& middle_bound(leaves) is Some
            &&& forall|x: K| #[trigger]
                below.dom().contains(x) ==> !lt(middle_bound(leaves)->0, x)
            &&& forall|x: K| #[trigger]
                beyond.dom().contains(x) ==> lt(middle_bound(leaves)->0, x)
            &&& below.dom().union(beyond.dom()) == before.dom().union(class(k))
            &&& forall|x: K| #[trigger]
                below.dom().contains(x) ==> cloned(
                    if same(x, k) {
                        v
                    } else {
                        before[x]
                    },
                    below[x],
                )
            &&& forall|x: K| #[trigger]
                beyond.dom().contains(x) ==> cloned(
                    if same(x, k) {
                        v
                    } else {
                        before[x]
                    },
                    beyond[x],
                )
            &&& low.keys_in_place(later)
            &&& high.keys_in_place(later)
            &&& low.wf(later)
            &&& high.wf(later)
            &&& apart(low, high)
        }),
{
    let low = low_node(low_blank, leaves);
    let high = high_node(high_blank, leaves);
    let j = lemma_full(m, a, k, v, m2, a2);
    assert(concerned(m2, m2.new_leaves->0.low_key_leaf->At_0));
    lemma_split_leaf_node(m, a, k, v, m2, a2, low_blank, high_blank, leaves);
    lemma_full_concerned(m, a, k, v, m2, a2, low_blank, high_blank, leaves);
    lemma_wf_in(low, a2, later);
    lemma_wf_in(high, a2, later);
    lemma_same_contents(low, a2, low, later);
    lemma_same_contents(high, a2, high, later);
}

/// The leaf belongs to the node, or is one of the new ones of a split that is under way.
pub open spec fn concerned<K: Ord>(m: NodeModel<K>, p: usize) -> bool {
    ||| m.owns(LeafPtr::At(p))
    ||| m.new_leaves matches Some(n) && (n.low_key_leaf == LeafPtr::At(p) || n.high_key_leaf
        == LeafPtr::At(p))
}

/// In a later arena the leaves concerned are still active and have the entries that they had.
pub open spec fn same_leaves<K: Ord, V>(
    m: NodeModel<K>,
    a: ArenaModel<K, V>,
    later: ArenaModel<K, V>,
) -> bool {
    forall|p: usize| #[trigger]
        concerned(m, p) ==> (a.active(p) ==> later.active(p)) && later.entries(p) == a.entries(p)
}

/// The two nodes that a node without room is split into own no other leaves than those concerned.
proof fn lemma_full_concerned<K: Ord + Clone, V: Clone>(
    m: NodeModel<K>,
    a: ArenaModel<K, V>,
    k: K,
    v: V,
    m2: NodeModel<K>,
    a2: ArenaModel<K, V>,
    low_blank: NodeModel<K>,
    high_blank: NodeModel<K>,
    leaves: Row<K>,
)
    requires
        full_for(m, a, k, v, m2, a2),
        row_cloned(moved(m2, low_key_bound(m2, a2)), leaves),
        low_blank.children.len() == 0,
        high_blank.children.len() == 0,
    ensures
        ({
            let low = low_node(low_blank, leaves);
            let high = high_node(high_blank, leaves);
            &&& forall|p: usize| #[trigger] low.owns(LeafPtr::At(p)) ==> concerned(m2, p)
            &&& forall|p: usize| #[trigger] high.owns(LeafPtr::At(p)) ==> concerned(m2, p)
        }),
{
    let j = lemma_full(m, a, k, v, m2, a2);
    let l = moved(m2, low_key_bound(m2, a2));
    let e = row_of(m);
    let i = lemma_full_found(m, a, k, v, m2, a2, low_blank, high_blank, leaves, k);
    lemma_row_leaves(m, a);
    lemma_same_leaves(m, m2);
    lemma_distributed_owns(low_blank, high_blank, leaves);
    assert forall|c: int| 0 <= c < leaves.len() && (#[trigger] leaves[c]).1 is At implies concerned(
        m2,
        leaves[c].1->At_0,
    ) by {
        assert(leaves[c].1 == l[c].1);
        if c < j {
            assert(l[c] == e[c]);
            assert(m.owns(e[c].1));
        } else if c > j + 1 {
            assert(l[c] == e[c - 1]);
            assert(m.owns(e[c - 1].1));
        }
    }
    let low = low_node(low_blank, leaves);
    let high = high_node(high_blank, leaves);
    let half = leaves.len() as int / 2;
    assert forall|p: usize| #[trigger] low.owns(LeafPtr::At(p)) implies concerned(m2, p) by {
        let c = choose|c: int| 0 <= c < half && (#[trigger] leaves[c]).1 == LeafPtr::At(p);
        assert(leaves[c].1 == LeafPtr::At(p));
    }
    assert forall|p: usize| #[trigger] high.owns(LeafPtr::At(p)) implies concerned(m2, p) by {
        let c = choose|c: int|
            half <= c < leaves.len() && (#[trigger] leaves[c]).1 == LeafPtr::At(p);
        assert(leaves[c].1 == LeafPtr::At(p));
    }
}

/// What `law_split_leaf_node` says of the arena as the insertion left it.
proof fn lemma_split_leaf_node<K: Ord + Clone, V: Clone>(
    m: NodeModel<K>,
    a: ArenaModel<K, V>,
    k: K,
    v: V,
    m2: NodeModel<K>,
    a2: ArenaModel<K, V>,
    low_blank: NodeModel<K>,
    high_blank: NodeModel<K>,
    leaves: Row<K>,
)
    requires
        full_for(m, a, k, v, m2, a2),
        row_cloned(moved(m2, low_key_bound(m2, a2)), leaves),
        low_blank.children.len() == 0,
        high_blank.children.len() == 0,
    ensures
        ({
            let low = low_node(low_blank, leaves);
            let high = high_node(high_blank, leaves);
            let before = m.contents(a);
            let below = low.contents(a2);
            let beyond = high.contents(a2);
            &&& middle_bound(leaves) is Some
            &&& forall|x: K| #[trigger]
                below.dom().contains(x) ==> !lt(middle_bound(leaves)->0, x)
            &&& forall|x: K| #[trigger]
                beyond.dom().contains(x) ==> lt(middle_bound(leaves)->0, x)
            &&& below.dom().union(beyond.dom()) == before.dom().union(class(k))
            &&& forall|x: K| #[trigger]
                below.dom().contains(x) ==> cloned(
                    if same(x, k) {
                        v
                    } else {
                        before[x]
                    },
                    below[x],
                )
            &&& forall|x: K| #[trigger]
                beyond.dom().contains(x) ==> cloned(
                    if same(x, k) {
                        v
                    } else {
                        before[x]
                    },
                    beyond[x],
                )
            &&& low.keys_in_place(a2)
            &&& high.keys_in_place(a2)
            &&& low.wf(a2)
            &&& high.wf(a2)
            &&& apart(low, high)
        }),
{
    let low = low_node(low_blank, leaves);
    let high = high_node(high_blank, leaves);
    let before = m.contents(a);
    let below = low.contents(a2);
    let beyond = high.contents(a2);
    let j = lemma_full(m, a, k, v, m2, a2);
    let p = lemma_full_found(m, a, k, v, m2, a2, low_blank, high_blank, leaves, k);
    assert forall|x: K| #[trigger] below.dom().contains(x) implies !lt(
        middle_bound(leaves)->0,
        x,
    ) && cloned(
        if same(x, k) {
            v
        } else {
            before[x]
        },
        below[x],
    ) by {
        lemma_full_found(m, a, k, v, m2, a2, low_blank, high_blank, leaves, x);
    }
    assert forall|x: K| #[trigger] beyond.dom().contains(x) implies lt(
        middle_bound(leaves)->0,
        x,
    ) && cloned(
        if same(x, k) {
            v
        } else {
            before[x]
        },
        beyond[x],
    ) by {
        lemma_full_found(m, a, k, v, m2, a2, low_blank, high_blank, leaves, x);
    }
    assert forall|x: K|
        below.dom().union(beyond.dom()).contains(x) <==> #[trigger] before.dom().union(
            class(k),
        ).contains(x) by {
        lemma_full_found(m, a, k, v, m2, a2, low_blank, high_blank, leaves, x);
    }
    assert(below.dom().union(beyond.dom()) =~= before.dom().union(class(k)));
    lemma_full_nodes(m, a, k, v, m2, a2, low_blank, high_blank, leaves);
}

/// What is found under a key after the node was split.
pub proof fn lemma_full_found<K: Ord + Clone, V: Clone>(
    m: NodeModel<K>,
    a: ArenaModel<K, V>,
    k: K,
    v: V,
    m2: NodeModel<K>,
    a2: ArenaModel<K, V>,
    low_blank: NodeModel<K>,
    high_blank: NodeModel<K>,
    leaves: Row<K>,
    x: K,
) -> (i: int)
    requires
        full_for(m, a, k, v, m2, a2),
        row_cloned(moved(m2, low_key_bound(m2, a2)), leaves),
        low_blank.children.len() == 0,
        high_blank.children.len() == 0,
    ensures
        ({
            let low = low_node(low_blank, leaves);
            let high = high_node(high_blank, leaves);
            let below = !lt(middle_bound(leaves)->0, x);
            let before = if same(x, k) {
                Some(v)
            } else {
                m.found(a, x)
            };
            let after = if below {
                low.found(a2, x)
            } else {
                high.found(a2, x)
            };
            &&& middle_bound(leaves) is Some
            &&& before is Some <==> after is Some
            &&& before is Some ==> cloned(before->0, after->0)
            &&& below ==> high.found(a2, x) is None
            &&& !below ==> low.found(a2, x) is None
            &&& ascending(leaves)
            &&& 2 <= leaves.len() <= ARRAY_SIZE + 2
            &&& leaves.last().0 is None
            &&& routes(leaves, x, i)
        }),
{
    let j = lemma_full(m, a, k, v, m2, a2);
    let full = m.slot(k)->At_0;
    let s = a.entries(full);
    let low = a.next as usize;
    let high = (a.next + 1) as usize;
    let low_plan = split_low(live(s), k, v);
    let high_plan = split_high(live(s), k, v);
    let max = low_key_bound(m2, a2);
    let e = row_of(m);
    let l = moved(m2, max);
    lemma_row_leaves(m, a);
    lemma_split_frame(m, a, k, v, full, Err(InsertError::Full((k, v))), m2, a2);
    assert(entries_wf(s));
    lemma_split_plans(s, k, v);
    lemma_split_parts(s, k, v, x);
    let r = lemma_row(m, x);
    lemma_split_row(e, j, max, LeafPtr::At(low), LeafPtr::At(high), x, r);
    let i = if r < j || (r == j && !lt(max, x)) {
        r
    } else {
        r + 1
    };
    assert(routes(l, x, i));
    assert(e.last().0 is None);
    lemma_full_row_cloned(m, a, k, v, m2, a2, leaves);
    lemma_row_cloned(l, leaves);
    assert(leaves[i].1 == l[i].1);
    lemma_distributed_found(low_blank, high_blank, leaves, a2, x, i);
    if r == j {
        assert(m.slot(x) == LeafPtr::At(full));
        lemma_lookup_copied(low_plan, a2.entries(low), x);
        lemma_lookup_copied(high_plan, a2.entries(high), x);
    } else {
        if same(x, k) {
            lemma_routes_once(e, k, r, j);
        }
        assert(l[i] == e[r]);
        if let LeafPtr::At(q) = m.slot(x) {
            lemma_slot_owned(m, a, x);
            assert(a2.entries(q) == a.entries(q));
        }
    }
    i
}

/// The two nodes after the split are in order.
proof fn lemma_full_nodes<K: Ord + Clone, V: Clone>(
    m: NodeModel<K>,
    a: ArenaModel<K, V>,
    k: K,
    v: V,
    m2: NodeModel<K>,
    a2: ArenaModel<K, V>,
    low_blank: NodeModel<K>,
    high_blank: NodeModel<K>,
    leaves: Row<K>,
)
    requires
        full_for(m, a, k, v, m2, a2),
        row_cloned(moved(m2, low_key_bound(m2, a2)), leaves),
        low_blank.children.len() == 0,
        high_blank.children.len() == 0,
    ensures
        ({
            let low = low_node(low_blank, leaves);
            let high = high_node(high_blank, leaves);
            &&& low.keys_in_place(a2)
            &&& high.keys_in_place(a2)
            &&& low.wf(a2)
            &&& high.wf(a2)
            &&& apart(low, high)
        }),
{
    let l = leaves;
    lemma_full_row_cloned(m, a, k, v, m2, a2, leaves);
    lemma_full_leaves(m, a, k, v, m2, a2, leaves);
    let i = lemma_full_found(m, a, k, v, m2, a2, low_blank, high_blank, leaves, k);
    lemma_distributed(low_blank, high_blank, l, k, i);
    lemma_distributed_wf(low_blank, high_blank, l, a2);
    lemma_distributed_owns(low_blank, high_blank, l);
    let low = low_node(low_blank, l);
    let high = high_node(high_blank, l);
    let half = l.len() as int / 2;
    assert forall|q: usize, x: K|
        #![trigger low.owns(LeafPtr::At(q)), holds(a2.entries(q), x)]
        low.owns(LeafPtr::At(q)) && holds(a2.entries(q), x) implies low.slot(x) == LeafPtr::At(
        q,
    ) by {
        let c = choose|c: int| 0 <= c < half && (#[trigger] l[c]).1 == LeafPtr::At(q);
        assert(routes(l, x, c));
        lemma_distributed(low_blank, high_blank, l, x, c);
    }
    assert forall|q: usize, x: K|
        #![trigger high.owns(LeafPtr::At(q)), holds(a2.entries(q), x)]
        high.owns(LeafPtr::At(q)) && holds(a2.entries(q), x) implies high.slot(x) == LeafPtr::At(
        q,
    ) by {
        let c = choose|c: int| half <= c < l.len() && (#[trigger] l[c]).1 == LeafPtr::At(q);
        assert(routes(l, x, c));
        lemma_distributed(low_blank, high_blank, l, x, c);
    }
    assert forall|q: usize| !(#[trigger] low.owns(LeafPtr::At(q)) && high.owns(LeafPtr::At(q))) by {
        if low.owns(LeafPtr::At(q)) && high.owns(LeafPtr::At(q)) {
            let c = choose|c: int| 0 <= c < half && (#[trigger] l[c]).1 == LeafPtr::At(q);
            let d = choose|d: int| half <= d < l.len() && (#[trigger] l[d]).1 == LeafPtr::At(q);
            assert(l[c].1 == l[d].1);
        }
    }
}

/// The leaves of the row that is distributed are active, and each stands in one place.
proof fn lemma_full_leaves<K: Ord + Clone, V: Clone>(
    m: NodeModel<K>,
    a: ArenaModel<K, V>,
    k: K,
    v: V,
    m2: NodeModel<K>,
    a2: ArenaModel<K, V>,
    leaves: Row<K>,
)
    requires
        full_for(m, a, k, v, m2, a2),
        row_cloned(moved(m2, low_key_bound(m2, a2)), leaves),
    ensures
        row_sound(leaves, a2),
{
    let j = lemma_full(m, a, k, v, m2, a2);
    let full = m.slot(k)->At_0;
    let low = a.next as usize;
    let high = (a.next + 1) as usize;
    let e = row_of(m);
    let l = moved(m2, low_key_bound(m2, a2));
    lemma_row_leaves(m, a);
    lemma_slot_owned(m, a, k);
    lemma_full_active(m, a, k, v, full, m2, a2);
    assert forall|i: int| 0 <= i < l.len() implies a2.sound((#[trigger] l[i]).1) && (i != j && i
        != j + 1 ==> l[i].1 != LeafPtr::At(low) && l[i].1 != LeafPtr::At(high)) by {
        if i != j && i != j + 1 {
            let c = if i < j {
                i
            } else {
                i - 1
            };
            assert(l[i] == e[c]);
            assert(a.sound(e[c].1));
            if let LeafPtr::At(q) = e[c].1 {
                assert(a.active(q));
                assert(q < a.next);
            }
        }
    }
    assert forall|i: int, c: int|
        0 <= i < l.len() && 0 <= c < l.len() && i != c && (#[trigger] l[i]).1
            == (#[trigger] l[c]).1 implies l[i].1 is Null by {
        if i != j && i != j + 1 && c != j && c != j + 1 {
            let p = if i < j {
                i
            } else {
                i - 1
            };
            let q = if c < j {
                c
            } else {
                c - 1
            };
            assert(l[i] == e[p] && l[c] == e[q]);
        }
    }
    assert forall|i: int| 0 <= i < leaves.len() implies a2.sound((#[trigger] leaves[i]).1) by {
        assert(leaves[i].1 == l[i].1);
    }
    assert forall|i: int, c: int|
        0 <= i < leaves.len() && 0 <= c < leaves.len() && i != c && (#[trigger] leaves[i]).1
            == (#[trigger] leaves[c]).1 implies leaves[i].1 is Null by {
        assert(leaves[i].1 == l[i].1 && leaves[c].1 == l[c].1);
    }
}

/// The new leaves of a split that found no room are active, and so are all that were.
pub proof fn lemma_full_active<K: Ord + Clone, V: Clone>(
    m: NodeModel<K>,
    a: ArenaModel<K, V>,
    k: K,
    v: V,
    full: usize,
    m2: NodeModel<K>,
    a2: ArenaModel<K, V>,
)
    requires
        full_for(m, a, k, v, m2, a2),
        m.slot(k) == LeafPtr::At(full),
    ensures
        a.next + 2 <= usize::MAX,
        a2.active(a.next as usize),
        a2.active((a.next + 1) as usize),
        forall|q: usize| #[trigger] a.active(q) ==> a2.active(q),
{
    let j = lemma_full(m, a, k, v, m2, a2);
    let low = a.next as usize;
    let high = (a.next + 1) as usize;
    let b1 = a.allocated(a2.entries(low));
    let b2 = b1.allocated(a2.entries(high));
    let b3 = b2.linked_before(full, low);
    lemma_links_only(b2, full, low);
    lemma_links_only(b3, full, high);
    assert(a2 == b3.linked_before(full, high));
    assert(a2.next == a.next + 2);
    assert(!a.retired.contains(low)) by {
        if a.retired.contains(low) {
            assert(a.cells.dom().contains(low));
        }
    }
    assert(!a.retired.contains(high)) by {
        if a.retired.contains(high) {
            assert(a.cells.dom().contains(high));
        }
    }
}

/// The leaves of a row are active, and each stands in one place.
pub open spec fn row_sound<K: Ord, V>(l: Row<K>, a: ArenaModel<K, V>) -> bool {
    &&& forall|i: int| 0 <= i < l.len() ==> a.sound((#[trigger] l[i]).1)
    &&& forall|i: int, c: int|
        0 <= i < l.len() && 0 <= c < l.len() && i != c && (#[trigger] l[i]).1
            == (#[trigger] l[c]).1 ==> l[i].1 is Null
}

/// The arrays of the two nodes that a row is distributed to.
pub proof fn lemma_distributed_arrays<K: Ord + Clone>(
    low: NodeModel<K>,
    high: NodeModel<K>,
    l: Row<K>,
)
    requires
        key_laws::<K>(),
        low.children.len() == 0,
        high.children.len() == 0,
        2 <= l.len() <= ARRAY_SIZE + 2,
        ascending(l),
        l.last().0 is None,
    ensures
        ({
            let half = l.len() as int / 2;
            let lo = low_node(low, l);
            let hi = high_node(high, l);
            &&& lo.shape()
            &&& hi.shape()
            &&& lo.children.len() == half - 1
            &&& forall|i: int|
                0 <= i < half - 1 ==> live_at(lo.children, i) && (#[trigger] lo.children[i]).value
                    == l[i].1 && lo.children[i].key == l[i].0->0
            &&& lo.new_leaves == low.new_leaves
            &&& lo.unbounded == l[half - 1].1
            &&& hi.children.len() == l.len() - half - 1
            &&& forall|i: int|
                0 <= i < l.len() - half - 1 ==> live_at(hi.children, i)
                    && (#[trigger] hi.children[i]).value == l[i + half].1 && hi.children[i].key
                    == l[i + half].0->0
            &&& hi.new_leaves == high.new_leaves
            &&& hi.unbounded == l[l.len() - 1].1
        }),
{
    let half = l.len() as int / 2;
    let lp = l.take(half - 1);
    let hp = l.skip(half);
    let hs = hp.drop_last();
    let n = l.len() - 1;
    assert(l[n].0 is None);
    assert forall|p: int| 0 <= p < lp.len() implies (#[trigger] lp[p]).0 is Some by {
        assert(l[p].0 is Some);
    }
    assert(ascending(lp)) by {
        assert forall|p: int, q: int|
            0 <= p < q < lp.len() && (#[trigger] lp[p]).0 is Some && (#[trigger] lp[q]).0
                is Some implies lt(lp[p].0->0, lp[q].0->0) by {
            assert(lp[p] == l[p] && lp[q] == l[q]);
        }
    }
    assert forall|p: int| 0 <= p < hs.len() implies (#[trigger] hs[p]).0 is Some by {
        assert(hs[p] == l[p + half]);
    }
    assert(ascending(hs)) by {
        assert forall|p: int, q: int|
            0 <= p < q < hs.len() && (#[trigger] hs[p]).0 is Some && (#[trigger] hs[q]).0
                is Some implies lt(hs[p].0->0, hs[q].0->0) by {
            assert(hs[p] == l[p + half] && hs[q] == l[q + half]);
        }
    }
    lemma_placed(low, lp);
    lemma_placed(high, hs);
    assert(hp.last() == l[n]);
}

/// The two nodes that a row is distributed to are in order.
proof fn lemma_distributed_wf<K: Ord + Clone, V>(
    low: NodeModel<K>,
    high: NodeModel<K>,
    l: Row<K>,
    a: ArenaModel<K, V>,
)
    requires
        key_laws::<K>(),
        low.children.len() == 0,
        high.children.len() == 0,
        2 <= l.len() <= ARRAY_SIZE + 2,
        ascending(l),
        l.last().0 is None,
        row_sound(l, a),
    ensures
        low_node(low, l).wf(a),
        high_node(high, l).wf(a),
{
    lemma_distributed_arrays(low, high, l);
    let half = l.len() as int / 2;
    let lo = low_node(low, l);
    let hi = high_node(high, l);
    let n = l.len() - 1;
    assert forall|i: int| live_at(lo.children, i) implies a.sound(
        (#[trigger] lo.children[i]).value,
    ) by {
        assert(a.sound(l[i].1));
    }
    assert forall|i: int, c: int|
        live_at(lo.children, i) && live_at(lo.children, c) && i != c
            && #[trigger] lo.children[i].value
            == #[trigger] lo.children[c].value implies lo.children[i].value is Null by {
        assert(l[i].1 == l[c].1);
    }
    assert forall|i: int|
        live_at(lo.children, i) && #[trigger] lo.children[i].value
            == lo.unbounded implies lo.unbounded is Null by {
        assert(l[i].1 == l[half - 1].1);
    }
    assert(a.sound(l[half - 1].1));
    assert forall|i: int| live_at(hi.children, i) implies a.sound(
        (#[trigger] hi.children[i]).value,
    ) by {
        assert(a.sound(l[i + half].1));
    }
    assert forall|i: int, c: int|
        live_at(hi.children, i) && live_at(hi.children, c) && i != c
            && #[trigger] hi.children[i].value
            == #[trigger] hi.children[c].value implies hi.children[i].value is Null by {
        assert(l[i + half].1 == l[c + half].1);
    }
    assert forall|i: int|
        live_at(hi.children, i) && #[trigger] hi.children[i].value
            == hi.unbounded implies hi.unbounded is Null by {
        assert(l[i + half].1 == l[n].1);
    }
    assert(a.sound(l[n].1));
}

/// The leaves that the two nodes own.
proof fn lemma_distributed_owns<K: Ord + Clone>(low: NodeModel<K>, high: NodeModel<K>, l: Row<K>)
    requires
        key_laws::<K>(),
        low.children.len() == 0,
        high.children.len() == 0,
        2 <= l.len() <= ARRAY_SIZE + 2,
        ascending(l),
        l.last().0 is None,
    ensures
        forall|q: LeafPtr| #[trigger]
            low_node(low, l).owns(q) ==> exists|c: int|
                0 <= c < l.len() as int / 2 && (#[trigger] l[c]).1 == q,
        forall|q: LeafPtr| #[trigger]
            high_node(high, l).owns(q) ==> exists|c: int|
                l.len() as int / 2 <= c < l.len() && (#[trigger] l[c]).1 == q,
{
    lemma_distributed_arrays(low, high, l);
    let half = l.len() as int / 2;
    let lo = low_node(low, l);
    let hi = high_node(high, l);
    assert forall|q: LeafPtr| #[trigger] lo.owns(q) implies exists|c: int|
        0 <= c < half && (#[trigger] l[c]).1 == q by {
        if lo.unbounded == q {
            assert(l[half - 1].1 == q);
        } else {
            let i = choose|i: int|
                live_at(lo.children, i) && (#[trigger] lo.children[i]).value == q;
            assert(l[i].1 == q);
        }
    }
    assert forall|q: LeafPtr| #[trigger] hi.owns(q) implies exists|c: int|
        half <= c < l.len() && (#[trigger] l[c]).1 == q by {
        if hi.unbounded == q {
            assert(l[l.len() - 1].1 == q);
        } else {
            let i = choose|i: int|
                live_at(hi.children, i) && (#[trigger] hi.children[i]).value == q;
            assert(l[i + half].1 == q);
        }
    }
}

/// The two nodes that a node without room is split into share its leaves evenly and in their order,
/// the new leaves in the place of the one that was split, and the last leaf of the low-key node is
/// its unbounded one. Leaves keep their bounds: the low-key leaf has its greatest key for a bound,
/// the high-key leaf that of the leaf that was split, and the bound between the nodes is that of
/// the last leaf of the low-key node. `j` is the place of the leaf that was split.
pub proof fn law_split_leaf_node_halves<K: Ord + Clone, V: Clone>(
    m: NodeModel<K>,
    a: ArenaModel<K, V>,
    k: K,
    v: V,
    m2: NodeModel<K>,
    a2: ArenaModel<K, V>,
    low_blank: NodeModel<K>,
    high_blank: NodeModel<K>,
    leaves: Row<K>,
) -> (j: int)
    requires
        full_for(m, a, k, v, m2, a2),
        row_cloned(moved(m2, low_key_bound(m2, a2)), leaves),
        low_blank.children.len() == 0,
        high_blank.children.len() == 0,
    ensures
        ({
            let f = m.children.filter(|e: Entry<K, LeafPtr>| !e.removed);
            let n = f.len() + 2;
            let half = n / 2;
            let first = LeafPtr::At(a.next as usize);
            let second = LeafPtr::At((a.next + 1) as usize);
            let bound_at = |c: int|
                if c < j {
                    f[c].key
                } else if c == j {
                    a2.entries(a.next as usize).last().key
                } else {
                    f[c - 1].key
                };
            let leaf_at = |c: int|
                if c < j {
                    f[c].value
                } else if c == j {
                    first
                } else if c == j + 1 {
                    second
                } else if c < n - 1 {
                    f[c - 1].value
                } else {
                    m.unbounded
                };
            let low = low_node(low_blank, leaves);
            let high = high_node(high_blank, leaves);
            &&& 0 <= j <= f.len()
            &&& m.slot(k) == if j < f.len() {
                f[j].value
            } else {
                m.unbounded
            }
            &&& middle_bound(leaves) matches Some(b) && same(bound_at(half - 1), b)
            &&& low.new_leaves == low_blank.new_leaves
            &&& low.children.len() == half - 1
            &&& forall|i: int|
                0 <= i < half - 1 ==> {
                    &&& !(#[trigger] low.children[i]).removed
                    &&& same(bound_at(i), low.children[i].key)
                    &&& low.children[i].value == leaf_at(i)
                }
            &&& low.unbounded == leaf_at(half - 1)
            &&& high.new_leaves == high_blank.new_leaves
            &&& high.children.len() == n - half - 1
            &&& forall|i: int|
                0 <= i < n - half - 1 ==> {
                    &&& !(#[trigger] high.children[i]).removed
                    &&& same(bound_at(half + i), high.children[i].key)
                    &&& high.children[i].value == leaf_at(half + i)
                }
            &&& high.unbounded == leaf_at(n - 1)
        }),
{
    let j = lemma_full_places(m, a, k, v, m2, a2, leaves);
    assert(ascending(leaves) && leaves.last().0 is None && 2 <= leaves.len() <= ARRAY_SIZE + 2) by {
        let i = lemma_full_found(m, a, k, v, m2, a2, low_blank, high_blank, leaves, k);
    }
    lemma_distributed_arrays(low_blank, high_blank, leaves);
    let half = leaves.len() as int / 2;
    assert(leaves[half - 1].0 is Some);
    j
}

/// What stands in which place of the row that is distributed.
proof fn lemma_full_places<K: Ord + Clone, V: Clone>(
    m: NodeModel<K>,
    a: ArenaModel<K, V>,
    k: K,
    v: V,
    m2: NodeModel<K>,
    a2: ArenaModel<K, V>,
    leaves: Row<K>,
) -> (j: int)
    requires
        full_for(m, a, k, v, m2, a2),
        row_cloned(moved(m2, low_key_bound(m2, a2)), leaves),
    ensures
        ({
            let f = m.children.filter(|e: Entry<K, LeafPtr>| !e.removed);
            let n = f.len() + 2;
            &&& key_laws::<K>()
            &&& leaves.len() == n
            &&& 0 <= j <= f.len()
            &&& m.slot(k) == if j < f.len() {
                f[j].value
            } else {
                m.unbounded
            }
            &&& forall|c: int|
                0 <= c < n - 1 ==> (#[trigger] leaves[c]).0 is Some && same(
                    if c < j {
                        f[c].key
                    } else if c == j {
                        a2.entries(a.next as usize).last().key
                    } else {
                        f[c - 1].key
                    },
                    leaves[c].0->0,
                )
            &&& forall|c: int|
                0 <= c < n ==> (#[trigger] leaves[c]).1 == if c < j {
                    f[c].value
                } else if c == j {
                    LeafPtr::At(a.next as usize)
                } else if c == j + 1 {
                    LeafPtr::At((a.next + 1) as usize)
                } else if c < n - 1 {
                    f[c - 1].value
                } else {
                    m.unbounded
                }
        }),
{
    let j = lemma_full(m, a, k, v, m2, a2);
    let e = row_of(m);
    let f = live(m.children);
    let max = low_key_bound(m2, a2);
    let low = LeafPtr::At(a.next as usize);
    let high = LeafPtr::At((a.next + 1) as usize);
    let l = moved(m2, max);
    lemma_live_filter(m.children);
    assert(e.len() == f.len() + 1);
    assert(m.slot(k) == e[j].1);
    // The low-key leaf has no removed entries.
    assert(max == a2.entries(a.next as usize).last().key) by {
        let s = a.entries(m.slot(k)->At_0);
        lemma_slot_owned(m, a, k);
        assert(entries_wf(s));
        lemma_split_plans(s, k, v);
        lemma_copied_live(split_low(live(s), k, v), a2.entries(a.next as usize));
    }
    assert(l == split_row(e, j, max, low, high));
    assert forall|c: int| 0 <= c < leaves.len() - 1 implies (#[trigger] leaves[c]).0 is Some
        && same(
        if c < j {
            f[c].key
        } else if c == j {
            max
        } else {
            f[c - 1].key
        },
        leaves[c].0->0,
    ) by {
        assert(bound_cloned(l[c].0, leaves[c].0));
        if c < j {
            assert(l[c] == e[c]);
        } else if c == j {
            assert(l[c].0 == Some(max));
        } else if c == j + 1 {
            assert(l[c].0 == e[j].0);
        } else {
            assert(l[c] == e[c - 1]);
        }
        assert(cloned(l[c].0->0, leaves[c].0->0));
    }
    assert forall|c: int| 0 <= c < leaves.len() implies (#[trigger] leaves[c]).1 == if c < j {
        f[c].value
    } else if c == j {
        low
    } else if c == j + 1 {
        high
    } else if c < leaves.len() - 1 {
        f[c - 1].value
    } else {
        m.unbounded
    } by {
        assert(leaves[c].1 == l[c].1);
        if c < j {
            assert(l[c] == e[c]);
        } else if c > j + 1 {
            assert(l[c] == e[c - 1]);
        }
    }
    j
}

/// Giving up the split of a leaf undoes the insertion that led to it: the node is as it was, and
/// so are all leaves, their entries and their places in the list.
///
/// The insertion leaves the arena `a2` behind, and the split is given up in a later one, in which
/// the leaves are as they were.
pub proof fn law_rollback<K: Ord + Clone, V: Clone>(
    m: NodeModel<K>,
    a: ArenaModel<K, V>,
    k: K,
    v: V,
    m2: NodeModel<K>,
    a2: ArenaModel<K, V>,
    later: ArenaModel<K, V>,
)
    requires
        full_for(m, a, k, v, m2, a2),
        extends(a2, later),
    ensures
        ({
            let n = m2.new_leaves->0;
            let m3 = unlocked(m2);
            let a3 = discarded_at(discarded_at(later, n.low_key_leaf), n.high_key_leaf);
            &&& m2.new_leaves is Some
            &&& m3 == m
            &&& m3.contents(a3) == m.contents(a)
            &&& m3.keys_in_place(a3)
            &&& extends(a, a3)
            &&& forall|q: usize| #[trigger]
                a3.active(q) <==> later.active(q) && LeafPtr::At(q) != n.low_key_leaf
                    && LeafPtr::At(q) != n.high_key_leaf
        }),
{
    let j = lemma_full(m, a, k, v, m2, a2);
    let full = m.slot(k)->At_0;
    let low = a.next as usize;
    let high = (a.next + 1) as usize;
    let m3 = unlocked(m2);
    let a3 = later.discarded(low).discarded(high);
    lemma_slot_owned(m, a, k);
    lemma_full_active(m, a, k, v, full, m2, a2);
    lemma_undone(a, full, a2.entries(low), a2.entries(high));
    lemma_discarded(a2, low);
    lemma_extends_discarded(a2, later, low);
    lemma_extends_discarded(a2.discarded(low), later.discarded(low), high);
    assert forall|q: usize| #[trigger] a.active(q) implies a3.active(q) && a3.cells[q]
        == a.cells[q] by {
        assert(a2.discarded(low).discarded(high).active(q));
    }
    assert forall|p: usize| m.owns(LeafPtr::At(p)) implies #[trigger] a3.entries(p)
        == a.entries(p) by {
        lemma_owns_active(m, a, p);
    }
    lemma_same_contents(m, a, m3, a3);
    let c = a2.discarded(low);
    assert(a2.linked(low));
    assert(c.active(high));
    assert(c.linked(high));
    assert forall|q: usize| #[trigger] a3.active(q) <==> later.active(q) && q != low && q
        != high by {
        lemma_discarded_active(later, low, q);
        lemma_discarded_active(later.discarded(low), high, q);
    }
}

/// The leaves that are active in one arena are active in the other, and are the same there.
pub open spec fn extends<K, V>(a: ArenaModel<K, V>, later: ArenaModel<K, V>) -> bool {
    forall|q: usize| #[trigger]
        a.active(q) ==> later.active(q) && later.cells[q] == a.cells[q]
}

/// A leaf that is discarded is no longer active; the others stay as they are.
proof fn lemma_discarded_active<K, V>(a: ArenaModel<K, V>, p: usize, q: usize)
    requires
        a.cells[p].backward matches LeafPtr::At(b) ==> a.cells.dom().contains(b),
        a.cells[p].forward matches LeafPtr::At(f) ==> a.cells.dom().contains(f),
    ensures
        a.discarded(p).active(q) <==> a.active(q) && q != p,
{
}

/// A leaf that is discarded is discarded alike in an arena that has more leaves.
pub proof fn lemma_extends_discarded<K: Ord, V>(
    a: ArenaModel<K, V>,
    later: ArenaModel<K, V>,
    p: usize,
)
    requires
        a.wf(),
        a.active(p),
        extends(a, later),
    ensures
        extends(a.discarded(p), later.discarded(p)),
{
    let b = a.discarded(p);
    let c = later.discarded(p);
    assert(a.linked(p));
    assert forall|q: usize| #[trigger] b.active(q) implies c.active(q) && c.cells[q]
        == b.cells[q] by {
        assert(a.active(q));
        assert(a.linked(q));
    }
}

/// Leaves that are put into the list and discarded again leave no trace.
proof fn lemma_undone<K: Ord, V>(
    a: ArenaModel<K, V>,
    at: usize,
    s: Seq<Entry<K, V>>,
    t: Seq<Entry<K, V>>,
)
    requires
        a.wf(),
        a.active(at),
        a.next + 2 <= usize::MAX,
    ensures
        ({
            let low = a.next as usize;
            let high = (a.next + 1) as usize;
            let b = a.allocated(s).allocated(t).linked_before(at, low).linked_before(at, high);
            let c = b.discarded(low).discarded(high);
            &&& forall|q: usize| #[trigger]
                a.cells.dom().contains(q) ==> c.cells.dom().contains(q) && c.cells[q] == a.cells[q]
            &&& forall|q: usize| #[trigger] c.active(q) <==> a.active(q)
        }),
{
    let low = a.next as usize;
    let high = (a.next + 1) as usize;
    let b2 = a.allocated(s).allocated(t);
    let b3 = b2.linked_before(at, low);
    let b4 = b3.linked_before(at, high);
    let c1 = b4.discarded(low);
    let c2 = c1.discarded(high);
    assert(a.linked(at));
    assert(!a.cells.dom().contains(low) && !a.cells.dom().contains(high));
    assert(!a.retired.contains(low) && !a.retired.contains(high));
    let prev = a.cells[at].backward;
    if let LeafPtr::At(q) = prev {
        assert(a.cells.dom().contains(q));
        assert(a.cells[q].forward == LeafPtr::At(at));
    }
    assert(b3.cells[at].backward == LeafPtr::At(low));
    assert(b4.cells[low].forward == LeafPtr::At(high));
    assert(b4.cells[low].backward == prev);
    assert(c1.cells[high].backward == prev);
    assert(c1.cells[high].forward == LeafPtr::At(at));
    assert forall|q: usize| #[trigger] a.cells.dom().contains(q) implies c2.cells.dom().contains(
        q,
    ) && c2.cells[q] == a.cells[q] by {
        assert(q != low && q != high);
    }
    assert forall|q: usize| #[trigger] c2.active(q) <==> a.active(q) by {
        if c2.active(q) {
            assert(q != low && q != high);
            assert(b2.cells.dom().contains(q));
        }
    }
}

} // verus!
