//! The list of leaves: its links follow the leaves of the nodes from left to right.
use crate::arena::{lemma_links_only, lemma_with_entries, ArenaModel, LeafPtr};
use crate::error::InsertError;
use crate::leaf::laws::lemma_lookup_with_entry;
use crate::leaf::{
    accepts, entries_wf, holds, index_of, is_obsolete, key_at, lemma_live, lemma_live_all,
    lemma_with_entry, lemma_without_key, live, live_at, with_entry, without_key, Entry, ARRAY_SIZE,
};
use crate::leafnode::full_laws::{
    extends, full_for, law_rollback, lemma_distributed_arrays, lemma_extends_discarded, lemma_full,
    lemma_full_active, lemma_full_found, lemma_row_leaves, low_key_bound,
};
use crate::leafnode::laws::lemma_slot_owned;
use crate::leafnode::merge::merge_outcome;
use crate::leafnode::model::{lemma_replace_handle, NodeModel};
use crate::leafnode::release::discarded_at;
use crate::leafnode::routing::lemma_bound_held;
use crate::leafnode::row_laws::{
    lemma_live_source, lemma_row_added, lemma_row_bounds, lemma_row_removed, lemma_row_replaced,
};
use crate::leafnode::split::{lemma_accepts_same, split_high};
use crate::leafnode::split_laws::{
    lemma_split_bound, lemma_split_frame, lemma_split_shape, split_for,
};
use crate::leafnode::split_node::{high_node, low_node, moved, row_cloned};
use crate::leafnode::split_node_laws::{ascending, lemma_row, routes, row_of, split_row, takes, Row};
use crate::leafnode::write::{inserts, remove_outcome};
use crate::order::{key_laws, lt, same};
use vstd::prelude::*;

verus! {

/// The handles of a row of leaves.
pub open spec fn row_handles<K>(l: Row<K>) -> Seq<LeafPtr> {
    Seq::new(l.len(), |i: int| l[i].1)
}

/// The handles of a node from left to right.
pub open spec fn handles<K>(m: NodeModel<K>) -> Seq<LeafPtr> {
    row_handles(row_of(m))
}

/// The leaf in place `i` links to the one in the next place.
pub open spec fn follows<K, V>(h: Seq<LeafPtr>, a: ArenaModel<K, V>, i: int) -> bool {
    0 <= i < h.len() - 1 ==> a.cells[h[i]->At_0].forward == h[i + 1]
}

/// The handles lead to leaves of the list, each to another one, and in the order of the list.
pub open spec fn listed<K, V>(h: Seq<LeafPtr>, a: ArenaModel<K, V>) -> bool {
    &&& forall|i: int| 0 <= i < h.len() ==> (#[trigger] h[i]) is At && a.active(h[i]->At_0)
    &&& forall|i: int, j: int|
        0 <= i < h.len() && 0 <= j < h.len() && #[trigger] h[i] == #[trigger] h[j] ==> i == j
    &&& forall|i: int| #[trigger] follows(h, a, i)
}

/// The leaf `full` was replaced by `parts`: links that led to it lead to the first part, the parts
/// link to each other, and the last one links to what came after the leaf.
pub open spec fn replaced<K, V>(
    a: ArenaModel<K, V>,
    full: usize,
    parts: Seq<LeafPtr>,
    a2: ArenaModel<K, V>,
) -> bool {
    &&& parts.len() > 0
    &&& listed(parts, a2)
    &&& forall|i: int| 0 <= i < parts.len() ==> !a.active((#[trigger] parts[i])->At_0)
    &&& forall|q: usize| #[trigger]
        a.active(q) && q != full ==> a2.active(q) && a2.cells[q].forward == if a.cells[q].forward
            == LeafPtr::At(full) {
            parts[0]
        } else {
            a.cells[q].forward
        }
    &&& a2.cells[parts.last()->At_0].forward == a.cells[full].forward
}

/// Leaves that take the place of one in the list take its place among the handles.
proof fn lemma_listed_replaced<K: Ord, V>(
    h: Seq<LeafPtr>,
    a: ArenaModel<K, V>,
    j: int,
    parts: Seq<LeafPtr>,
    a2: ArenaModel<K, V>,
)
    requires
        listed(h, a),
        0 <= j < h.len(),
        replaced(a, h[j]->At_0, parts, a2),
    ensures
        listed(h.take(j) + parts + h.skip(j + 1), a2),
{
    let full = h[j]->At_0;
    let d = parts.len() as int;
    let g = h.take(j) + parts + h.skip(j + 1);
    assert(h[j] == LeafPtr::At(full));
    assert forall|i: int| 0 <= i < j implies #[trigger] g[i] == h[i] by {}
    assert forall|i: int| j <= i < j + d implies #[trigger] g[i] == parts[i - j] by {}
    assert forall|i: int| j + d <= i < g.len() implies #[trigger] g[i] == h[i - d + 1] by {}
    let source = |i: int|
        if i < j {
            i
        } else {
            i - d + 1
        };
    assert forall|i: int| 0 <= i < g.len() implies (#[trigger] g[i]) is At && a2.active(
        g[i]->At_0,
    ) by {
        if j <= i < j + d {
            assert(parts[i - j] is At);
        } else {
            assert(h[source(i)] is At && a.active(h[source(i)]->At_0));
            assert(h[source(i)] != h[j]);
        }
    }
    assert forall|x: int, y: int|
        0 <= x < g.len() && 0 <= y < g.len() && #[trigger] g[x] == #[trigger] g[y] implies x
        == y by {
        let fresh_x = j <= x < j + d;
        let fresh_y = j <= y < j + d;
        if fresh_x && fresh_y {
            assert(parts[x - j] == parts[y - j]);
        } else if fresh_x {
            assert(!a.active(parts[x - j]->At_0));
            assert(a.active(h[source(y)]->At_0));
        } else if fresh_y {
            assert(!a.active(parts[y - j]->At_0));
            assert(a.active(h[source(x)]->At_0));
        } else {
            assert(h[source(x)] == h[source(y)]);
        }
    }
    assert forall|i: int| #[trigger] follows(g, a2, i) by {
        if 0 <= i < g.len() - 1 {
            if j <= i < j + d - 1 {
                assert(follows(parts, a2, i - j));
            } else if i == j + d - 1 {
                assert(follows(h, a, j));
            } else {
                let c = source(i);
                assert(a.active(h[c]->At_0));
                assert(h[c] != h[j]);
                assert(follows(h, a, c));
                if c + 1 != j {
                    assert(h[c + 1] != h[j]);
                }
            }
        }
    }
}

/// Leaves that take the place of a leaf of a node take its place between the leaves to the left and
/// to the right.
proof fn lemma_listed_between<K: Ord, V>(
    left: Seq<LeafPtr>,
    h: Seq<LeafPtr>,
    right: Seq<LeafPtr>,
    a: ArenaModel<K, V>,
    j: int,
    parts: Seq<LeafPtr>,
    a2: ArenaModel<K, V>,
)
    requires
        listed(left + h + right, a),
        0 <= j < h.len(),
        replaced(a, h[j]->At_0, parts, a2),
    ensures
        listed(left + (h.take(j) + parts + h.skip(j + 1)) + right, a2),
{
    let all = left + h + right;
    let c = left.len() + j;
    assert(all[c] == h[j]);
    lemma_listed_replaced(all, a, c, parts, a2);
    assert(left + (h.take(j) + parts + h.skip(j + 1)) + right =~= all.take(c) + parts + all.skip(
        c + 1,
    ));
}

/// A leaf that is discarded leaves the list.
proof fn lemma_listed_discarded<K: Ord, V>(h: Seq<LeafPtr>, a: ArenaModel<K, V>, j: int)
    requires
        a.wf(),
        listed(h, a),
        0 <= j < h.len(),
    ensures
        listed(h.remove(j), a.discarded(h[j]->At_0)),
{
    let p = h[j]->At_0;
    let a2 = a.discarded(p);
    let g = h.remove(j);
    assert(h[j] == LeafPtr::At(p));
    assert(a.active(p));
    assert(a.linked(p));
    let source = |i: int|
        if i < j {
            i
        } else {
            i + 1
        };
    assert forall|i: int| 0 <= i < g.len() implies #[trigger] g[i] == h[source(i)] by {}
    assert forall|i: int| 0 <= i < g.len() implies (#[trigger] g[i]) is At && a2.active(
        g[i]->At_0,
    ) by {
        assert(a.active(h[source(i)]->At_0));
        assert(h[source(i)] != h[j]);
    }
    assert forall|x: int, y: int|
        0 <= x < g.len() && 0 <= y < g.len() && #[trigger] g[x] == #[trigger] g[y] implies x
        == y by {
        assert(h[source(x)] == h[source(y)]);
    }
    assert forall|i: int| #[trigger] follows(g, a2, i) by {
        if 0 <= i < g.len() - 1 {
            let c = source(i);
            let q = h[c]->At_0;
            assert(a.active(q));
            assert(a.linked(q));
            assert(follows(h, a, c));
            assert(h[c] != h[j]);
            if c + 1 == j {
                assert(follows(h, a, j));
            } else {
                assert(h[c + 1] != h[j]);
            }
        }
    }
}

/// One new leaf takes the place of a full one.
proof fn lemma_one_part<K: Ord, V>(a: ArenaModel<K, V>, full: usize, s: Seq<Entry<K, V>>)
    requires
        a.wf(),
        a.active(full),
        a.next < usize::MAX,
    ensures
        ({
            let low = a.next as usize;
            replaced(
                a,
                full,
                seq![LeafPtr::At(low)],
                a.allocated(s).linked_before(full, low).discarded(full),
            )
        }),
{
    let low = a.next as usize;
    let parts = seq![LeafPtr::At(low)];
    let b1 = a.allocated(s);
    let b2 = b1.linked_before(full, low);
    let a2 = b2.discarded(full);
    lemma_links_only(b1, full, low);
    lemma_links_only(b2, full, full);
    lemma_fresh(a, low);
    lemma_neighbours(a, full);
    assert(b2.cells[full].forward == a.cells[full].forward);
    assert(b2.cells[full].backward == LeafPtr::At(low));
    assert(a2.active(low));
    assert forall|i: int| #[trigger] follows(parts, a2, i) by {}
    assert forall|q: usize| #[trigger] a.active(q) && q != full implies a2.active(q)
        && a2.cells[q].forward == if a.cells[q].forward == LeafPtr::At(full) {
        parts[0]
    } else {
        a.cells[q].forward
    } by {
        assert(a.linked(q));
    }
}

/// Two new leaves take the place of a full one.
proof fn lemma_two_parts<K: Ord, V>(
    a: ArenaModel<K, V>,
    full: usize,
    s: Seq<Entry<K, V>>,
    t: Seq<Entry<K, V>>,
)
    requires
        a.wf(),
        a.active(full),
        a.next + 1 < usize::MAX,
    ensures
        ({
            let low = a.next as usize;
            let high = (a.next + 1) as usize;
            replaced(
                a,
                full,
                seq![LeafPtr::At(low), LeafPtr::At(high)],
                a.allocated(s).allocated(t).linked_before(full, low).linked_before(
                    full,
                    high,
                ).discarded(full),
            )
        }),
{
    let low = a.next as usize;
    let high = (a.next + 1) as usize;
    let parts = seq![LeafPtr::At(low), LeafPtr::At(high)];
    let b1 = a.allocated(s);
    let b2 = b1.allocated(t);
    let b3 = b2.linked_before(full, low);
    let b4 = b3.linked_before(full, high);
    let a2 = b4.discarded(full);
    lemma_links_only(b2, full, low);
    lemma_links_only(b3, full, high);
    lemma_links_only(b4, full, full);
    lemma_fresh(a, low);
    lemma_fresh(a, high);
    lemma_neighbours(a, full);
    assert(b3.cells[full].forward == a.cells[full].forward);
    assert(b3.cells[full].backward == LeafPtr::At(low));
    assert(b4.cells[full].forward == a.cells[full].forward);
    assert(b4.cells[full].backward == LeafPtr::At(high));
    assert(b4.cells[low].forward == LeafPtr::At(high));
    assert(a2.active(low) && a2.active(high));
    assert forall|i: int| #[trigger] follows(parts, a2, i) by {}
    assert forall|q: usize| #[trigger] a.active(q) && q != full implies a2.active(q)
        && a2.cells[q].forward == if a.cells[q].forward == LeafPtr::At(full) {
        parts[0]
    } else {
        a.cells[q].forward
    } by {
        assert(a.linked(q));
    }
}

/// An identifier that was not given out is that of no leaf.
proof fn lemma_fresh<K: Ord, V>(a: ArenaModel<K, V>, p: usize)
    requires
        a.wf(),
        p >= a.next,
    ensures
        !a.cells.dom().contains(p),
        !a.retired.contains(p),
{
    if a.retired.contains(p) {
        assert(a.cells.dom().contains(p));
    }
}

/// The neighbours of a leaf are other leaves.
proof fn lemma_neighbours<K: Ord, V>(a: ArenaModel<K, V>, p: usize)
    requires
        a.wf(),
        a.active(p),
    ensures
        a.linked(p),
        a.cells[p].backward matches LeafPtr::At(q) ==> a.active(q) && a.linked(q) && q != p,
        a.cells[p].forward matches LeafPtr::At(q) ==> a.active(q) && a.linked(q) && q != p,
{
    let f = choose|f: spec_fn(usize) -> int| a.in_line(f);
    assert(a.linked(p));
    if let LeafPtr::At(q) = a.cells[p].backward {
        assert(a.active(q));
        assert(a.linked(q));
        assert(f(q) < f(p));
    }
    if let LeafPtr::At(q) = a.cells[p].forward {
        assert(a.active(q));
        assert(a.linked(q));
        assert(f(p) < f(q));
    }
}

/// Nothing but links and the set of active leaves matters to the list.
proof fn lemma_listed_same<K, V>(h: Seq<LeafPtr>, a: ArenaModel<K, V>, a2: ArenaModel<K, V>)
    requires
        listed(h, a),
        forall|q: usize| #[trigger]
            a.active(q) ==> a2.active(q) && a2.cells[q].forward == a.cells[q].forward,
    ensures
        listed(h, a2),
{
    assert forall|i: int| #[trigger] follows(h, a2, i) by {
        if 0 <= i < h.len() - 1 {
            assert(follows(h, a, i));
            assert(a.active(h[i]->At_0));
        }
    }
}

/// An insertion for which there is room keeps the leaves of a node in the order of the list,
/// between the leaves of the nodes to the left and to the right.
pub proof fn law_insert_list<K: Ord + Clone, V: Clone>(
    m: NodeModel<K>,
    a: ArenaModel<K, V>,
    k: K,
    v: V,
    r: Result<(), InsertError<K, V>>,
    m2: NodeModel<K>,
    a2: ArenaModel<K, V>,
    left: Seq<LeafPtr>,
    right: Seq<LeafPtr>,
)
    requires
        key_laws::<K>(),
        a.wf(),
        a2.wf(),
        m.wf(a),
        m.keys_in_place(a),
        inserts(m, a, k, v, r, m2, a2),
        listed(left + handles(m) + right, a),
        !(r matches Err(InsertError::Full(_))),
    ensures
        listed(left + handles(m2) + right, a2),
{
    let h = left + handles(m) + right;
    if let LeafPtr::At(p) = m.slot(k) {
        let s = a.entries(p);
        if accepts(s, k) {
            lemma_listed_same(h, a, a2);
        } else if !holds(s, k) && m.new_leaves is None {
            lemma_bound_held(m, k);
            assert(split_for(m, a, k, v, p, r, m2, a2));
            lemma_split_frame(m, a, k, v, p, r, m2, a2);
            let max = lemma_split_shape(m, a, k, v, p, r, m2, a2);
            let j = lemma_row(m, k);
            assert(handles(m)[j] == LeafPtr::At(p));
            let low = a.next as usize;
            let high = (a.next + 1) as usize;
            let parts = if split_high(live(s), k, v).len() == 0 {
                seq![LeafPtr::At(low)]
            } else {
                seq![LeafPtr::At(low), LeafPtr::At(high)]
            };
            let b1 = a.allocated(a2.entries(low));
            if split_high(live(s), k, v).len() == 0 {
                lemma_links_only(b1, p, low);
                lemma_links_only(b1.linked_before(p, low), p, p);
                lemma_one_part(a, p, a2.entries(low));
            } else {
                let b2 = b1.allocated(a2.entries(high));
                let b3 = b2.linked_before(p, low);
                lemma_links_only(b2, p, low);
                lemma_links_only(b3, p, high);
                lemma_links_only(b3.linked_before(p, high), p, p);
                lemma_two_parts(a, p, a2.entries(low), a2.entries(high));
            }
            lemma_listed_between(left, handles(m), right, a, j, parts, a2);
            lemma_split_handles(m, a, k, v, p, m2, a2, j);
        }
    }
}

/// The handles of a node after a leaf was split.
proof fn lemma_split_handles<K: Ord + Clone, V: Clone>(
    m: NodeModel<K>,
    a: ArenaModel<K, V>,
    k: K,
    v: V,
    full: usize,
    m2: NodeModel<K>,
    a2: ArenaModel<K, V>,
    j: int,
)
    requires
        split_for(m, a, k, v, full, Ok(()), m2, a2),
        m.keys_in_place(a),
        routes(row_of(m), k, j),
        row_of(m)[j] == (m.bound(k), m.slot(k)),
    ensures
        ({
            let low = LeafPtr::At(a.next as usize);
            let high = LeafPtr::At((a.next + 1) as usize);
            let parts = if split_high(live(a.entries(full)), k, v).len() == 0 {
                seq![low]
            } else {
                seq![low, high]
            };
            handles(m2) == handles(m).take(j) + parts + handles(m).skip(j + 1)
        }),
{
    let bound = m.bound(k);
    let s = a.entries(full);
    let low = LeafPtr::At(a.next as usize);
    let high = LeafPtr::At((a.next + 1) as usize);
    let max = lemma_split_shape(m, a, k, v, full, Ok(()), m2, a2);
    lemma_split_frame(m, a, k, v, full, Ok(()), m2, a2);
    if split_high(live(s), k, v).len() == 0 {
        lemma_row_replaced(m, bound, low, j);
        assert(handles(m2) =~= handles(m).take(j) + seq![low] + handles(m).skip(j + 1));
    } else {
        assert(entries_wf(s));
        lemma_split_bound(m, a, k, v, full, max);
        let i = lemma_row(m, max);
        lemma_row_bounds(m, i, j);
        lemma_row_added(m, max, low, j);
        let m1 = NodeModel { children: with_entry(m.children, max, low), ..m };
        lemma_with_entry(m.children, max, low);
        if let Some(b) = bound {
            lemma_lookup_with_entry(m.children, max, low, b);
        }
        assert(row_of(m1)[j + 1] == row_of(m)[j]);
        lemma_row_replaced(m1, bound, high, j + 1);
        assert(handles(m2) =~= handles(m).take(j) + seq![low, high] + handles(m).skip(j + 1));
    }
}

/// A removal keeps the leaves of a node in the order of the list, between the leaves of the nodes
/// to the left and to the right.
pub proof fn law_remove_list<K: Ord + Clone, V>(
    m: NodeModel<K>,
    a: ArenaModel<K, V>,
    k: K,
    left: Seq<LeafPtr>,
    right: Seq<LeafPtr>,
)
    requires
        key_laws::<K>(),
        a.wf(),
        m.wf(a),
        listed(left + handles(m) + right, a),
    ensures
        ({
            let (r, m2, a2) = remove_outcome(m, a, k);
            listed(left + handles(m2) + right, a2)
        }),
{
    let h = left + handles(m) + right;
    let (r, m2, a2) = remove_outcome(m, a, k);
    lemma_slot_owned(m, a, k);
    if let LeafPtr::At(p) = m.slot(k) {
        let t = without_key(a.entries(p), k);
        let a1 = a.with_entries(p, t);
        lemma_without_key(a.entries(p), k);
        lemma_with_entries(a, p, t);
        lemma_listed_same(h, a, a1);
        let bound = m.bound(k);
        if is_obsolete(t) && m.new_leaves is None && bound is Some {
            let b = bound->0;
            let j = lemma_row(m, k);
            let c = left.len() + j;
            let n = m.with_handle(bound, LeafPtr::Null);
            lemma_bound_held(m, k);
            lemma_replace_handle(m, a, bound, LeafPtr::Null);
            lemma_row_replaced(m, bound, LeafPtr::Null, j);
            assert(holds(n.children, b)) by {
                let i = index_of(m.children, b);
                assert(key_at(m.children, b, i));
                assert(key_at(n.children, b, i));
            }
            lemma_row_removed(n, b, j);
            assert(h[c] == LeafPtr::At(p));
            lemma_listed_discarded(h, a1, c);
            assert(left + handles(m2) + right =~= h.remove(c));
        }
    }
}

/// Splitting a node that has no room puts two nodes in its place whose leaves stand in the order
/// of the list, once the leaf that was split is discarded.
///
/// The insertion leaves the arena `a2` behind, and the node is split in a later one, in which the
/// leaves are as they were. `leaves` are the leaves under clones of their bounds.
pub proof fn law_split_leaf_node_list<K: Ord + Clone, V: Clone>(
    m: NodeModel<K>,
    a: ArenaModel<K, V>,
    k: K,
    v: V,
    m2: NodeModel<K>,
    a2: ArenaModel<K, V>,
    later: ArenaModel<K, V>,
    low_blank: NodeModel<K>,
    high_blank: NodeModel<K>,
    leaves: Row<K>,
    left: Seq<LeafPtr>,
    right: Seq<LeafPtr>,
)
    requires
        full_for(m, a, k, v, m2, a2),
        extends(a2, later),
        row_cloned(moved(m2, low_key_bound(m2, later)), leaves),
        low_blank.children.len() == 0,
        high_blank.children.len() == 0,
        listed(left + handles(m) + right, a),
    ensures
        ({
            let low = low_node(low_blank, leaves);
            let high = high_node(high_blank, leaves);
            listed(
                left + handles(low) + handles(high) + right,
                discarded_at(later, m2.new_leaves->0.origin_leaf_ptr),
            )
        }),
{
    let below = handles(low_node(low_blank, leaves));
    let beyond = handles(high_node(high_blank, leaves));
    let c = lemma_full(m, a, k, v, m2, a2);
    lemma_full_active(m, a, k, v, m.slot(k)->At_0, m2, a2);
    assert(low_key_bound(m2, later) == low_key_bound(m2, a2));
    let (full, j) = lemma_full_handles(m, a, k, v, m2, a2, low_blank, high_blank, leaves);
    let parts = seq![LeafPtr::At(a.next as usize), LeafPtr::At((a.next + 1) as usize)];
    lemma_listed_between(left, handles(m), right, a, j, parts, a2.discarded(full));
    let all = left + (handles(m).take(j) + parts + handles(m).skip(j + 1)) + right;
    lemma_extends_discarded(a2, later, full);
    lemma_listed_same(all, a2.discarded(full), later.discarded(full));
    assert(left + below + beyond + right =~= left + (below + beyond) + right);
}

/// The handles of the two nodes that a node without room is split into.
proof fn lemma_full_handles<K: Ord + Clone, V: Clone>(
    m: NodeModel<K>,
    a: ArenaModel<K, V>,
    k: K,
    v: V,
    m2: NodeModel<K>,
    a2: ArenaModel<K, V>,
    low_blank: NodeModel<K>,
    high_blank: NodeModel<K>,
    leaves: Row<K>,
) -> (r: (usize, int))
    requires
        full_for(m, a, k, v, m2, a2),
        row_cloned(moved(m2, low_key_bound(m2, a2)), leaves),
        low_blank.children.len() == 0,
        high_blank.children.len() == 0,
    ensures
        ({
            let low = low_node(low_blank, leaves);
            let high = high_node(high_blank, leaves);
            let parts = seq![LeafPtr::At(a.next as usize), LeafPtr::At((a.next + 1) as usize)];
            let (full, j) = r;
            &&& m2.new_leaves->0.origin_leaf_ptr == LeafPtr::At(full)
            &&& 0 <= j < handles(m).len()
            &&& handles(m)[j] == LeafPtr::At(full)
            &&& handles(low) + handles(high) == handles(m).take(j) + parts + handles(m).skip(j + 1)
            &&& replaced(a, full, parts, a2.discarded(full))
            &&& a2.active(full)
            &&& m2.new_leaves->0.low_key_leaf matches LeafPtr::At(p) && a2.active(p)
        }),
{
    let row = moved(m2, low_key_bound(m2, a2));
    let j = lemma_full(m, a, k, v, m2, a2);
    let full = m.slot(k)->At_0;
    let low = LeafPtr::At(a.next as usize);
    let high = LeafPtr::At((a.next + 1) as usize);
    lemma_full_replaced(m, a, k, v, full, m2, a2);
    lemma_split_frame(m, a, k, v, full, Err(InsertError::Full((k, v))), m2, a2);
    lemma_full_active(m, a, k, v, full, m2, a2);
    assert(handles(low_node(low_blank, leaves)) + handles(high_node(high_blank, leaves))
        == row_handles(leaves)) by {
        let i = lemma_full_found(m, a, k, v, m2, a2, low_blank, high_blank, leaves, k);
        lemma_distributed_handles(low_blank, high_blank, leaves);
    }
    assert(row_handles(leaves) =~= row_handles(row)) by {
        assert forall|i: int| 0 <= i < row.len() implies #[trigger] row_handles(leaves)[i]
            == row_handles(row)[i] by {
            assert(leaves[i].1 == row[i].1);
        }
    }
    lemma_split_row_handles(row_of(m), j, low_key_bound(m2, a2), low, high);
    (full, j)
}

/// The new leaves of a split for which there is no room take the place of the full leaf when that
/// one is discarded.
proof fn lemma_full_replaced<K: Ord + Clone, V: Clone>(
    m: NodeModel<K>,
    a: ArenaModel<K, V>,
    k: K,
    v: V,
    full: usize,
    m2: NodeModel<K>,
    a2: ArenaModel<K, V>,
)
    requires
        split_for(m, a, k, v, full, Err(InsertError::Full((k, v))), m2, a2),
    ensures
        replaced(
            a,
            full,
            seq![LeafPtr::At(a.next as usize), LeafPtr::At((a.next + 1) as usize)],
            a2.discarded(full),
        ),
{
    let low = a.next as usize;
    let high = (a.next + 1) as usize;
    lemma_split_frame(m, a, k, v, full, Err(InsertError::Full((k, v))), m2, a2);
    let max = lemma_split_shape(m, a, k, v, full, Err(InsertError::Full((k, v))), m2, a2);
    let b2 = a.allocated(a2.entries(low)).allocated(a2.entries(high));
    lemma_links_only(b2, full, low);
    lemma_links_only(b2.linked_before(full, low), full, high);
    lemma_two_parts(a, full, a2.entries(low), a2.entries(high));
}

/// The handles of the two nodes that a row is distributed to are those of the row.
proof fn lemma_distributed_handles<K: Ord + Clone>(
    low: NodeModel<K>,
    high: NodeModel<K>,
    l: Row<K>,
)
    requires
        key_laws::<K>(),
        low.children.len() == 0,
        high.children.len() == 0,
        2 <= l.len() <= ARRAY_SIZE + 2,
        ascending(l),
        l.last().0 is None,
    ensures
        handles(low_node(low, l)) + handles(high_node(high, l)) == row_handles(l),
{
    let lo = low_node(low, l);
    let hi = high_node(high, l);
    let half = l.len() as int / 2;
    lemma_distributed_arrays(low, high, l);
    assert forall|i: int| 0 <= i < lo.children.len() implies !(
    #[trigger] lo.children[i]).removed by {
        assert(lo.children[i].value == l[i].1);
    }
    assert forall|i: int| 0 <= i < hi.children.len() implies !(
    #[trigger] hi.children[i]).removed by {
        assert(hi.children[i].value == l[i + half].1);
    }
    lemma_live_all(lo.children);
    lemma_live_all(hi.children);
    assert forall|i: int| 0 <= i < half implies #[trigger] handles(lo)[i] == l[i].1 by {
        if i < half - 1 {
            assert(lo.children[i].value == l[i].1);
        }
    }
    assert forall|i: int| 0 <= i < l.len() - half implies #[trigger] handles(hi)[i]
        == l[i + half].1 by {
        if i < l.len() - half - 1 {
            assert(hi.children[i].value == l[i + half].1);
        }
    }
    assert(handles(lo) + handles(hi) =~= row_handles(l));
}

/// The handles of a row in which two leaves took the place of one.
proof fn lemma_split_row_handles<K>(e: Row<K>, j: int, middle: K, low: LeafPtr, high: LeafPtr)
    requires
        0 <= j < e.len(),
    ensures
        ({
            let h = row_handles(e);
            row_handles(split_row(e, j, middle, low, high)) == h.take(j) + seq![low, high] + h.skip(
                j + 1,
            )
        }),
{
    let h = row_handles(e);
    assert(row_handles(split_row(e, j, middle, low, high)) =~= h.take(j) + seq![low, high] + h.skip(
        j + 1,
    ));
}

/// Giving up the split of a leaf leaves the list as it was before the insertion that led to it.
/// It may be given up in a later arena, in which the leaves are as the insertion left them.
pub proof fn law_rollback_list<K: Ord + Clone, V: Clone>(
    m: NodeModel<K>,
    a: ArenaModel<K, V>,
    k: K,
    v: V,
    m2: NodeModel<K>,
    a2: ArenaModel<K, V>,
    later: ArenaModel<K, V>,
    h: Seq<LeafPtr>,
)
    requires
        full_for(m, a, k, v, m2, a2),
        extends(a2, later),
        listed(h, a),
    ensures
        ({
            let n = m2.new_leaves->0;
            listed(h, discarded_at(discarded_at(later, n.low_key_leaf), n.high_key_leaf))
        }),
{
    law_rollback(m, a, k, v, m2, a2, later);
    let n = m2.new_leaves->0;
    lemma_listed_same(h, a, discarded_at(discarded_at(later, n.low_key_leaf), n.high_key_leaf));
}

/// A merge that succeeds leaves the leaves of the two nodes in the order of the list. The left
/// node has lost its bounded leaves, and its bound `k` is less than every bound of the right one,
/// which gets the clone `b` of it.
pub proof fn law_merge_list<K: Ord + Clone, V>(
    m: NodeModel<K>,
    prev: NodeModel<K>,
    a: ArenaModel<K, V>,
    k: K,
    b: K,
    left: Seq<LeafPtr>,
    right: Seq<LeafPtr>,
)
    requires
        key_laws::<K>(),
        cloned(k, b),
        a.wf(),
        m.wf(a),
        prev.wf(a),
        forall|i: int| !#[trigger] live_at(prev.children, i),
        forall|i: int| live_at(m.children, i) ==> lt(k, (#[trigger] m.children[i]).key),
        listed(left + handles(prev) + handles(m) + right, a),
    ensures
        ({
            let (merged, m2, prev2, a2) = merge_outcome(m, prev, a, k, b);
            merged ==> listed(left + handles(m2) + right, a2)
        }),
{
    let h = left + handles(prev) + handles(m) + right;
    let (merged, m2, prev2, a2) = merge_outcome(m, prev, a, k, b);
    let p = prev.unbounded->At_0;
    let c = left.len() as int;
    lemma_live(prev.children);
    if live(prev.children).len() > 0 {
        let d = lemma_live_source(prev.children, 0);
        assert(live_at(prev.children, d));
    }
    assert(handles(prev) =~= seq![prev.unbounded]);
    assert(h[c] == prev.unbounded);
    assert(prev.unbounded is At);
    if merged {
        if is_obsolete(a.entries(p)) {
            lemma_listed_discarded(h, a, c);
            assert(left + handles(m2) + right =~= h.remove(c));
        } else {
            let e = row_of(m);
            assert(same(k, b));
            lemma_accepts_same(m.children, k, b);
            assert(takes(e[0], b)) by {
                if live(m.children).len() > 0 {
                    let d = lemma_live_source(m.children, 0);
                    assert(lt(k, m.children[d].key));
                }
            }
            assert(routes(e, b, 0));
            lemma_row_added(m, b, LeafPtr::At(p), 0);
            assert(left + handles(m2) + right =~= h);
        }
    }
}

/// The leaves of a node stand in the order of their keys: every key of a leaf is less than every
/// key of a leaf further to the right.
pub proof fn law_list_order<K: Ord + Clone, V>(
    m: NodeModel<K>,
    a: ArenaModel<K, V>,
    i: int,
    j: int,
    x: K,
    y: K,
)
    requires
        key_laws::<K>(),
        m.wf(a),
        m.keys_in_place(a),
        listed(handles(m), a),
        0 <= i < j < handles(m).len(),
        holds(a.entries(handles(m)[i]->At_0), x),
        holds(a.entries(handles(m)[j]->At_0), y),
    ensures
        lt(x, y),
{
    let h = handles(m);
    let e = row_of(m);
    let c = lemma_row(m, x);
    let d = lemma_row(m, y);
    lemma_row_leaves(m, a);
    assert(m.owns(e[i].1) && m.owns(e[j].1));
    assert(h[c] == h[i]);
    assert(h[d] == h[j]);
    assert(!takes(e[i], y));
}

} // verus!
