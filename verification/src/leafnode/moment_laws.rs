//! The moments that a node goes through while an entry is inserted or removed, as far as readers
//! can tell them apart.
use crate::arena::{
    lemma_allocated, lemma_discarded, lemma_linked_before, lemma_links_only, lemma_with_entries,
    ArenaModel, LeafPtr,
};
use crate::error::InsertError;
use crate::leaf::laws::{
    lemma_lookup_copied, lemma_lookup_with_entry, lemma_lookup_without_key, lemma_version,
};
use crate::leaf::{
    accepts, entries_wf, holds, index_of, is_obsolete, key_at, lemma_index_of, lemma_lookup_same,
    lemma_with_entry, lemma_without_key, live, lookup, without_key,
};
use crate::leafnode::capacity_laws::{clone_line, copy_of, lemma_copy_of};
use crate::leafnode::history_laws::{
    attempted, follows_on, has_key, history, keeps, law_history_joined, law_search_during, moves_on,
    Moment,
};
use crate::leafnode::laws::{law_insert, law_remove, lemma_slot_owned};
use crate::leafnode::model::{
    lemma_add_child, lemma_owns_active, lemma_remove_child, lemma_replace_handle, lemma_wf_in,
    NodeModel,
};
use crate::leafnode::probe::{changed, lemma_changed, lemma_count_removed_same, Attempt, Change};
use crate::leafnode::routing::{lemma_bound_held, lemma_slot_added};
use crate::leafnode::split::{lemma_split_plans, split_high, split_low};
use crate::leafnode::split_laws::{
    lemma_split_bound, lemma_split_found, lemma_split_frame, lemma_split_parts, lemma_split_shape,
    split_for,
};
use crate::leafnode::write::{inserts, remove_outcome};
use crate::order::{bound_cloned, key_laws, lt, same};
use vstd::prelude::*;

verus! {

/// The arena after the new leaves of a split were put into the list, before the full leaf is
/// discarded.
pub open spec fn linked_arena<K: Ord, V>(
    a: ArenaModel<K, V>,
    k: K,
    v: V,
    full: usize,
    a2: ArenaModel<K, V>,
) -> ArenaModel<K, V> {
    let low = a.next as usize;
    let high = (a.next + 1) as usize;
    let one = a.allocated(a2.entries(low));
    if split_high(live(a.entries(full)), k, v).len() == 0 {
        one.linked_before(full, low)
    } else {
        one.allocated(a2.entries(high)).linked_before(full, low).linked_before(full, high)
    }
}

/// The node before the last of the new leaves takes the place of the full one, which still stands
/// under its bound. A low-key leaf that is not the last has been added by then.
pub open spec fn half_split<K: Ord>(
    m: NodeModel<K>,
    k: K,
    full: usize,
    m2: NodeModel<K>,
) -> NodeModel<K> {
    m2.with_handle(m.bound(k), LeafPtr::At(full))
}

/// The moments of an insertion: a split puts the new leaves into the list, adds the low-key leaf to
/// the node, puts the high-key leaf in the place of the full one, and discards that one.
pub open spec fn insert_moments<K: Ord + Clone, V: Clone>(
    m: NodeModel<K>,
    a: ArenaModel<K, V>,
    k: K,
    v: V,
    r: Result<(), InsertError<K, V>>,
    m2: NodeModel<K>,
    a2: ArenaModel<K, V>,
) -> Seq<Moment<K, V>> {
    let full = m.slot(k)->At_0;
    let linked = linked_arena(a, k, v, full, a2);
    if r is Ok && !accepts(a.entries(full), k) {
        seq![
            Moment { node: m, arena: a },
            Moment { node: m, arena: linked },
            Moment { node: half_split(m, k, full, m2), arena: linked },
            Moment { node: m2, arena: linked },
            Moment { node: m2, arena: a2 },
        ]
    } else {
        seq![Moment { node: m, arena: a }, Moment { node: m2, arena: a2 }]
    }
}

/// At every moment of an insertion the node has the other keys that it had before, with their
/// values or clones of them: the moments are a history for each of those keys.
pub proof fn law_insert_moments<K: Ord + Clone, V: Clone>(
    m: NodeModel<K>,
    a: ArenaModel<K, V>,
    k: K,
    v: V,
    r: Result<(), InsertError<K, V>>,
    m2: NodeModel<K>,
    a2: ArenaModel<K, V>,
    key: K,
)
    requires
        key_laws::<K>(),
        a.wf(),
        a2.wf(),
        m.wf(a),
        m2.wf(a2),
        m.keys_in_place(a),
        inserts(m, a, k, v, r, m2, a2),
        m.found(a, key) is Some,
        !same(key, k),
    ensures
        ({
            let h = insert_moments(m, a, k, v, r, m2, a2);
            &&& history(h, key)
            &&& h.first() == Moment { node: m, arena: a }
            &&& h.last() == Moment { node: m2, arena: a2 }
            &&& forall|i: int|
                0 <= i < h.len() ==> cloned(
                    m.found(a, key)->0,
                    (#[trigger] h[i]).node.found(h[i].arena, key)->0,
                )
        }),
{
    let h = insert_moments(m, a, k, v, r, m2, a2);
    let full = m.slot(k)->At_0;
    lemma_slot_owned(m, a, k);
    lemma_slot_owned(m, a, key);
    if m.slot(k) is At {
        let s = a.entries(full);
        if accepts(s, k) {
            assert forall|p: usize| #[trigger]
                a.cells.dom().contains(p) implies a2.cells.dom().contains(p) && lookup(
                a2.entries(p),
                key,
            ) == lookup(a.entries(p), key) by {
                lemma_lookup_with_entry(s, k, v, key);
            }
        } else if !holds(s, k) && m.new_leaves is None {
            lemma_bound_held(m, k);
            assert(split_for(m, a, k, v, full, r, m2, a2));
            lemma_split_frame(m, a, k, v, full, r, m2, a2);
            if r is Ok {
                lemma_split_moments(m, a, k, v, full, m2, a2, key);
            } else {
                lemma_full_keeps(m, a, k, v, full, r, m2, a2, key);
            }
        }
    }
    assert forall|i: int| 0 <= i < h.len() implies has_key(#[trigger] h[i], key) by {}
    assert forall|i: int| 0 <= i < h.len() - 1 implies follows_on(
        #[trigger] h[i],
        h[i + 1],
        key,
    ) by {}
}

/// A split that found no room keeps what is found.
proof fn lemma_full_keeps<K: Ord + Clone, V: Clone>(
    m: NodeModel<K>,
    a: ArenaModel<K, V>,
    k: K,
    v: V,
    full: usize,
    r: Result<(), InsertError<K, V>>,
    m2: NodeModel<K>,
    a2: ArenaModel<K, V>,
    key: K,
)
    requires
        split_for(m, a, k, v, full, r, m2, a2),
        r is Err,
    ensures
        keeps(a, a2, key),
        m2.found(a2, key) == m.found(a, key),
        moves_on(m, m2),
{
    lemma_split_frame(m, a, k, v, full, r, m2, a2);
    lemma_slot_owned(m, a, key);
    assert(m2.slot(key) == m.slot(key));
}

/// The moments of a split.
proof fn lemma_split_moments<K: Ord + Clone, V: Clone>(
    m: NodeModel<K>,
    a: ArenaModel<K, V>,
    k: K,
    v: V,
    full: usize,
    m2: NodeModel<K>,
    a2: ArenaModel<K, V>,
    key: K,
)
    requires
        split_for(m, a, k, v, full, Ok(()), m2, a2),
        m.keys_in_place(a),
        m2.wf(a2),
        m.found(a, key) is Some,
        !same(key, k),
    ensures
        ({
            let b = linked_arena(a, k, v, full, a2);
            let m1 = half_split(m, k, full, m2);
            let w = m.found(a, key)->0;
            &&& b.wf()
            &&& m.wf(b)
            &&& m1.wf(b)
            &&& m2.wf(b)
            &&& m.found(b, key) == m.found(a, key)
            &&& m1.found(b, key) is Some
            &&& cloned(w, m1.found(b, key)->0)
            &&& m2.found(b, key) is Some
            &&& cloned(w, m2.found(b, key)->0)
            &&& m2.found(a2, key) == m2.found(b, key)
            &&& keeps(a, b, key)
            &&& keeps(b, a2, key)
            &&& moves_on(m, m1)
            &&& moves_on(m1, m2)
        }),
{
    let b = linked_arena(a, k, v, full, a2);
    lemma_linked_arena(m, a, k, v, full, m2, a2);
    lemma_split_found(m, a, k, v, full, m2, a2, key);
    lemma_slot_owned(m, a, key);
    assert(m.found(b, key) == m.found(a, key));
    lemma_slot_owned(m2, a2, key);
    assert(m2.found(a2, key) == m2.found(b, key));
    lemma_half_split(m, a, k, v, full, m2, a2, key);
}

/// The arena before the full leaf is discarded is in order, and has the entries of the one after.
proof fn lemma_linked_arena<K: Ord + Clone, V: Clone>(
    m: NodeModel<K>,
    a: ArenaModel<K, V>,
    k: K,
    v: V,
    full: usize,
    m2: NodeModel<K>,
    a2: ArenaModel<K, V>,
)
    requires
        split_for(m, a, k, v, full, Ok(()), m2, a2),
        m2.wf(a2),
    ensures
        ({
            let b = linked_arena(a, k, v, full, a2);
            &&& b.wf()
            &&& a2 == b.discarded(full)
            &&& a2.cells.dom() == b.cells.dom()
            &&& m.wf(b)
            &&& m2.wf(b)
            &&& forall|p: usize| #[trigger] b.entries(p) == a2.entries(p)
            &&& forall|p: usize| #[trigger]
                a.cells.dom().contains(p) ==> b.cells.dom().contains(p) && b.entries(p)
                    == a.entries(p)
            &&& b.active(a.next as usize)
            &&& forall|p: usize| #[trigger] a.active(p) ==> b.active(p)
            &&& !m.owns(LeafPtr::At(a.next as usize))
        }),
{
    let low = a.next as usize;
    let high = (a.next + 1) as usize;
    let b = linked_arena(a, k, v, full, a2);
    let b1 = a.allocated(a2.entries(low));
    lemma_split_frame(m, a, k, v, full, Ok(()), m2, a2);
    if m.owns(LeafPtr::At(low)) {
        lemma_owns_active(m, a, low);
    }
    if split_high(live(a.entries(full)), k, v).len() == 0 {
        lemma_links_only(b1, full, low);
        lemma_links_only(b, full, full);
        assert(a2.next == a.next + 1);
        assert(b1.cells.dom().contains(low));
        assert(a2.cells.dom().contains(low));
        assert(entries_wf(a2.entries(low)));
        lemma_allocated(a, a2.entries(low));
        lemma_linked_before(b1, full, low);
    } else {
        let b2 = b1.allocated(a2.entries(high));
        let b3 = b2.linked_before(full, low);
        lemma_links_only(b2, full, low);
        lemma_links_only(b3, full, high);
        lemma_links_only(b, full, full);
        assert(a2.next == a.next + 2);
        assert(a2.cells.dom().contains(low) && a2.cells.dom().contains(high));
        assert(entries_wf(a2.entries(low)) && entries_wf(a2.entries(high)));
        lemma_allocated(a, a2.entries(low));
        lemma_allocated(b1, a2.entries(high));
        lemma_linked_before(b2, full, low);
        lemma_linked_before(b3, full, high);
    }
    lemma_discarded(b, full);
    assert forall|p: usize| #[trigger] a.cells.dom().contains(p) implies b.cells.dom().contains(p)
        && b.entries(p) == a.entries(p) by {
        assert(p < a.next);
        assert(b.entries(p) == a2.entries(p));
    }
    lemma_wf_in(m, a, b);
    lemma_wf_in(m2, a2, b);
}

/// A handle that was replaced can be put back.
proof fn lemma_put_back<K: Ord + Clone>(m: NodeModel<K>, bound: Option<K>, p: LeafPtr)
    requires
        key_laws::<K>(),
        m.shape(),
        bound matches Some(x) ==> holds(m.children, x),
    ensures
        m.with_handle(bound, p).with_handle(bound, m.handle(bound)) == m,
{
    if let Some(x) = bound {
        let i = index_of(m.children, x);
        assert(key_at(m.children, x, i));
        let n = m.with_handle(bound, p);
        lemma_changed(m, Change::Replace(bound, p));
        assert(key_at(n.children, x, i));
        lemma_index_of(n.children, x, i);
        assert(n.with_handle(bound, m.handle(bound)).children =~= m.children);
    }
}

/// Between the two changes of a split every key is still found.
proof fn lemma_half_split<K: Ord + Clone, V: Clone>(
    m: NodeModel<K>,
    a: ArenaModel<K, V>,
    k: K,
    v: V,
    full: usize,
    m2: NodeModel<K>,
    a2: ArenaModel<K, V>,
    key: K,
)
    requires
        split_for(m, a, k, v, full, Ok(()), m2, a2),
        m.keys_in_place(a),
        m2.wf(a2),
        m.found(a, key) is Some,
        !same(key, k),
    ensures
        ({
            let b = linked_arena(a, k, v, full, a2);
            let m1 = half_split(m, k, full, m2);
            &&& m1.wf(b)
            &&& m1.found(b, key) is Some
            &&& cloned(m.found(a, key)->0, m1.found(b, key)->0)
            &&& moves_on(m, m1)
            &&& moves_on(m1, m2)
        }),
{
    let b = linked_arena(a, k, v, full, a2);
    let m1 = half_split(m, k, full, m2);
    let bound = m.bound(k);
    let s = a.entries(full);
    let low = a.next as usize;
    let high = (a.next + 1) as usize;
    lemma_linked_arena(m, a, k, v, full, m2, a2);
    lemma_split_frame(m, a, k, v, full, Ok(()), m2, a2);
    let max = lemma_split_shape(m, a, k, v, full, Ok(()), m2, a2);
    lemma_slot_owned(m, a, key);
    assert(m.found(b, key) == m.found(a, key));
    if split_high(live(s), k, v).len() == 0 {
        let c = Change::Replace(bound, LeafPtr::At(low));
        lemma_changed(m, c);
        assert(m2 == changed(m, c));
        lemma_put_back(m, bound, LeafPtr::At(low));
    } else {
        let plan = split_low(live(s), k, v);
        assert(entries_wf(s));
        lemma_split_plans(s, k, v);
        lemma_split_parts(s, k, v, key);
        lemma_split_bound(m, a, k, v, full, max);
        lemma_with_entry(m.children, max, LeafPtr::At(low));
        if let Some(x) = bound {
            lemma_lookup_with_entry(m.children, max, LeafPtr::At(low), x);
            if same(max, x) {
                lemma_lookup_same(m.children, max, x);
            }
        }
        let added = changed(m, Change::Add(max, LeafPtr::At(low)));
        lemma_put_back(added, bound, LeafPtr::At(high));
        assert(m1 == added);
        lemma_add_child(m, b, max, low);
        lemma_slot_added(m, max, LeafPtr::At(low), key);
        lemma_changed(m, Change::Add(max, LeafPtr::At(low)));
        let c = Change::Replace(bound, LeafPtr::At(high));
        lemma_changed(m1, c);
        assert(m2 == changed(m1, c));
        lemma_bound_held(m, key);
        if m.bound(key) == bound && !lt(max, key) {
            // The key has moved to the low-key leaf.
            assert(m.slot(key) == LeafPtr::At(full));
            assert(holds(s, key));
            lemma_lookup_copied(plan, a2.entries(low), key);
            assert(b.entries(low) == a2.entries(low));
        }
    }
}

/// The moments of a removal: the entry is removed from its leaf; a leaf that is obsolete by then is
/// taken out of the node, and discarded.
pub open spec fn remove_moments<K: Ord, V>(
    m: NodeModel<K>,
    a: ArenaModel<K, V>,
    k: K,
) -> Seq<Moment<K, V>> {
    let p = m.slot(k)->At_0;
    let a1 = a.with_entries(p, without_key(a.entries(p), k));
    let (r, m2, a2) = remove_outcome(m, a, k);
    if m.slot(k) is Null {
        seq![Moment { node: m, arena: a }]
    } else {
        seq![
            Moment { node: m, arena: a },
            Moment { node: m, arena: a1 },
            Moment { node: m2, arena: a1 },
            Moment { node: m2, arena: a2 },
        ]
    }
}

/// At every moment of a removal the node has the other keys that it had before, with their values:
/// the moments are a history for each of those keys.
pub proof fn law_remove_moments<K: Ord + Clone, V>(
    m: NodeModel<K>,
    a: ArenaModel<K, V>,
    k: K,
    key: K,
)
    requires
        key_laws::<K>(),
        a.wf(),
        m.wf(a),
        m.keys_in_place(a),
        m.found(a, key) is Some,
        !same(key, k),
    ensures
        ({
            let h = remove_moments(m, a, k);
            let (r, m2, a2) = remove_outcome(m, a, k);
            &&& history(h, key)
            &&& h.first() == Moment { node: m, arena: a }
            &&& h.last() == Moment { node: m2, arena: a2 }
            &&& forall|i: int|
                0 <= i < h.len() ==> (#[trigger] h[i]).node.found(h[i].arena, key) == m.found(
                    a,
                    key,
                )
        }),
{
    let h = remove_moments(m, a, k);
    let (r, m2, a2) = remove_outcome(m, a, k);
    let before = m.contents(a);
    lemma_slot_owned(m, a, k);
    lemma_slot_owned(m, a, key);
    law_remove(m, a, k);
    assert(m2.contents(a2).dom().contains(key));
    assert(m2.contents(a2)[key] == before[key]);
    assert(m2.found(a2, key) == m.found(a, key));
    if let LeafPtr::At(p) = m.slot(k) {
        let s = a.entries(p);
        let t = without_key(s, k);
        let a1 = a.with_entries(p, t);
        assert(entries_wf(s));
        lemma_without_key(s, k);
        lemma_with_entries(a, p, t);
        lemma_lookup_without_key(s, k, key);
        lemma_wf_in(m, a, a1);
        assert(keeps(a, a1, key));
        assert(m.found(a1, key) == m.found(a, key));
        lemma_taken_out(m, a, k);
        lemma_slot_owned(m2, a1, key);
        assert(m2.found(a1, key) == m2.found(a2, key));
    }
    assert forall|i: int| 0 <= i < h.len() implies has_key(#[trigger] h[i], key) by {}
    assert forall|i: int| 0 <= i < h.len() - 1 implies follows_on(
        #[trigger] h[i],
        h[i + 1],
        key,
    ) by {}
}

/// A node from which an obsolete leaf is taken out moves on, and is in order before that leaf is
/// discarded and after.
proof fn lemma_taken_out<K: Ord + Clone, V>(m: NodeModel<K>, a: ArenaModel<K, V>, k: K)
    requires
        key_laws::<K>(),
        a.wf(),
        m.wf(a),
        m.slot(k) is At,
    ensures
        ({
            let p = m.slot(k)->At_0;
            let a1 = a.with_entries(p, without_key(a.entries(p), k));
            let (r, m2, a2) = remove_outcome(m, a, k);
            &&& moves_on(m, m2)
            &&& m2.wf(a1)
            &&& m2.wf(a2)
            &&& a1.wf()
            &&& a2.wf()
            &&& a2.cells.dom() == a1.cells.dom()
            &&& forall|q: usize| #[trigger] a2.entries(q) == a1.entries(q)
        }),
{
    let p = m.slot(k)->At_0;
    let s = a.entries(p);
    let t = without_key(s, k);
    let a1 = a.with_entries(p, t);
    let (r, m2, a2) = remove_outcome(m, a, k);
    lemma_slot_owned(m, a, k);
    lemma_without_key(s, k);
    lemma_with_entries(a, p, t);
    lemma_wf_in(m, a, a1);
    lemma_bound_held(m, k);
    let bound = m.bound(k);
    if is_obsolete(t) && m.new_leaves is None && bound is Some {
        let b = bound->0;
        let n = m.with_handle(bound, LeafPtr::Null);
        lemma_replace_handle(m, a1, bound, LeafPtr::Null);
        lemma_remove_child(n, a1, b);
        assert(m2 == (NodeModel { children: without_key(n.children, b), ..n }));
        let i = index_of(m.children, b);
        assert(key_at(m.children, b, i));
        assert(key_at(n.children, b, i));
        lemma_version(n.children, b, LeafPtr::Null);
        lemma_count_removed_same(m.children, n.children);
        lemma_discarded(a1, p);
        lemma_wf_in(m2, a1, a2);
    }
}

/// The insertion in place `i` of a run, whatever comes of it.
pub open spec fn tried_at<K: Ord + Clone, V: Clone>(
    nodes: Seq<NodeModel<K>>,
    arenas: Seq<ArenaModel<K, V>>,
    given: Seq<(K, V)>,
    results: Seq<Result<(), InsertError<K, V>>>,
    i: int,
) -> bool {
    &&& arenas[i + 1].wf()
    &&& nodes[i + 1].wf(arenas[i + 1])
    &&& inserts(
        nodes[i],
        arenas[i],
        given[i].0,
        given[i].1,
        results[i],
        nodes[i + 1],
        arenas[i + 1],
    )
}

/// The moments of the first `n` insertions of a run.
pub open spec fn run_moments<K: Ord + Clone, V: Clone>(
    nodes: Seq<NodeModel<K>>,
    arenas: Seq<ArenaModel<K, V>>,
    given: Seq<(K, V)>,
    results: Seq<Result<(), InsertError<K, V>>>,
    n: int,
) -> Seq<Moment<K, V>>
    decreases n,
{
    if n <= 0 {
        seq![Moment { node: nodes[0], arena: arenas[0] }]
    } else {
        run_moments(nodes, arenas, given, results, n - 1) + insert_moments(
            nodes[n - 1],
            arenas[n - 1],
            given[n - 1].0,
            given[n - 1].1,
            results[n - 1],
            nodes[n],
            arenas[n],
        ).drop_first()
    }
}

/// While others insert entries with other keys, splitting leaves as they go, a key of the node is
/// there at every moment, with its value, or a clone of it, or a clone of that, and so on. So no
/// search, at whatever moments it takes its steps, misses it. A search notes a clone of the bound
/// that it finds.
pub proof fn law_search_during_inserts<K: Ord + Clone, V: Clone>(
    nodes: Seq<NodeModel<K>>,
    arenas: Seq<ArenaModel<K, V>>,
    given: Seq<(K, V)>,
    results: Seq<Result<(), InsertError<K, V>>>,
    n: int,
    key: K,
    bound: Option<K>,
    t0: int,
    t1: int,
    t2: int,
    t3: int,
)
    requires
        key_laws::<K>(),
        0 <= n == given.len(),
        nodes.len() == n + 1,
        arenas.len() == n + 1,
        results.len() == n,
        arenas[0].wf(),
        nodes[0].wf(arenas[0]),
        nodes[0].keys_in_place(arenas[0]),
        nodes[0].found(arenas[0], key) is Some,
        forall|i: int| 0 <= i < n ==> #[trigger] tried_at(nodes, arenas, given, results, i),
        forall|i: int| 0 <= i < n ==> !same((#[trigger] given[i]).0, key),
        0 <= t0 <= t1 <= t2 <= t3 < run_moments(nodes, arenas, given, results, n).len(),
        bound_cloned(
            run_moments(nodes, arenas, given, results, n)[t0].node.bound(key),
            bound,
        ),
    ensures
        ({
            let h = run_moments(nodes, arenas, given, results, n);
            &&& history(h, key)
            &&& match attempted(h[t0], bound, h[t1], h[t2]) {
                Attempt::Leaf(p) => {
                    let found = lookup(h[t3].arena.entries(p), key);
                    found is Some && copy_of(nodes[0].found(arenas[0], key)->0, found->0)
                },
                Attempt::Unlinked => false,
                Attempt::Again => t0 < t2,
            }
        }),
{
    let h = run_moments(nodes, arenas, given, results, n);
    lemma_run_moments(nodes, arenas, given, results, n, key);
    law_search_during(h, key, bound, t0, t1, t2, t3);
    assert(copy_of(
        nodes[0].found(arenas[0], key)->0,
        h[t1].node.found(h[t1].arena, key)->0,
    ));
}

/// The moments of a run of insertions are a history for every other key.
proof fn lemma_run_moments<K: Ord + Clone, V: Clone>(
    nodes: Seq<NodeModel<K>>,
    arenas: Seq<ArenaModel<K, V>>,
    given: Seq<(K, V)>,
    results: Seq<Result<(), InsertError<K, V>>>,
    n: int,
    key: K,
)
    requires
        key_laws::<K>(),
        0 <= n <= given.len(),
        arenas[0].wf(),
        nodes[0].wf(arenas[0]),
        nodes[0].keys_in_place(arenas[0]),
        nodes[0].found(arenas[0], key) is Some,
        forall|i: int| 0 <= i < n ==> #[trigger] tried_at(nodes, arenas, given, results, i),
        forall|i: int| 0 <= i < n ==> !same((#[trigger] given[i]).0, key),
    ensures
        ({
            let h = run_moments(nodes, arenas, given, results, n);
            let v = nodes[0].found(arenas[0], key)->0;
            &&& history(h, key)
            &&& h.last() == Moment { node: nodes[n], arena: arenas[n] }
            &&& nodes[n].keys_in_place(arenas[n])
            &&& nodes[n].wf(arenas[n])
            &&& arenas[n].wf()
            &&& forall|i: int|
                0 <= i < h.len() ==> copy_of(v, (#[trigger] h[i]).node.found(h[i].arena, key)->0)
        }),
    decreases n,
{
    let h = run_moments(nodes, arenas, given, results, n);
    let v = nodes[0].found(arenas[0], key)->0;
    if n == 0 {
        assert(clone_line(seq![v], v, v));
    } else {
        let c = n - 1;
        let g = run_moments(nodes, arenas, given, results, c);
        lemma_run_moments(nodes, arenas, given, results, c, key);
        assert(tried_at(nodes, arenas, given, results, c));
        let (k, w) = given[c];
        let r = results[c];
        let d = insert_moments(nodes[c], arenas[c], k, w, r, nodes[n], arenas[n]);
        assert(has_key(g[g.len() - 1], key));
        law_insert_moments(nodes[c], arenas[c], k, w, r, nodes[n], arenas[n], key);
        law_insert(nodes[c], arenas[c], k, w, r, nodes[n], arenas[n]);
        law_history_joined(g, d, key);
        assert(h == g + d.drop_first());
        assert(h[h.len() - 1] == d[d.len() - 1]);
        assert forall|i: int| 0 <= i < h.len() implies copy_of(
            v,
            (#[trigger] h[i]).node.found(h[i].arena, key)->0,
        ) by {
            if i < g.len() {
                assert(h[i] == g[i]);
            } else {
                let j = i - g.len() + 1;
                assert(h[i] == d[j]);
                assert(copy_of(v, g[g.len() - 1].node.found(g[g.len() - 1].arena, key)->0));
                lemma_copy_of(
                    v,
                    nodes[c].found(arenas[c], key)->0,
                    h[i].node.found(h[i].arena, key)->0,
                );
            }
        }
    }
}

} // verus!
