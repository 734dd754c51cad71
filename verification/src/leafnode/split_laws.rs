//! What a split of a leaf does to what is found in the node.
use crate::arena::{lemma_links_only, ArenaModel, LeafPtr};
use crate::error::InsertError;
use crate::leaf::laws::{
    lemma_lookup_copied, lemma_lookup_live, lemma_lookup_parts, lemma_lookup_with_entry,
};
use crate::leaf::{
    accepts, all_live, copied, entries_wf, high_half, holds, index_of, key_at, lemma_live,
    lemma_lookup_same, lemma_seek, lemma_seek_after, lemma_with_entry, live, live_at, lookup,
    low_half, seek, seek_after, sorted, with_entry, Entry,
};
use crate::leafnode::model::{
    lemma_add_child, lemma_owns_active, lemma_replace_handle, lemma_wf_in, NodeModel,
};
use crate::leafnode::routing::{
    lemma_alike, lemma_bound_held, lemma_handle_alike, lemma_leaf_bound, lemma_slot_added,
    lemma_slot_replaced, lemma_slot_same,
};
use crate::leafnode::split::{
    goes_low, lemma_accepts_same, lemma_copied_live, lemma_handle_owned, lemma_split_plans,
    split_high, split_low, splits, two_leaves,
};
use crate::order::{alike, key_laws, lt, same};
use vstd::prelude::*;

verus! {

/// The last key of an array without removed entries is its greatest.
proof fn lemma_last_is_max<K: Ord + Clone, V>(s: Seq<Entry<K, V>>, x: K)
    requires
        key_laws::<K>(),
        sorted(s),
        all_live(s),
        s.len() > 0,
    ensures
        holds(s, s.last().key),
        holds(s, x) ==> !lt(s.last().key, x),
{
    let n = s.len() - 1;
    assert(!s[n].removed);
    assert(key_at(s, s.last().key, n));
    if holds(s, x) {
        let i = index_of(s, x);
        assert(key_at(s, x, i));
        if i < n {
            assert(lt(s[i].key, s[n].key) || s[i].removed);
        }
    }
}

/// The halves of a split do not have the new key.
proof fn lemma_split_halves<K: Ord + Clone, V>(s: Seq<Entry<K, V>>, k: K, x: K)
    requires
        key_laws::<K>(),
        entries_wf(s),
        !holds(s, k),
    ensures
        ({
            let l = low_half(live(s));
            let h = high_half(live(s));
            &&& accepts(l, k)
            &&& accepts(h, k)
            &&& entries_wf(l)
            &&& entries_wf(h)
            &&& all_live(l)
            &&& all_live(h)
            &&& lookup(s, x) == if holds(l, x) {
                lookup(l, x)
            } else {
                lookup(h, x)
            }
        }),
{
    let all = live(s);
    let l = low_half(all);
    let h = high_half(all);
    let n = l.len() as int;
    lemma_live(s);
    lemma_lookup_live(s, x);
    lemma_lookup_live(s, k);
    lemma_lookup_parts(all, n, x);
    assert(all.take(n) =~= l);
    assert(all.skip(n) =~= h);
    assert forall|i: int| 0 <= i < l.len() implies !(#[trigger] l[i]).removed by {
        assert(live_at(all, i));
    }
    assert forall|i: int| 0 <= i < h.len() implies !(#[trigger] h[i]).removed by {
        assert(live_at(all, i + n));
    }
    assert(!holds(l, k)) by {
        if holds(l, k) {
            let i = index_of(l, k);
            assert(key_at(l, k, i));
            assert(key_at(all, k, i));
        }
    }
    assert(!holds(h, k)) by {
        if holds(h, k) {
            let i = index_of(h, k);
            assert(key_at(h, k, i));
            assert(key_at(all, k, i + n));
        }
    }
    if l.len() > 0 {
        assert(!l[0].removed);
    }
    if h.len() > 0 {
        assert(!h[0].removed);
    }
}

/// An entry with a key that is less than some key does not become the last one.
proof fn lemma_insert_keeps_last<K: Ord + Clone, V>(l: Seq<Entry<K, V>>, k: K, v: V)
    requires
        key_laws::<K>(),
        entries_wf(l),
        all_live(l),
        accepts(l, k),
        seek(l, k, 0) < l.len(),
    ensures
        with_entry(l, k, v).last() == l.last(),
        lt(k, l.last().key),
{
    let n = l.len() as int;
    let c = seek(l, k, 0);
    lemma_seek(l, k, 0);
    lemma_seek_after(l, k, 0);
    if same(l[c].key, k) {
        assert(key_at(l, k, c));
    }
    assert(lt(k, l[c].key));
    assert(seek_after(l, k, 0) <= c);
    assert(with_entry(l, k, v)[n] == l[n - 1]);
    if c < n - 1 {
        assert(lt(l[c].key, l[n - 1].key) || l[c].removed);
        assert(!l[c].removed);
    }
}

/// The keys of the high half are greater than those of the low half.
proof fn lemma_high_above<K: Ord + Clone, V>(s: Seq<Entry<K, V>>, x: K)
    requires
        key_laws::<K>(),
        entries_wf(s),
        holds(high_half(live(s)), x),
    ensures
        low_half(live(s)).len() > 0,
        lt(low_half(live(s)).last().key, x),
{
    let all = live(s);
    let l = low_half(all);
    let h = high_half(all);
    let n = l.len() as int;
    lemma_live(s);
    let i = index_of(h, x);
    assert(key_at(h, x, i));
    assert(h[i] == all[i + n]);
    assert(l[n - 1] == all[n - 1]);
    assert(live_at(all, n - 1));
    assert(lt(all[n - 1].key, all[i + n].key) || all[n - 1].removed);
}

/// If there is a high part, the low part ends where the low half does, and the new key is on the
/// side of that key on which it goes.
proof fn lemma_split_max<K: Ord + Clone, V>(s: Seq<Entry<K, V>>, k: K, v: V, x: K)
    requires
        key_laws::<K>(),
        entries_wf(s),
        !holds(s, k),
        high_half(live(s)).len() > 0,
    ensures
        ({
            let all = live(s);
            let max = split_low(all, k, v).last().key;
            &&& max == low_half(all).last().key
            &&& goes_low(all, k) ==> lt(k, max)
            &&& !goes_low(all, k) ==> lt(max, k)
            &&& holds(low_half(all), x) ==> !lt(max, x)
            &&& holds(high_half(all), x) ==> lt(max, x)
        }),
{
    let all = live(s);
    let l = low_half(all);
    let n = l.len() as int;
    lemma_split_halves(s, k, x);
    lemma_last_is_max(l, x);
    if goes_low(all, k) {
        lemma_insert_keeps_last(l, k, v);
    } else {
        lemma_seek(l, k, 0);
        assert(l[n - 1].removed || lt(l[n - 1].key, k));
        assert(!l[n - 1].removed);
    }
    if holds(high_half(all), x) {
        lemma_high_above(s, x);
    }
}

/// The parts of a split hold the live entries of the full leaf and the new entry: up to the
/// greatest key of the low part in the low part, beyond it in the high part.
pub proof fn lemma_split_parts<K: Ord + Clone, V>(s: Seq<Entry<K, V>>, k: K, v: V, x: K)
    requires
        key_laws::<K>(),
        entries_wf(s),
        !holds(s, k),
    ensures
        ({
            let low = split_low(live(s), k, v);
            let high = split_high(live(s), k, v);
            let max = low.last().key;
            let found = if same(x, k) {
                Some(v)
            } else {
                lookup(s, x)
            };
            &&& low.len() > 0
            &&& holds(low, max)
            &&& holds(low, x) ==> !lt(max, x)
            &&& high.len() == 0 ==> lookup(low, x) == found
            &&& high.len() > 0 && !lt(max, x) ==> lookup(low, x) == found
            &&& high.len() > 0 && lt(max, x) ==> lookup(high, x) == found
            &&& holds(high, x) ==> lt(max, x)
        }),
{
    let all = live(s);
    let l = low_half(all);
    let h = high_half(all);
    let low = split_low(all, k, v);
    let high = split_high(all, k, v);
    lemma_split_plans(s, k, v);
    lemma_split_halves(s, k, x);
    lemma_lookup_with_entry(l, k, v, x);
    lemma_lookup_with_entry(h, k, v, x);
    lemma_last_is_max(low, x);
    lemma_live(s);
    if h.len() > 0 {
        lemma_split_max(s, k, v, x);
    } else {
        assert(goes_low(all, k));
        assert(!holds(h, x));
    }
}

/// The situation in which an entry that belongs to a full leaf has led to a split.
pub open spec fn split_for<K: Ord + Clone, V: Clone>(
    m: NodeModel<K>,
    a: ArenaModel<K, V>,
    k: K,
    v: V,
    full: usize,
    r: Result<(), InsertError<K, V>>,
    m2: NodeModel<K>,
    a2: ArenaModel<K, V>,
) -> bool {
    &&& key_laws::<K>()
    &&& a.wf()
    &&& a2.wf()
    &&& m.wf(a)
    &&& m.slot(k) == LeafPtr::At(full)
    &&& !holds(a.entries(full), k)
    &&& m.new_leaves is None
    &&& exists|bound: Option<K>|
        alike(m.bound(k), bound) && #[trigger] splits(m, a, k, v, bound, full, r, m2, a2)
}

/// What such a split leads to, in terms of the bound that the node has for the leaf. The bound of
/// the low-key leaf is handed back.
pub proof fn lemma_split_shape<K: Ord + Clone, V: Clone>(
    m: NodeModel<K>,
    a: ArenaModel<K, V>,
    k: K,
    v: V,
    full: usize,
    r: Result<(), InsertError<K, V>>,
    m2: NodeModel<K>,
    a2: ArenaModel<K, V>,
) -> (max: K)
    requires
        split_for(m, a, k, v, full, r, m2, a2),
    ensures
        ({
            let all = live(a.entries(full));
            let low_plan = split_low(all, k, v);
            let high_plan = split_high(all, k, v);
            let low = a.next as usize;
            let high = (a.next + 1) as usize;
            let one = a.allocated(a2.entries(low));
            let linked = one.allocated(a2.entries(high)).linked_before(full, low).linked_before(
                full,
                high,
            );
            &&& copied(low_plan, a2.entries(low))
            &&& same(max, low_plan.last().key)
            &&& if high_plan.len() == 0 {
                &&& r == Ok::<(), InsertError<K, V>>(())
                &&& m2 == m.with_handle(m.bound(k), LeafPtr::At(low))
                &&& a2 == one.linked_before(full, low).discarded(full)
            } else {
                &&& copied(high_plan, a2.entries(high))
                &&& r is Ok <==> accepts(m.children, max)
                &&& r is Ok ==> {
                    &&& m2 == two_leaves(m, m.bound(k), max, low, high)
                    &&& a2 == linked.discarded(full)
                }
                &&& r is Err ==> {
                    &&& r == Err::<(), InsertError<K, V>>(InsertError::Full((k, v)))
                    &&& m2.children == m.children
                    &&& m2.unbounded == m.unbounded
                    &&& m2.new_leaves matches Some(n) && {
                        &&& alike(m.bound(k), n.origin_leaf_key)
                        &&& n.origin_leaf_ptr == LeafPtr::At(full)
                        &&& n.low_key_leaf == LeafPtr::At(low)
                        &&& n.high_key_leaf == LeafPtr::At(high)
                    }
                    &&& a2 == linked
                }
            }
        }),
{
    let bound = choose|bound: Option<K>|
        alike(m.bound(k), bound) && #[trigger] splits(m, a, k, v, bound, full, r, m2, a2);
    let s = a.entries(full);
    let low_plan = split_low(live(s), k, v);
    let low = a.next as usize;
    let high = (a.next + 1) as usize;
    lemma_bound_held(m, k);
    lemma_handle_alike(m, m.bound(k), bound);
    lemma_handle_owned(m, m.bound(k), full);
    lemma_owns_active(m, a, full);
    assert(entries_wf(s));
    lemma_split_plans(s, k, v);
    lemma_copied_live(low_plan, a2.entries(low));
    let last = a2.entries(low).last().key;
    assert(same(low_plan.last().key, last));
    if split_high(live(s), k, v).len() > 0 && r is Ok {
        let max = choose|b: K|
            cloned(last, b) && m2 == #[trigger] two_leaves(m, bound, b, low, high);
        assert(same(last, max));
        lemma_accepts_same(m.children, low_plan.last().key, max);
        lemma_with_entry(m.children, max, LeafPtr::At(low));
        let m1 = NodeModel { children: with_entry(m.children, max, LeafPtr::At(low)), ..m };
        lemma_handle_alike(m1, m.bound(k), bound);
        if let Some(b) = m.bound(k) {
            lemma_lookup_with_entry(m.children, max, LeafPtr::At(low), b);
        }
        max
    } else {
        low_plan.last().key
    }
}

/// The leaves that were there before a split keep their entries.
pub proof fn lemma_split_frame<K: Ord + Clone, V: Clone>(
    m: NodeModel<K>,
    a: ArenaModel<K, V>,
    k: K,
    v: V,
    full: usize,
    r: Result<(), InsertError<K, V>>,
    m2: NodeModel<K>,
    a2: ArenaModel<K, V>,
)
    requires
        split_for(m, a, k, v, full, r, m2, a2),
    ensures
        forall|q: usize| #[trigger] a.cells.dom().contains(q) ==> a2.entries(q) == a.entries(q),
        m.owns(LeafPtr::At(full)),
        a.active(full),
        m.handle(m.bound(k)) == LeafPtr::At(full),
        m.bound(k) matches Some(b) ==> holds(m.children, b),
{
    let max = lemma_split_shape(m, a, k, v, full, r, m2, a2);
    lemma_bound_held(m, k);
    lemma_handle_owned(m, m.bound(k), full);
    lemma_owns_active(m, a, full);
    let low = a.next as usize;
    let high = (a.next + 1) as usize;
    let le = a2.entries(low);
    let he = a2.entries(high);
    let b1 = a.allocated(le);
    lemma_links_only(b1, full, low);
    lemma_links_only(b1.linked_before(full, low), full, full);
    let b2 = b1.allocated(he);
    lemma_links_only(b2, full, low);
    let b3 = b2.linked_before(full, low);
    lemma_links_only(b3, full, high);
    let b4 = b3.linked_before(full, high);
    lemma_links_only(b4, full, full);
    assert forall|q: usize| #[trigger] a.cells.dom().contains(q) implies a2.entries(q)
        == a.entries(q) by {
        assert(q < a.next);
        assert(b1.entries(q) == a.entries(q));
        assert(b2.entries(q) == a.entries(q));
        assert(b1.linked_before(full, low).entries(q) == a.entries(q));
        assert(b3.entries(q) == a.entries(q));
        assert(b4.entries(q) == a.entries(q));
    }
}

/// The bound of the low-key leaf belonged to the full leaf, as the key that led to the split does.
pub proof fn lemma_split_bound<K: Ord + Clone, V>(
    m: NodeModel<K>,
    a: ArenaModel<K, V>,
    k: K,
    v: V,
    full: usize,
    max: K,
)
    requires
        key_laws::<K>(),
        m.wf(a),
        m.keys_in_place(a),
        m.owns(LeafPtr::At(full)),
        entries_wf(a.entries(full)),
        !holds(a.entries(full), k),
        m.slot(k) == LeafPtr::At(full),
        same(max, split_low(live(a.entries(full)), k, v).last().key),
    ensures
        m.bound(max) == m.bound(k),
        m.slot(max) == m.slot(k),
{
    let s = a.entries(full);
    let last = split_low(live(s), k, v).last().key;
    lemma_split_parts(s, k, v, last);
    lemma_slot_same(m, max, last);
    if !same(last, k) {
        assert(lookup(s, last) is Some);
        assert(holds(s, last));
        assert(m.slot(last) == LeafPtr::At(full));
        lemma_leaf_bound(m, last, k, full);
    } else {
        lemma_slot_same(m, last, k);
    }
}

/// Where a key belongs after a split: a key of the full leaf goes to one of the new leaves.
pub proof fn lemma_split_slot<K: Ord + Clone, V: Clone>(
    m: NodeModel<K>,
    a: ArenaModel<K, V>,
    k: K,
    v: V,
    full: usize,
    m2: NodeModel<K>,
    a2: ArenaModel<K, V>,
    x: K,
)
    requires
        split_for(m, a, k, v, full, Ok(()), m2, a2),
        m.keys_in_place(a),
    ensures
        ({
            let plan = split_low(live(a.entries(full)), k, v);
            let two = split_high(live(a.entries(full)), k, v).len() > 0;
            m2.slot(x) == if m.bound(x) != m.bound(k) {
                m.slot(x)
            } else if two && lt(plan.last().key, x) {
                LeafPtr::At((a.next + 1) as usize)
            } else {
                LeafPtr::At(a.next as usize)
            }
        }),
{
    let bound = m.bound(k);
    let s = a.entries(full);
    let plan = split_low(live(s), k, v);
    let max = lemma_split_shape(m, a, k, v, full, Ok(()), m2, a2);
    let low = LeafPtr::At(a.next as usize);
    let high = LeafPtr::At((a.next + 1) as usize);
    lemma_split_frame(m, a, k, v, full, Ok(()), m2, a2);
    assert(entries_wf(s));
    if split_high(live(s), k, v).len() == 0 {
        lemma_slot_replaced(m, bound, low, x);
        lemma_alike(m, x, k);
    } else {
        lemma_split_bound(m, a, k, v, full, max);
        let m1 = NodeModel { children: with_entry(m.children, max, low), ..m };
        lemma_with_entry(m.children, max, low);
        lemma_slot_added(m, max, low, x);
        if let Some(b) = bound {
            lemma_lookup_with_entry(m.children, max, low, b);
            assert(holds(m1.children, b));
            if same(max, b) {
                lemma_lookup_same(m.children, max, b);
            }
        }
        lemma_slot_replaced(m1, bound, high, x);
        lemma_alike(m, x, k);
        if m1.bound(x) == Some(max) {
            assert(bound != Some(max));
        }
    }
}

/// What is found after a split.
pub proof fn lemma_split_found<K: Ord + Clone, V: Clone>(
    m: NodeModel<K>,
    a: ArenaModel<K, V>,
    k: K,
    v: V,
    full: usize,
    m2: NodeModel<K>,
    a2: ArenaModel<K, V>,
    x: K,
)
    requires
        split_for(m, a, k, v, full, Ok(()), m2, a2),
        m.keys_in_place(a),
    ensures
        ({
            let before = if same(x, k) {
                Some(v)
            } else {
                m.found(a, x)
            };
            let after = m2.found(a2, x);
            &&& before is Some <==> after is Some
            &&& before is Some ==> cloned(before->0, after->0)
        }),
{
    let s = a.entries(full);
    let low_plan = split_low(live(s), k, v);
    let high_plan = split_high(live(s), k, v);
    lemma_split_slot(m, a, k, v, full, m2, a2, x);
    lemma_split_frame(m, a, k, v, full, Ok(()), m2, a2);
    assert(entries_wf(s));
    lemma_split_parts(s, k, v, x);
    lemma_split_plans(s, k, v);
    let max = lemma_split_shape(m, a, k, v, full, Ok(()), m2, a2);
    lemma_bound_held(m, x);
    if same(x, k) {
        lemma_slot_same(m, x, k);
    }
    if m.bound(x) != m.bound(k) {
        if let LeafPtr::At(q) = m.slot(x) {
            lemma_handle_owned(m, m.bound(x), q);
            lemma_owns_active(m, a, q);
            assert(a2.entries(q) == a.entries(q));
        }
    } else {
        assert(m.slot(x) == LeafPtr::At(full));
        lemma_lookup_copied(low_plan, a2.entries(a.next as usize), x);
        if high_plan.len() > 0 {
            lemma_lookup_copied(high_plan, a2.entries((a.next + 1) as usize), x);
        }
    }
}

/// The leaves of the node after a split are the other leaves and the new ones.
pub proof fn lemma_split_owns<K: Ord + Clone, V: Clone>(
    m: NodeModel<K>,
    a: ArenaModel<K, V>,
    k: K,
    v: V,
    full: usize,
    m2: NodeModel<K>,
    a2: ArenaModel<K, V>,
)
    requires
        split_for(m, a, k, v, full, Ok(()), m2, a2),
    ensures
        ({
            let two = split_high(live(a.entries(full)), k, v).len() > 0;
            &&& !m2.owns(LeafPtr::At(full))
            &&& forall|q: usize| #[trigger]
                m2.owns(LeafPtr::At(q)) ==> m.owns(LeafPtr::At(q)) || q == a.next as usize || (two
                    && q == (a.next + 1) as usize)
        }),
{
    let bound = m.bound(k);
    let low = a.next as usize;
    let high = (a.next + 1) as usize;
    let max = lemma_split_shape(m, a, k, v, full, Ok(()), m2, a2);
    lemma_split_frame(m, a, k, v, full, Ok(()), m2, a2);
    if m.owns(LeafPtr::At(low)) {
        lemma_owns_active(m, a, low);
    }
    // An arena in which all of these leaves are active.
    let all = ArenaModel::<K, V> {
        cells: Map::new(|p: usize| true, |p: usize| a.cells[p]),
        retired: Set::empty(),
        next: 0,
    };
    lemma_wf_in(m, a, all);
    if split_high(live(a.entries(full)), k, v).len() == 0 {
        lemma_replace_handle(m, all, bound, LeafPtr::At(low));
    } else {
        lemma_add_child(m, all, max, low);
        let m1 = NodeModel { children: with_entry(m.children, max, LeafPtr::At(low)), ..m };
        assert(high != low);
        if m.owns(LeafPtr::At(high)) {
            lemma_owns_active(m, a, high);
        }
        assert(!m1.owns(LeafPtr::At(high)));
        lemma_replace_handle(m1, all, bound, LeafPtr::At(high));
        if let Some(b) = bound {
            assert(holds(m.children, b));
            assert(m1.handle(Some(b)) == m.handle(Some(b)));
        }
    }
}

} // verus!
