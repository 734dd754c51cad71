//! What the operations that change a leaf node answer, in which situation.
//!
//! The situations are told by the slots themselves: which of them were written, and which were
//! removed.
use crate::arena::{lemma_discarded, lemma_links_only, lemma_with_entries, ArenaModel, LeafPtr};
use crate::error::{InsertError, RemoveError};
use crate::leaf::laws::{
    law_leaf_insert, law_leaf_remove, lemma_live_filter, lemma_lookup_live, lemma_lookup_parts,
    lemma_lookup_with_entry,
};
use crate::leaf::{
    accepts, all_live, copied, entries_wf, high_half, holds, index_of, is_obsolete, key_at,
    lemma_copied_sorted, lemma_index_of, lemma_live, lemma_seek, lemma_with_entry,
    lemma_without_key, live, live_at, lookup, low_half, seek, seek_after, sorted, with_entry,
    without_key, Entry, ARRAY_SIZE,
};
use crate::leafnode::arena_laws::law_split_list;
use crate::leafnode::laws::{
    law_insert, law_remove, lemma_own_bound, lemma_remove_complete, lemma_slot_owned,
};
use crate::leafnode::locker::{lock_outcome, unlocked};
use crate::leafnode::merge::merge_outcome;
use crate::leafnode::model::{
    lemma_owns_active, lemma_remove_child, lemma_replace_handle, lemma_wf_in, NodeModel,
};
use crate::leafnode::release::cleared;
use crate::leafnode::routing::{
    lemma_bound_held, lemma_cloned_alike, lemma_handle_alike, lemma_leaf_bound, lemma_slot_same,
};
use crate::leafnode::split::{
    lemma_accepts_same, lemma_copied_live, lemma_handle_owned, lemma_split_plans, split_high,
    split_low, splits, two_leaves,
};
use crate::leafnode::split_laws::{lemma_split_bound, lemma_split_parts};
use crate::leafnode::write::{full_leaf_outcome, inserts, obsolete_leaf_outcome, remove_outcome};
use crate::order::{bound_cloned, class, key_laws, lt, same};
use vstd::prelude::*;

verus! {

/// A split is put off exactly if the node is locked, if another split is under way, or if another
/// leaf stands under the bound by now; then nothing changes. Otherwise a leaf with few live entries
/// is replaced by one new leaf, and one with more by two, if the array of leaves has a free slot,
/// has not lost all of its bounds, and has no live bound that is the greatest key of the low-key
/// leaf. If it has no room, the node is left as it was, apart from the new leaves, which wait.
pub proof fn law_split_answer<K: Ord + Clone, V: Clone>(
    m: NodeModel<K>,
    a: ArenaModel<K, V>,
    k: K,
    v: V,
    bound: Option<K>,
    full: usize,
    r: Result<(), InsertError<K, V>>,
    m2: NodeModel<K>,
    a2: ArenaModel<K, V>,
)
    requires
        key_laws::<K>(),
        a.wf(),
        a2.wf(),
        m.wf(a),
        splits(m, a, k, v, bound, full, r, m2, a2),
    ensures
        m.new_leaves is Some || m.handle(bound) != LeafPtr::At(full) ==> {
            &&& r == Err::<(), InsertError<K, V>>(InsertError::Retry((k, v)))
            &&& m2 == m
            &&& a2 == a
        },
        m.new_leaves is None && m.handle(bound) == LeafPtr::At(full) ==> {
            let n = a.entries(full).filter(|e: Entry<K, V>| !e.removed).len();
            let low = a.next as usize;
            let high = (a.next + 1) as usize;
            let s = m.children;
            &&& 2 * n <= ARRAY_SIZE ==> {
                &&& r == Ok::<(), InsertError<K, V>>(())
                &&& a2.next == a.next + 1
                &&& m2.children.len() == s.len()
                &&& forall|q: usize| #[trigger]
                    a2.active(q) <==> (a.active(q) && q != full) || q == low
            }
            &&& 2 * n > ARRAY_SIZE ==> {
                let max = a2.entries(low).last().key;
                &&& a2.next == a.next + 2
                &&& r == Ok::<(), InsertError<K, V>>(()) <==> {
                    &&& s.len() < ARRAY_SIZE
                    &&& s.len() == 0 || exists|i: int|
                        0 <= i < s.len() && !(#[trigger] s[i]).removed
                    &&& forall|i: int|
                        0 <= i < s.len() && !(#[trigger] s[i]).removed ==> !same(s[i].key, max)
                }
                &&& r is Ok ==> {
                    &&& m2.children.len() == s.len() + 1
                    &&& forall|q: usize| #[trigger]
                        a2.active(q) <==> (a.active(q) && q != full) || q == low || q == high
                }
                &&& r is Err ==> {
                    &&& r == Err::<(), InsertError<K, V>>(InsertError::Full((k, v)))
                    &&& m2.children == s
                    &&& m2.unbounded == m.unbounded
                    &&& m2.new_leaves matches Some(w) && {
                        &&& w.origin_leaf_key == bound
                        &&& w.origin_leaf_ptr == LeafPtr::At(full)
                        &&& w.low_key_leaf == LeafPtr::At(low)
                        &&& w.high_key_leaf == LeafPtr::At(high)
                    }
                    &&& forall|q: usize| #[trigger]
                        a2.active(q) <==> a.active(q) || q == low || q == high
                }
            }
            &&& r is Ok ==> m2.new_leaves is None
            &&& forall|q: usize| #[trigger]
                a.cells.dom().contains(q) ==> a2.cells.dom().contains(q) && a2.entries(q)
                    == a.entries(q)
        },
{
    if m.new_leaves is None && m.handle(bound) == LeafPtr::At(full) {
        let s = a.entries(full);
        let all = live(s);
        let low = a.next as usize;
        let high = (a.next + 1) as usize;
        let plan = split_low(all, k, v);
        lemma_handle_owned(m, bound, full);
        lemma_owns_active(m, a, full);
        assert(entries_wf(s));
        lemma_live_filter(s);
        lemma_split_plans(s, k, v);
        lemma_copied_live(plan, a2.entries(low));
        let max = a2.entries(low).last().key;
        assert(same(plan.last().key, max));
        lemma_accepts_same(m.children, plan.last().key, max);
        law_leaf_insert(m.children, max, LeafPtr::Null);
        lemma_split_cells(m, a, k, v, bound, full, r, m2, a2);
        if r is Ok {
            law_split_list(m, a, k, v, bound, full, m2, a2);
            if all.len() > ARRAY_SIZE / 2 {
                let b = choose|b: K|
                    cloned(max, b) && m2 == #[trigger] two_leaves(
                        m,
                        bound,
                        b,
                        low,
                        high,
                    );
                assert(same(max, b));
                lemma_accepts_same(m.children, max, b);
                lemma_with_entry(m.children, b, LeafPtr::At(low));
                if let Some(x) = bound {
                    let t = with_entry(m.children, b, LeafPtr::At(low));
                    lemma_lookup_with_entry(m.children, b, LeafPtr::At(low), x);
                    assert(key_at(t, x, index_of(t, x)));
                }
            }
        }
    }
}

/// A split keeps the entries of the leaves that were there; one that finds no room discards none.
proof fn lemma_split_cells<K: Ord + Clone, V: Clone>(
    m: NodeModel<K>,
    a: ArenaModel<K, V>,
    k: K,
    v: V,
    bound: Option<K>,
    full: usize,
    r: Result<(), InsertError<K, V>>,
    m2: NodeModel<K>,
    a2: ArenaModel<K, V>,
)
    requires
        a.wf(),
        a2.wf(),
        m.wf(a),
        m.new_leaves is None,
        m.handle(bound) == LeafPtr::At(full),
        a.active(full),
        splits(m, a, k, v, bound, full, r, m2, a2),
    ensures
        split_high(live(a.entries(full)), k, v).len() == 0 ==> a2.next == a.next + 1,
        split_high(live(a.entries(full)), k, v).len() > 0 ==> a2.next == a.next + 2,
        r is Err ==> forall|q: usize| #[trigger]
            a2.active(q) <==> a.active(q) || q == a.next as usize || q == (a.next + 1) as usize,
        forall|q: usize| #[trigger]
            a.cells.dom().contains(q) ==> a2.cells.dom().contains(q) && a2.entries(q) == a.entries(
                q,
            ),
{
    let low = a.next as usize;
    let high = (a.next + 1) as usize;
    let b1 = a.allocated(a2.entries(low));
    let b2 = b1.allocated(a2.entries(high));
    let b3 = b2.linked_before(full, low);
    let b4 = b3.linked_before(full, high);
    lemma_links_only(b1, full, low);
    lemma_links_only(b1.linked_before(full, low), full, full);
    lemma_links_only(b2, full, low);
    lemma_links_only(b3, full, high);
    lemma_links_only(b4, full, full);
    assert(a.linked(full));
    assert(!a.cells.dom().contains(low) && !a.retired.contains(low));
    assert(a.next + 1 <= usize::MAX ==> !a.cells.dom().contains(high) && !a.retired.contains(high));
    assert forall|q: usize| #[trigger] a.cells.dom().contains(q) implies a2.cells.dom().contains(q)
        && a2.entries(q) == a.entries(q) by {
        assert(q < a.next);
        assert(b1.entries(q) == a.entries(q));
        assert(b2.entries(q) == a.entries(q));
        assert(b3.entries(q) == a.entries(q));
        assert(b4.entries(q) == a.entries(q));
    }
}

/// The new leaves of a split share the live entries of the full leaf and the new entry between
/// them, none is lost and none comes up twice: they hold clones of them, in ascending order, and no
/// removed ones. If there are two, the smaller half of the live entries goes to the low-key leaf,
/// and the new entry joins those that it stands among. `low` and `high` are the entries of the new
/// leaves; `high` is empty if there is one only.
pub proof fn law_split_shares<K: Ord + Clone, V: Clone>(
    m: NodeModel<K>,
    a: ArenaModel<K, V>,
    k: K,
    v: V,
    bound: Option<K>,
    full: usize,
    r: Result<(), InsertError<K, V>>,
    m2: NodeModel<K>,
    a2: ArenaModel<K, V>,
    low: Seq<Entry<K, V>>,
    high: Seq<Entry<K, V>>,
)
    requires
        key_laws::<K>(),
        a.wf(),
        m.wf(a),
        m.new_leaves is None,
        m.handle(bound) == LeafPtr::At(full),
        forall|i: int|
            0 <= i < a.entries(full).len() && !(#[trigger] a.entries(full)[i]).removed ==> !same(
                a.entries(full)[i].key,
                k,
            ),
        splits(m, a, k, v, bound, full, r, m2, a2),
        low == a2.entries(a.next as usize),
        high == if 2 * a.entries(full).filter(|e: Entry<K, V>| !e.removed).len() <= ARRAY_SIZE {
            Seq::empty()
        } else {
            a2.entries((a.next + 1) as usize)
        },
    ensures
        ({
            let s = a.entries(full);
            let f = s.filter(|e: Entry<K, V>| !e.removed);
            let half = ARRAY_SIZE as int / 2;
            &&& low.len() + high.len() == f.len() + 1
            &&& f.len() > half ==> low.len() == if lt(k, f[half - 1].key) {
                half + 1
            } else {
                half
            }
            &&& forall|i: int| 0 <= i < low.len() ==> !(#[trigger] low[i]).removed
            &&& forall|i: int| 0 <= i < high.len() ==> !(#[trigger] high[i]).removed
            &&& forall|i: int, j: int|
                0 <= i < j < low.len() ==> lt((#[trigger] low[i]).key, (#[trigger] low[j]).key)
            &&& forall|i: int, j: int|
                0 <= i < j < high.len() ==> lt((#[trigger] high[i]).key, (#[trigger] high[j]).key)
            &&& forall|i: int, j: int|
                0 <= i < low.len() && 0 <= j < high.len() ==> lt(
                    (#[trigger] low[i]).key,
                    (#[trigger] high[j]).key,
                )
            &&& forall|i: int|
                0 <= i < s.len() && !(#[trigger] s[i]).removed ==> {
                    ||| exists|j: int|
                        0 <= j < low.len() && same((#[trigger] low[j]).key, s[i].key) && cloned(
                            s[i].value,
                            low[j].value,
                        )
                    ||| exists|j: int|
                        0 <= j < high.len() && same((#[trigger] high[j]).key, s[i].key) && cloned(
                            s[i].value,
                            high[j].value,
                        )
                }
            &&& {
                ||| exists|j: int|
                    0 <= j < low.len() && same((#[trigger] low[j]).key, k) && cloned(
                        v,
                        low[j].value,
                    )
                ||| exists|j: int|
                    0 <= j < high.len() && same((#[trigger] high[j]).key, k) && cloned(
                        v,
                        high[j].value,
                    )
            }
        }),
{
    let s = a.entries(full);
    let all = live(s);
    let half = ARRAY_SIZE as int / 2;
    let low_plan = split_low(all, k, v);
    let high_plan = split_high(all, k, v);
    lemma_handle_owned(m, bound, full);
    lemma_owns_active(m, a, full);
    assert(entries_wf(s));
    assert(!holds(s, k)) by {
        if holds(s, k) {
            let i = index_of(s, k);
            assert(key_at(s, k, i));
            assert(!s[i].removed);
        }
    }
    lemma_live_filter(s);
    lemma_split_plans(s, k, v);
    lemma_split_sizes(s, k, v);
    if all.len() <= half {
        assert(high_plan.len() == 0);
        assert(high_plan =~= high);
    }
    assert(copied(high_plan, high));
    lemma_copied_ascending(low_plan, low);
    lemma_copied_ascending(high_plan, high);
    assert forall|i: int, j: int| 0 <= i < low.len() && 0 <= j < high.len() implies lt(
        (#[trigger] low[i]).key,
        (#[trigger] high[j]).key,
    ) by {
        let max = low_plan.last().key;
        assert(key_at(low_plan, low_plan[i].key, i));
        assert(key_at(high_plan, high_plan[j].key, j));
        lemma_split_parts(s, k, v, low_plan[i].key);
        lemma_split_parts(s, k, v, high_plan[j].key);
        assert(!lt(max, low_plan[i].key) && lt(max, high_plan[j].key));
        assert(same(low_plan[i].key, low[i].key) && same(high_plan[j].key, high[j].key));
    }
    assert forall|i: int| 0 <= i < s.len() && !(#[trigger] s[i]).removed implies {
        ||| exists|j: int|
            0 <= j < low.len() && same((#[trigger] low[j]).key, s[i].key) && cloned(
                s[i].value,
                low[j].value,
            )
        ||| exists|j: int|
            0 <= j < high.len() && same((#[trigger] high[j]).key, s[i].key) && cloned(
                s[i].value,
                high[j].value,
            )
    } by {
        let x = s[i].key;
        assert(key_at(s, x, i));
        lemma_index_of(s, x, i);
        assert(!same(x, k));
        lemma_split_parts(s, k, v, x);
        if holds(low_plan, x) {
            let j = lemma_copied_entry(low_plan, low, x);
            assert(same(low[j].key, x));
        } else {
            let j = lemma_copied_entry(high_plan, high, x);
            assert(same(high[j].key, x));
        }
    }
    lemma_split_parts(s, k, v, k);
    if holds(low_plan, k) {
        let j = lemma_copied_entry(low_plan, low, k);
        assert(same(low[j].key, k));
    } else {
        let j = lemma_copied_entry(high_plan, high, k);
        assert(same(high[j].key, k));
    }
}

/// A copy of live entries in order has ascending keys.
proof fn lemma_copied_ascending<K: Ord + Clone, V: Clone>(
    p: Seq<Entry<K, V>>,
    c: Seq<Entry<K, V>>,
)
    requires
        key_laws::<K>(),
        sorted(p),
        all_live(p),
        copied(p, c),
    ensures
        forall|i: int| 0 <= i < c.len() ==> !(#[trigger] c[i]).removed,
        forall|i: int| 0 <= i < c.len() ==> same(p[i].key, (#[trigger] c[i]).key),
        forall|i: int, j: int|
            0 <= i < j < c.len() ==> lt((#[trigger] c[i]).key, (#[trigger] c[j]).key),
{
    lemma_copied_sorted(p, c);
    assert forall|i: int| 0 <= i < c.len() implies !(#[trigger] c[i]).removed by {
        assert(!p[i].removed);
    }
    assert forall|i: int, j: int| 0 <= i < j < c.len() implies lt(
        (#[trigger] c[i]).key,
        (#[trigger] c[j]).key,
    ) by {
        assert(!c[i].removed);
    }
}

/// A copy of live entries has a clone of the value under a key that is among them.
proof fn lemma_copied_entry<K: Ord + Clone, V: Clone>(
    p: Seq<Entry<K, V>>,
    c: Seq<Entry<K, V>>,
    x: K,
) -> (j: int)
    requires
        key_laws::<K>(),
        sorted(p),
        copied(p, c),
        holds(p, x),
    ensures
        0 <= j < c.len(),
        same(c[j].key, x),
        cloned(lookup(p, x)->0, c[j].value),
{
    let j = index_of(p, x);
    assert(key_at(p, x, j));
    lemma_copied_sorted(p, c);
    assert(same(p[j].key, c[j].key));
    assert(cloned(p[j].value, c[j].value));
    j
}

/// How many entries the parts of a split get.
proof fn lemma_split_sizes<K: Ord + Clone, V>(s: Seq<Entry<K, V>>, k: K, v: V)
    requires
        key_laws::<K>(),
        entries_wf(s),
        !holds(s, k),
    ensures
        ({
            let all = live(s);
            let half = ARRAY_SIZE as int / 2;
            let low = split_low(all, k, v);
            let high = split_high(all, k, v);
            &&& low.len() + high.len() == all.len() + 1
            &&& all.len() > half ==> low.len() == if lt(k, all[half - 1].key) {
                half + 1
            } else {
                half
            }
        }),
{
    let all = live(s);
    let half = ARRAY_SIZE as int / 2;
    let l = low_half(all);
    let h = high_half(all);
    assert(sorted(all) && all_live(all) && all.len() <= s.len()) by {
        lemma_live(s);
        assert forall|i: int| 0 <= i < all.len() implies !(#[trigger] all[i]).removed by {
            assert(live_at(all, i));
        }
    }
    lemma_split_plans(s, k, v);
    lemma_lookup_live(s, k);
    lemma_lookup_parts(all, l.len() as int, k);
    assert forall|i: int| 0 <= i < l.len() implies !(#[trigger] l[i]).removed by {
        assert(!all[i].removed);
    }
    assert forall|i: int| 0 <= i < h.len() implies !(#[trigger] h[i]).removed by {
        assert(!all[i + l.len()].removed);
    }
    lemma_takes_all(l, k, v);
    lemma_takes_all(h, k, v);
    lemma_seek(l, k, 0);
    if all.len() > half {
        let c = seek(l, k, 0);
        assert(l[half - 1] == all[half - 1]);
        assert(!all[half - 1].removed);
        assert(!same(all[half - 1].key, k)) by {
            if same(all[half - 1].key, k) {
                assert(key_at(all, k, half - 1));
            }
        }
        if c < half {
            if c < half - 1 {
                assert(lt(l[c].key, l[half - 1].key) || l[c].removed);
            }
        } else {
            assert(l[half - 1].removed || lt(l[half - 1].key, k));
        }
    }
}

/// Live entries that leave a slot free take a new key.
proof fn lemma_takes_all<K: Ord + Clone, V>(s: Seq<Entry<K, V>>, k: K, v: V)
    requires
        key_laws::<K>(),
        sorted(s),
        s.len() < ARRAY_SIZE,
        forall|i: int| 0 <= i < s.len() ==> !(#[trigger] s[i]).removed,
        !holds(s, k),
    ensures
        with_entry(s, k, v).len() == s.len() + 1,
{
    if s.len() > 0 {
        assert(!s[0].removed);
    }
    lemma_with_entry(s, k, v);
}

/// Replacing the handle under a bound that the node has changes that handle only.
pub proof fn law_with_handle<K: Ord + Clone>(m: NodeModel<K>, bound: Option<K>, p: LeafPtr)
    requires
        key_laws::<K>(),
        m.shape(),
        bound matches Some(b) ==> exists|i: int|
            0 <= i < m.children.len() && !(#[trigger] m.children[i]).removed && same(
                m.children[i].key,
                b,
            ),
    ensures
        ({
            let m2 = m.with_handle(bound, p);
            &&& m2.new_leaves == m.new_leaves
            &&& m2.unbounded == if bound is None {
                p
            } else {
                m.unbounded
            }
            &&& m2.children.len() == m.children.len()
            &&& forall|i: int|
                0 <= i < m.children.len() ==> #[trigger] m2.children[i] == (Entry {
                    key: m.children[i].key,
                    value: if bound is Some && !m.children[i].removed && same(
                        m.children[i].key,
                        bound->0,
                    ) {
                        p
                    } else {
                        m.children[i].value
                    },
                    removed: m.children[i].removed,
                })
        }),
{
    if let Some(b) = bound {
        let s = m.children;
        let i = choose|i: int| 0 <= i < s.len() && !(#[trigger] s[i]).removed && same(s[i].key, b);
        assert(key_at(s, b, i));
        lemma_index_of(s, b, i);
        assert forall|j: int| 0 <= j < s.len() && !(#[trigger] s[j]).removed && same(
            s[j].key,
            b,
        ) implies j == i by {
            assert(key_at(s, b, j));
            lemma_index_of(s, b, j);
        }
    }
}

/// Where the new leaves of a split stand in the node. If there is one, it takes the place of the
/// full leaf, under the same bound. If there are two, the high-key leaf takes that place, and the
/// low-key leaf gets a slot of its own, whose bound is the greatest key of the low-key leaf. All
/// other slots stay as they are.
pub proof fn law_split_places<K: Ord + Clone, V: Clone>(
    m: NodeModel<K>,
    a: ArenaModel<K, V>,
    k: K,
    v: V,
    bound: Option<K>,
    full: usize,
    m2: NodeModel<K>,
    a2: ArenaModel<K, V>,
    last: LeafPtr,
)
    requires
        key_laws::<K>(),
        a.wf(),
        m.wf(a),
        m.new_leaves is None,
        m.handle(bound) == LeafPtr::At(full),
        splits(m, a, k, v, bound, full, Ok(()), m2, a2),
        last == LeafPtr::At(
            if 2 * a.entries(full).filter(|e: Entry<K, V>| !e.removed).len() <= ARRAY_SIZE {
                a.next as usize
            } else {
                (a.next + 1) as usize
            },
        ),
    ensures
        ({
            let s = m.children;
            let few = 2 * a.entries(full).filter(|e: Entry<K, V>| !e.removed).len() <= ARRAY_SIZE;
            let low = a.next as usize;
            let kept = |e: Entry<K, LeafPtr>|
                Entry {
                    key: e.key,
                    value: if bound is Some && !e.removed && same(e.key, bound->0) {
                        last
                    } else {
                        e.value
                    },
                    removed: e.removed,
                };
            &&& m2.unbounded == if bound is None {
                last
            } else {
                m.unbounded
            }
            &&& few ==> m2.children == s.map_values(kept)
            &&& !few ==> exists|n: int, b: K|
                {
                    &&& 0 <= n <= s.len()
                    &&& same(b, a2.entries(low).last().key)
                    &&& m2.children == #[trigger] s.map_values(kept).insert(
                        n,
                        Entry { key: b, value: LeafPtr::At(low), removed: false },
                    )
                }
        }),
{
    let s = m.children;
    let t = a.entries(full);
    let all = live(t);
    let low = a.next as usize;
    let high = (a.next + 1) as usize;
    let kept = |e: Entry<K, LeafPtr>|
        Entry {
            key: e.key,
            value: if bound is Some && !e.removed && same(e.key, bound->0) {
                last
            } else {
                e.value
            },
            removed: e.removed,
        };
    lemma_handle_owned(m, bound, full);
    lemma_owns_active(m, a, full);
    assert(entries_wf(t));
    lemma_live_filter(t);
    lemma_split_plans(t, k, v);
    if let Some(x) = bound {
        let i = index_of(s, x);
        assert(key_at(s, x, i));
        assert(!s[i].removed);
    }
    if 2 * all.len() <= ARRAY_SIZE {
        law_with_handle(m, bound, last);
        assert(m2.children =~= s.map_values(kept));
    } else {
        let plan = split_low(all, k, v);
        lemma_copied_live(plan, a2.entries(low));
        let max = a2.entries(low).last().key;
        let b = choose|b: K| cloned(max, b) && m2 == #[trigger] two_leaves(m, bound, b, low, high);
        assert(same(max, b) && same(plan.last().key, max));
        lemma_accepts_same(s, plan.last().key, max);
        lemma_accepts_same(s, max, b);
        law_leaf_insert(s, b, LeafPtr::At(low));
        lemma_with_entry(s, b, LeafPtr::At(low));
        let e = Entry { key: b, value: LeafPtr::At(low), removed: false };
        let n = seek_after(s, b, 0);
        let m1 = NodeModel { children: s.insert(n, e), ..m };
        assert(m1.children == with_entry(s, b, LeafPtr::At(low)));
        if let Some(x) = bound {
            let i = index_of(s, x);
            let j = if i < n {
                i
            } else {
                i + 1
            };
            assert(m1.children[j] == s[i]);
            assert(!same(b, x)) by {
                assert(!same(s[i].key, b));
            }
        }
        law_with_handle(m1, bound, last);
        assert(m2.children =~= s.map_values(kept).insert(n, e));
    }
}

/// What an insertion answers. A key without a leaf has to be tried again, and so has one whose leaf
/// is full while the node is locked or a split is under way; nothing changes then. A key that is
/// taken is refused, and nothing changes. A leaf with room takes the entry, whatever was removed
/// from it before and whoever holds the lock. If the leaf is full and the node is not locked, the
/// answer is never to try again: the entry is taken if one new leaf is enough or if the array of
/// leaves has room for another bound, and the node is full otherwise.
pub proof fn law_insert_answer<K: Ord + Clone, V: Clone>(
    m: NodeModel<K>,
    a: ArenaModel<K, V>,
    k: K,
    v: V,
    r: Result<(), InsertError<K, V>>,
    m2: NodeModel<K>,
    a2: ArenaModel<K, V>,
    p: usize,
)
    requires
        key_laws::<K>(),
        a.wf(),
        a2.wf(),
        m.wf(a),
        inserts(m, a, k, v, r, m2, a2),
    ensures
        m.slot(k) is Null ==> {
            &&& r == Err::<(), InsertError<K, V>>(InsertError::Retry((k, v)))
            &&& m2 == m
            &&& a2 == a
        },
        m.slot(k) == LeafPtr::At(p) && (exists|i: int|
            0 <= i < a.entries(p).len() && !(#[trigger] a.entries(p)[i]).removed && same(
                a.entries(p)[i].key,
                k,
            )) ==> {
            &&& r == Err::<(), InsertError<K, V>>(InsertError::Duplicated((k, v)))
            &&& m2 == m
            &&& a2 == a
        },
        m.slot(k) == LeafPtr::At(p) && (forall|i: int|
            0 <= i < a.entries(p).len() && !(#[trigger] a.entries(p)[i]).removed ==> !same(
                a.entries(p)[i].key,
                k,
            )) ==> {
            let s = a.entries(p);
            let c = m.children;
            let n = s.filter(|e: Entry<K, V>| !e.removed).len();
            let room = s.len() < ARRAY_SIZE && (s.len() == 0 || exists|i: int|
                0 <= i < s.len() && !(#[trigger] s[i]).removed);
            let spare = c.len() < ARRAY_SIZE && (c.len() == 0 || exists|i: int|
                0 <= i < c.len() && !(#[trigger] c[i]).removed);
            &&& room ==> {
                &&& r == Ok::<(), InsertError<K, V>>(())
                &&& m2 == m
                &&& a2 == a.with_entries(p, a2.entries(p))
                &&& exists|i: int|
                    0 <= i <= s.len() && a2.entries(p) == #[trigger] s.insert(
                        i,
                        Entry { key: k, value: v, removed: false },
                    )
            }
            &&& !room && m.new_leaves is Some ==> {
                &&& r == Err::<(), InsertError<K, V>>(InsertError::Retry((k, v)))
                &&& m2 == m
                &&& a2 == a
            }
            &&& !room && m.new_leaves is None ==> {
                &&& r == Ok::<(), InsertError<K, V>>(()) || r == Err::<(), InsertError<K, V>>(
                    InsertError::Full((k, v)),
                )
                &&& 2 * n <= ARRAY_SIZE ==> r is Ok
                &&& 2 * n > ARRAY_SIZE && !spare ==> r is Err
                &&& m.keys_in_place(a) && spare ==> r is Ok
                &&& r is Ok ==> m2.new_leaves is None
                &&& r is Ok ==> !a2.active(p)
                &&& r is Err ==> a2.active(p)
            }
        },
{
    lemma_slot_owned(m, a, k);
    if m.slot(k) == LeafPtr::At(p) {
        let s = a.entries(p);
        assert(entries_wf(s));
        law_leaf_insert(s, k, v);
        if !accepts(s, k) && !holds(s, k) {
            let bound = choose|bound: Option<K>|
                bound_cloned(m.bound(k), bound) && #[trigger] splits(
                    m,
                    a,
                    k,
                    v,
                    bound,
                    p,
                    r,
                    m2,
                    a2,
                );
            lemma_bound_held(m, k);
            lemma_cloned_alike(m.bound(k), bound);
            lemma_handle_alike(m, m.bound(k), bound);
            law_split_answer(m, a, k, v, bound, p, r, m2, a2);
            if m.new_leaves is None {
                lemma_live_filter(s);
                lemma_split_plans(s, k, v);
                if m.keys_in_place(a) && 2 * live(s).len() > ARRAY_SIZE {
                    let plan = split_low(live(s), k, v);
                    let low = a2.entries(a.next as usize);
                    let max = low.last().key;
                    lemma_copied_live(plan, low);
                    assert(same(plan.last().key, max));
                    lemma_new_bound(m, a, k, v, p, max);
                }
            }
        }
    }
}

/// The bound of the low-key leaf is one that the node does not have.
proof fn lemma_new_bound<K: Ord + Clone, V>(
    m: NodeModel<K>,
    a: ArenaModel<K, V>,
    k: K,
    v: V,
    full: usize,
    max: K,
)
    requires
        key_laws::<K>(),
        m.wf(a),
        m.keys_in_place(a),
        m.slot(k) == LeafPtr::At(full),
        entries_wf(a.entries(full)),
        !holds(a.entries(full), k),
        2 * live(a.entries(full)).len() > ARRAY_SIZE,
        same(max, split_low(live(a.entries(full)), k, v).last().key),
    ensures
        forall|i: int|
            0 <= i < m.children.len() && !(#[trigger] m.children[i]).removed ==> !same(
                m.children[i].key,
                max,
            ),
{
    let s = a.entries(full);
    let high_plan = split_high(live(s), k, v);
    lemma_slot_owned(m, a, k);
    lemma_split_plans(s, k, v);
    lemma_split_bound(m, a, k, v, full, max);
    assert forall|i: int| 0 <= i < m.children.len() && !(
    #[trigger] m.children[i]).removed implies !same(m.children[i].key, max) by {
        if same(m.children[i].key, max) {
            assert(key_at(m.children, max, i));
            lemma_own_bound(m, max);
            // A key of the high-key leaf is beyond that bound, but belonged to the full leaf.
            let t = high_plan.len() - 1;
            let y = high_plan[t].key;
            assert(!high_plan[t].removed);
            assert(key_at(high_plan, y, t));
            assert(holds(high_plan, y));
            lemma_split_parts(s, k, v, y);
            if !same(y, k) {
                assert(lookup(high_plan, y) is Some);
                assert(holds(s, y));
                lemma_leaf_bound(m, y, k, full);
            } else {
                lemma_slot_same(m, y, k);
            }
            lemma_bound_held(m, y);
            assert(false);
        }
    }
}

/// What taking out an obsolete leaf answers. It has to be tried again exactly if the node is
/// locked, if a split is under way, or if the key belongs to another leaf by now; nothing changes
/// then. Otherwise the bound that was handed over, and no other, is removed from the array, and the
/// leaf is let go of and discarded; without such a bound nothing changes. The parent is asked to
/// merge the node exactly if there was a bound once and no live one is left.
pub proof fn law_obsolete_leaf_answer<K: Ord + Clone, V>(
    m: NodeModel<K>,
    a: ArenaModel<K, V>,
    removed: bool,
    k: K,
    bound: Option<K>,
    leaf: usize,
    r: Result<bool, RemoveError>,
    m2: NodeModel<K>,
    a2: ArenaModel<K, V>,
)
    requires
        key_laws::<K>(),
        a.wf(),
        m.wf(a),
        (r, m2, a2) == obsolete_leaf_outcome(m, a, removed, k, bound, leaf),
    ensures
        m.new_leaves is Some || m.slot(k) != LeafPtr::At(leaf) ==> {
            &&& r == Err::<bool, RemoveError>(RemoveError::Retry(removed))
            &&& m2 == m
            &&& a2 == a
        },
        m.new_leaves is None && m.slot(k) == LeafPtr::At(leaf) ==> {
            &&& (exists|i: int| 0 <= i < m2.children.len() && !(#[trigger] m2.children[i]).removed)
                ==> r == Ok::<bool, RemoveError>(removed)
            &&& m2.children.len() == 0 ==> r == Ok::<bool, RemoveError>(removed)
            &&& m2.children.len() > 0 && (forall|i: int|
                0 <= i < m2.children.len() ==> (#[trigger] m2.children[i]).removed) ==> r
                == Err::<bool, RemoveError>(RemoveError::Coalesce(removed))
            &&& bound is None ==> m2 == m && a2 == a
            &&& bound matches Some(b) ==> {
                &&& m2.new_leaves is None
                &&& m2.children.len() == m.children.len()
                &&& forall|i: int|
                    #![trigger m2.children[i]]
                    0 <= i < m.children.len() ==> {
                        &&& m2.children[i].key == m.children[i].key
                        &&& m2.children[i].removed == (m.children[i].removed || same(
                            m.children[i].key,
                            b,
                        ))
                        &&& !m.children[i].removed && m.children[i].value != LeafPtr::At(leaf)
                            ==> m2.children[i].value == m.children[i].value
                    }
                &&& m.unbounded != LeafPtr::At(leaf) ==> m2.unbounded == m.unbounded
                &&& !m2.owns(LeafPtr::At(leaf))
                &&& a2.cells.dom() == a.cells.dom()
                &&& forall|q: usize| #[trigger] a2.entries(q) == a.entries(q)
                &&& forall|q: usize| #[trigger] a2.active(q) <==> a.active(q) && q != leaf
            }
        },
{
    if m.new_leaves is None && m.slot(k) == LeafPtr::At(leaf) {
        if let Some(b) = bound {
            let own = m.bound(k);
            let n = m.with_handle(own, LeafPtr::Null);
            lemma_bound_held(m, k);
            lemma_slot_owned(m, a, k);
            lemma_handle_owned(m, own, leaf);
            lemma_replace_handle(m, a, own, LeafPtr::Null);
            lemma_remove_child(n, a, b);
            law_leaf_remove(n.children, b);
            lemma_discarded(a, leaf);
            if let Some(x) = own {
                let i = index_of(m.children, x);
                assert(key_at(m.children, x, i));
                assert(m.children[i].value == LeafPtr::At(leaf));
            }
            assert(m2 == (NodeModel { children: without_key(n.children, b), ..n }));
        }
    }
}

/// What checking a full leaf answers: the removal has to be tried again exactly if the node is
/// locked, if a split is under way, or if the key belongs to another leaf by now.
pub proof fn law_check_full_leaf<K: Ord + Clone>(
    m: NodeModel<K>,
    removed: bool,
    k: K,
    leaf: usize,
)
    ensures
        m.new_leaves is Some || m.slot(k) != LeafPtr::At(leaf) ==> full_leaf_outcome(
            m,
            removed,
            k,
            leaf,
        ) == Err::<bool, RemoveError>(RemoveError::Retry(removed)),
        m.new_leaves is None && m.slot(k) == LeafPtr::At(leaf) ==> full_leaf_outcome(
            m,
            removed,
            k,
            leaf,
        ) == Ok::<bool, RemoveError>(removed),
{
}

/// What a removal answers. A key without a leaf has to be tried again, and nothing changes. In the
/// leaf of the key the entry with the key is marked, and nothing else; the answer says whether
/// there was one. While the leaf has a free slot and a live entry, or is empty, that is all. A leaf
/// without a free slot or without a live entry has to be looked at again while the node is locked
/// or a split is under way. If it has a live entry, or is the unbounded one, it stays in the node;
/// otherwise its bound is removed, and the leaf is discarded. The parent is asked to merge the node
/// only if the leaf has no live entry and the node has no live bound left of those that it had; if
/// it has one left, or never had one, the removal is done.
pub proof fn law_remove_answer<K: Ord + Clone, V>(
    m: NodeModel<K>,
    a: ArenaModel<K, V>,
    k: K,
    r: Result<bool, RemoveError>,
    m2: NodeModel<K>,
    a2: ArenaModel<K, V>,
    p: usize,
    removed: bool,
)
    requires
        key_laws::<K>(),
        a.wf(),
        m.wf(a),
        (r, m2, a2) == remove_outcome(m, a, k),
        removed <==> m.slot(k) == LeafPtr::At(p) && exists|i: int|
            0 <= i < a.entries(p).len() && !(#[trigger] a.entries(p)[i]).removed && same(
                a.entries(p)[i].key,
                k,
            ),
    ensures
        m.slot(k) is Null ==> {
            &&& r == Err::<bool, RemoveError>(RemoveError::Retry(false))
            &&& m2 == m
            &&& a2 == a
        },
        m.slot(k) == LeafPtr::At(p) ==> {
            let s = a.entries(p);
            let t = a2.entries(p);
            &&& t.len() == s.len()
            &&& forall|i: int|
                #![trigger t[i]]
                0 <= i < s.len() ==> {
                    &&& t[i].key == s[i].key
                    &&& t[i].value == s[i].value
                    &&& t[i].removed == (s[i].removed || same(s[i].key, k))
                }
            &&& forall|q: usize| q != p ==> #[trigger] a2.entries(q) == a.entries(q)
            &&& a2.cells.dom() == a.cells.dom()
            &&& a2.next == a.next
        },
        m.slot(k) == LeafPtr::At(p) && (a2.entries(p).len() == 0 || exists|i: int|
            0 <= i < a2.entries(p).len() && !(#[trigger] a2.entries(p)[i]).removed) ==> {
            &&& m2 == m
            &&& a2 == a.with_entries(p, a2.entries(p))
            &&& a.entries(p).len() < ARRAY_SIZE || m.new_leaves is None ==> r == Ok::<
                bool,
                RemoveError,
            >(removed)
            &&& a.entries(p).len() == ARRAY_SIZE && m.new_leaves is Some ==> r == Err::<
                bool,
                RemoveError,
            >(RemoveError::Retry(removed))
        },
        m.slot(k) == LeafPtr::At(p) && a2.entries(p).len() > 0 && (forall|i: int|
            0 <= i < a2.entries(p).len() ==> (#[trigger] a2.entries(p)[i]).removed) ==> {
            &&& m.new_leaves is Some ==> {
                &&& r == Err::<bool, RemoveError>(RemoveError::Retry(removed))
                &&& m2 == m
                &&& a2 == a.with_entries(p, a2.entries(p))
            }
            &&& m.new_leaves is None ==> {
                &&& (exists|i: int|
                    0 <= i < m2.children.len() && !(#[trigger] m2.children[i]).removed) ==> r
                    == Ok::<bool, RemoveError>(removed)
                &&& m2.children.len() == 0 ==> r == Ok::<bool, RemoveError>(removed)
                &&& m2.children.len() > 0 && (forall|i: int|
                    0 <= i < m2.children.len() ==> (#[trigger] m2.children[i]).removed) ==> r
                    == Err::<bool, RemoveError>(RemoveError::Coalesce(removed))
                &&& m2.children.len() == m.children.len()
                &&& m2.unbounded == m.unbounded
                &&& m2.new_leaves is None
                &&& forall|i: int|
                    #![trigger m2.children[i]]
                    0 <= i < m.children.len() ==> {
                        &&& m2.children[i].key == m.children[i].key
                        &&& m2.children[i].removed == (m.children[i].removed
                            || m.children[i].value == LeafPtr::At(p))
                        &&& !m2.children[i].removed ==> m2.children[i].value == m.children[i].value
                    }
                &&& forall|q: usize| #[trigger]
                    a2.active(q) <==> a.active(q) && (q != p || m.unbounded == LeafPtr::At(p))
            }
        },
{
    lemma_slot_owned(m, a, k);
    if m.slot(k) == LeafPtr::At(p) {
        let s = a.entries(p);
        let t = without_key(s, k);
        let a1 = a.with_entries(p, t);
        assert(entries_wf(s));
        law_leaf_remove(s, k);
        law_leaf_insert(s, k, s[0].value);
        law_leaf_insert(t, k, s[0].value);
        lemma_without_key(s, k);
        lemma_with_entries(a, p, t);
        assert(a1.cells.dom() =~= a.cells.dom());
        lemma_wf_in(m, a, a1);
        lemma_links_only(a1, p, p);
        if is_obsolete(t) {
            law_obsolete_leaf_answer(m, a1, removed, k, m.bound(k), p, r, m2, a2);
            lemma_bound_held(m, k);
            let c = m.children;
            let own = m.bound(k);
            assert forall|i: int| 0 <= i < c.len() && !(#[trigger] c[i]).removed implies (
            c[i].value == LeafPtr::At(p) <==> own is Some && same(c[i].key, own->0)) by {
                assert(live_at(c, i));
                if let Some(b) = own {
                    let j = index_of(c, b);
                    assert(key_at(c, b, j));
                    assert(c[j].value == LeafPtr::At(p));
                    if same(c[i].key, b) {
                        assert(key_at(c, b, i));
                        lemma_index_of(c, b, i);
                    }
                } else {
                    assert(m.unbounded == LeafPtr::At(p));
                }
            }
        }
    }
}

/// A key that was removed can be inserted again: in a node that has all of its leaves and is not
/// locked, the insertion that follows the removal succeeds or finds the node full, and is never to
/// be tried again or refused. If it succeeds, the new value is found, or a clone of it.
pub proof fn law_remove_insert<K: Ord + Clone, V: Clone>(
    m: NodeModel<K>,
    a: ArenaModel<K, V>,
    k: K,
    v: V,
    removal: Result<bool, RemoveError>,
    m2: NodeModel<K>,
    a2: ArenaModel<K, V>,
    r: Result<(), InsertError<K, V>>,
    m3: NodeModel<K>,
    a3: ArenaModel<K, V>,
)
    requires
        key_laws::<K>(),
        a.wf(),
        a2.wf(),
        a3.wf(),
        m.wf(a),
        m2.wf(a2),
        m.keys_in_place(a),
        m.new_leaves is None,
        m.unbounded is At,
        forall|i: int|
            0 <= i < m.children.len() && !(#[trigger] m.children[i]).removed
                ==> m.children[i].value is At,
        (removal, m2, a2) == remove_outcome(m, a, k),
        inserts(m2, a2, k, v, r, m3, a3),
    ensures
        r == Ok::<(), InsertError<K, V>>(()) || r == Err::<(), InsertError<K, V>>(
            InsertError::Full((k, v)),
        ),
        r is Ok ==> m3.found(a3, k) is Some && cloned(v, m3.found(a3, k)->0),
        r is Err ==> m3.found(a3, k) is None,
        !(removal matches Err(RemoveError::Retry(_))),
{
    assert forall|x: K| #[trigger] m.slot(x) is At by {
        lemma_seek(m.children, x, 0);
    }
    lemma_remove_complete(m, a, k);
    law_remove(m, a, k);
    let q = m.slot(k)->At_0;
    let removed = holds(a.entries(q), k);
    lemma_slot_owned(m, a, k);
    law_leaf_insert(a.entries(q), k, v);
    law_remove_answer(m, a, k, removal, m2, a2, q, removed);
    let p = m2.slot(k)->At_0;
    assert(!m2.contents(a2).dom().contains(k)) by {
        assert(same(k, k));
        assert(class(k).contains(k));
    }
    assert(m2.found(a2, k) is None);
    lemma_slot_owned(m2, a2, k);
    law_leaf_insert(a2.entries(p), k, v);
    law_insert_answer(m2, a2, k, v, r, m3, a3, p);
    law_insert(m2, a2, k, v, r, m3, a3);
    if r is Ok {
        assert(same(k, k));
        assert(m3.contents(a3).dom().contains(k)) by {
            assert(class(k).contains(k));
        }
    } else {
        assert(!m3.contents(a3).dom().contains(k));
    }
}

/// What a merge answers. It fails, and changes nothing, if one of the nodes is locked or has a
/// split under way. Otherwise it succeeds if the last leaf `p` of the left node has lost all of its
/// entries: that leaf is discarded, and the right node stays as it was. It also succeeds if the
/// array of the right node has a free slot, has not lost all of its bounds, and has no live bound
/// that is the key: the leaf becomes one of the right node, under that bound. In both cases the
/// left node has lost its last leaf. In no other case does it succeed, and then nothing changes.
pub proof fn law_merge_answer<K: Ord + Clone, V>(
    m: NodeModel<K>,
    prev: NodeModel<K>,
    a: ArenaModel<K, V>,
    k: K,
    b: K,
    merged: bool,
    m2: NodeModel<K>,
    prev2: NodeModel<K>,
    a2: ArenaModel<K, V>,
    p: usize,
)
    requires
        key_laws::<K>(),
        cloned(k, b),
        a.wf(),
        m.wf(a),
        prev.wf(a),
        m.new_leaves is None && prev.new_leaves is None ==> prev.unbounded == LeafPtr::At(p),
        (merged, m2, prev2, a2) == merge_outcome(m, prev, a, k, b),
    ensures
        !merged ==> m2 == m && prev2 == prev && a2 == a,
        merged ==> prev2 == (NodeModel { unbounded: LeafPtr::Null, ..prev }),
        m.new_leaves is Some || prev.new_leaves is Some ==> !merged,
        m.new_leaves is None && prev.new_leaves is None && a.entries(p).len() > 0 && (forall|i: int|
            0 <= i < a.entries(p).len() ==> (#[trigger] a.entries(p)[i]).removed) ==> {
            &&& merged
            &&& m2 == m
            &&& forall|q: usize| #[trigger] a2.entries(q) == a.entries(q)
            &&& forall|q: usize| #[trigger] a2.active(q) <==> a.active(q) && q != p
        },
        m.new_leaves is None && prev.new_leaves is None && (a.entries(p).len() == 0 || exists|
            i: int,
        |
            0 <= i < a.entries(p).len() && !(#[trigger] a.entries(p)[i]).removed) ==> {
            let s = m.children;
            &&& merged <==> {
                &&& s.len() < ARRAY_SIZE
                &&& s.len() == 0 || exists|i: int| 0 <= i < s.len() && !(#[trigger] s[i]).removed
                &&& forall|i: int|
                    0 <= i < s.len() && !(#[trigger] s[i]).removed ==> !same(s[i].key, k)
            }
            &&& a2 == a
            &&& merged ==> {
                &&& m2.unbounded == m.unbounded
                &&& m2.new_leaves is None
                &&& m2.handle(Some(k)) == LeafPtr::At(p)
                &&& exists|n: int|
                    0 <= n <= s.len() && m2.children == #[trigger] s.insert(
                        n,
                        Entry { key: b, value: LeafPtr::At(p), removed: false },
                    )
            }
        },
{
    if m.new_leaves is None && prev.new_leaves is None {
        assert(a.active(p));
        law_leaf_insert(m.children, k, LeafPtr::At(p));
        law_leaf_insert(m.children, b, LeafPtr::At(p));
        assert(same(k, b));
        lemma_accepts_same(m.children, k, b);
        lemma_discarded(a, p);
        if merged && !is_obsolete(a.entries(p)) {
            lemma_with_entry(m.children, b, LeafPtr::At(p));
            let n = seek_after(m.children, b, 0);
            assert(key_at(m2.children, b, n));
            assert(key_at(m2.children, k, n));
            lemma_index_of(m2.children, k, n);
        }
    }
}

/// A node has lost its leaves exactly if there was a bound once and no live one is left.
pub proof fn law_obsolete<K: Ord>(m: NodeModel<K>)
    ensures
        is_obsolete(m.children) <==> m.children.len() > 0 && forall|i: int|
            0 <= i < m.children.len() ==> (#[trigger] m.children[i]).removed,
{
}

/// A node that lets go of its leaves keeps its bounds and loses the handles under them.
pub proof fn law_cleared<K>(s: Seq<Entry<K, LeafPtr>>)
    ensures
        cleared(s).len() == s.len(),
        forall|i: int|
            #![trigger cleared(s)[i]]
            0 <= i < s.len() ==> {
                &&& cleared(s)[i].key == s[i].key
                &&& cleared(s)[i].removed == s[i].removed
                &&& !s[i].removed ==> cleared(s)[i].value is Null
            },
{
}

/// A lock is given exactly if there is none and no split is under way; the node then holds a lock
/// in place of new leaves, and nothing else changes. Unlocking gives the node back as it was.
pub proof fn law_lock<K: Ord>(m: NodeModel<K>)
    ensures
        ({
            let (given, m2) = lock_outcome(m);
            &&& given <==> m.new_leaves is None
            &&& !given ==> m2 == m
            &&& given ==> {
                &&& m2.children == m.children
                &&& m2.unbounded == m.unbounded
                &&& m2.new_leaves matches Some(n) && {
                    &&& n.origin_leaf_key is None
                    &&& n.origin_leaf_ptr is Null
                    &&& n.low_key_leaf is Null
                    &&& n.high_key_leaf is Null
                }
                &&& unlocked(m2) == m
            }
            &&& unlocked(m).new_leaves is None
            &&& unlocked(m).children == m.children
            &&& unlocked(m).unbounded == m.unbounded
        }),
{
}

} // verus!
