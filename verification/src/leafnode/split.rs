//! Splitting a full leaf.
use crate::arena::{
    lemma_allocated, lemma_discarded, lemma_linked_before, ArenaModel, LeafArena, LeafPtr,
};
use crate::error::InsertError;
use crate::leaf::{
    accepts, all_live, copied, entries_wf, high_half, holds, index_of, key_at, lemma_copied_sorted,
    lemma_copied_with_entry, lemma_live, lemma_live_all, lemma_lookup_same, lemma_with_entry, live,
    live_at, low_half, seek, sorted, with_entry, Entry, Leaf, ARRAY_SIZE,
};
use crate::leafnode::model::{
    lemma_add_child, lemma_owns_active, lemma_replace_handle, lemma_same_leaves, lemma_wf_in,
    NodeModel,
};
use crate::leafnode::routing::lemma_seek_same;
use crate::leafnode::{clone_bound, LeafNode, NewLeaves};
use crate::order::{key_laws, lt, same};
use vstd::prelude::*;

verus! {

/// The new entry goes to the low-key leaf: there is no high-key leaf, or a low key is not less
/// than the new one.
pub open spec fn goes_low<K: Ord, V>(all: Seq<Entry<K, V>>, k: K) -> bool {
    all.len() <= ARRAY_SIZE / 2 || seek(low_half(all), k, 0) < low_half(all).len()
}

/// What the low-key leaf gets of the live entries of a full leaf and a new entry.
pub open spec fn split_low<K: Ord, V>(all: Seq<Entry<K, V>>, k: K, v: V) -> Seq<Entry<K, V>> {
    if goes_low(all, k) {
        with_entry(low_half(all), k, v)
    } else {
        low_half(all)
    }
}

/// What the high-key leaf gets; nothing if there is none.
pub open spec fn split_high<K: Ord, V>(all: Seq<Entry<K, V>>, k: K, v: V) -> Seq<Entry<K, V>> {
    if goes_low(all, k) {
        high_half(all)
    } else {
        with_entry(high_half(all), k, v)
    }
}

/// The node after two leaves took the place of one: the low-key leaf under the bound `max`, the
/// high-key leaf under the bound of the full one.
pub open spec fn two_leaves<K: Ord>(
    m: NodeModel<K>,
    bound: Option<K>,
    max: K,
    low: usize,
    high: usize,
) -> NodeModel<K> {
    NodeModel { children: with_entry(m.children, max, LeafPtr::At(low)), ..m }.with_handle(
        bound,
        LeafPtr::At(high),
    )
}

/// A split of the leaf `full`, which stands under `bound`, for the sake of the entry `(k, v)`
/// leads from the node `m` and the arena `a` to `m2` and `a2` with the result `r`.
///
/// The split is not begun if another one is under way or if the leaf was replaced. The new leaves
/// stand in the list where the full leaf stood. They hold clones of its live entries and of the
/// new entry. If there are two, the low-key leaf gets a clone of its greatest key for a bound; if
/// the array has no room for another leaf, they wait outside the node and the node stays locked.
pub open spec fn splits<K: Ord + Clone, V: Clone>(
    m: NodeModel<K>,
    a: ArenaModel<K, V>,
    k: K,
    v: V,
    bound: Option<K>,
    full: usize,
    r: Result<(), InsertError<K, V>>,
    m2: NodeModel<K>,
    a2: ArenaModel<K, V>,
) -> bool {
    if m.new_leaves is Some || m.handle(bound) != LeafPtr::At(full) {
        &&& r == Err::<(), InsertError<K, V>>(InsertError::Retry((k, v)))
        &&& m2 == m
        &&& a2 == a
    } else {
        let all = live(a.entries(full));
        let low_plan = split_low(all, k, v);
        let high_plan = split_high(all, k, v);
        let low = a.next as usize;
        let low_entries = a2.entries(low);
        &&& copied(low_plan, low_entries)
        &&& if high_plan.len() == 0 {
            &&& r == Ok::<(), InsertError<K, V>>(())
            &&& m2 == m.with_handle(bound, LeafPtr::At(low))
            &&& a2 == a.allocated(low_entries).linked_before(full, low).discarded(full)
        } else {
            let high = (a.next + 1) as usize;
            let high_entries = a2.entries(high);
            let linked = a.allocated(low_entries).allocated(high_entries).linked_before(
                full,
                low,
            ).linked_before(full, high);
            let max = low_plan.last().key;
            &&& copied(high_plan, high_entries)
            &&& if accepts(m.children, max) {
                &&& r == Ok::<(), InsertError<K, V>>(())
                &&& exists|b: K|
                    cloned(low_entries.last().key, b) && m2 == #[trigger] two_leaves(
                        m,
                        bound,
                        b,
                        low,
                        high,
                    )
                &&& a2 == linked.discarded(full)
            } else {
                &&& r == Err::<(), InsertError<K, V>>(InsertError::Full((k, v)))
                &&& m2 == (NodeModel {
                    new_leaves: Some(
                        NewLeaves {
                            origin_leaf_key: bound,
                            origin_leaf_ptr: LeafPtr::At(full),
                            low_key_leaf: LeafPtr::At(low),
                            high_key_leaf: LeafPtr::At(high),
                        },
                    ),
                    ..m
                })
                &&& a2 == linked
            }
        }
    }
}

/// The parts of a split are in order and have no removed entries.
pub proof fn lemma_split_plans<K: Ord + Clone, V>(s: Seq<Entry<K, V>>, k: K, v: V)
    requires
        key_laws::<K>(),
        sorted(s),
        s.len() <= ARRAY_SIZE,
    ensures
        ({
            let all = live(s);
            let low = split_low(all, k, v);
            let high = split_high(all, k, v);
            &&& sorted(low_half(all))
            &&& sorted(high_half(all))
            &&& sorted(low)
            &&& sorted(high)
            &&& 0 < low.len() <= ARRAY_SIZE
            &&& high.len() <= ARRAY_SIZE
            &&& high.len() == 0 <==> all.len() <= ARRAY_SIZE / 2
            &&& all_live(low)
            &&& all_live(high)
        }),
{
    let all = live(s);
    lemma_live(s);
    let l = low_half(all);
    let h = high_half(all);
    let n = l.len();
    assert(h.len() == all.len() - n);
    assert(h.len() <= ARRAY_SIZE / 2);
    assert(all_live(l)) by {
        assert forall|i: int| 0 <= i < l.len() implies !(#[trigger] l[i]).removed by {
            assert(live_at(all, i));
        }
    }
    assert(all_live(h)) by {
        assert forall|i: int| 0 <= i < h.len() implies !(#[trigger] h[i]).removed by {
            assert(live_at(all, i + n));
        }
    }
    assert(sorted(l)) by {
        assert forall|i: int, j: int| 0 <= i < j < l.len() implies lt(
            (#[trigger] l[i]).key,
            (#[trigger] l[j]).key,
        ) || (same(l[i].key, l[j].key) && l[i].removed) by {
            assert(l[i] == all[i] && l[j] == all[j]);
        }
    }
    assert(sorted(h)) by {
        assert forall|i: int, j: int| 0 <= i < j < h.len() implies lt(
            (#[trigger] h[i]).key,
            (#[trigger] h[j]).key,
        ) || (same(h[i].key, h[j].key) && h[i].removed) by {
            assert(h[i] == all[i + n] && h[j] == all[j + n]);
        }
    }
    lemma_with_entry_live(l, k, v);
    lemma_with_entry_live(h, k, v);
}

/// An entry that is added to an array without removed entries leaves it so.
proof fn lemma_with_entry_live<K: Ord + Clone, V>(s: Seq<Entry<K, V>>, k: K, v: V)
    requires
        key_laws::<K>(),
        sorted(s),
        s.len() < ARRAY_SIZE,
        all_live(s),
    ensures
        ({
            let t = with_entry(s, k, v);
            &&& sorted(t)
            &&& 0 < t.len() <= ARRAY_SIZE
            &&& t.len() <= s.len() + 1
            &&& all_live(t)
        }),
{
    lemma_with_entry(s, k, v);
    if s.len() == 0 {
        assert(!holds(s, k));
    } else {
        assert(!s[0].removed);
    }
}

/// Copies the live entries of a full leaf and a new entry into one or two new leaves.
pub fn divide<K: Clone + Ord, V: Clone>(leaf: &Leaf<K, V>, key: &K, value: &V) -> (r: (
    Leaf<K, V>,
    Option<Leaf<K, V>>,
))
    requires
        key_laws::<K>(),
        leaf.wf(),
    ensures
        ({
            let all = live(leaf@);
            &&& r.0.wf()
            &&& copied(split_low(all, *key, *value), r.0@)
            &&& r.1 is Some <==> split_high(all, *key, *value).len() > 0
            &&& r.1 matches Some(high) ==> high.wf() && copied(
                split_high(all, *key, *value),
                high@,
            )
        }),
{
    let ghost all = live(leaf@);
    let new_key = key.clone();
    let new_value = value.clone();
    proof {
        assert(cloned(*key, new_key));
        assert(cloned(*value, new_value));
        lemma_split_plans(leaf@, *key, *value);
    }
    let (low_part, high_part) = leaf.distribute();
    match (low_part, high_part) {
        (Some(mut low), Some(mut high)) => {
            proof {
                lemma_copied_with_entry(
                    low_half(all),
                    low@,
                    *key,
                    *value,
                    new_key,
                    new_value,
                );
                lemma_copied_with_entry(
                    high_half(all),
                    high@,
                    *key,
                    *value,
                    new_key,
                    new_value,
                );
                lemma_copied_sorted(low_half(all), low@);
                lemma_seek_same(low_half(all), low@, *key, 0);
            }
            let fits_low = low.min_greater_equal(key).0.is_some();
            if fits_low {
                low.insert(new_key, new_value);
            } else {
                high.insert(new_key, new_value);
            }
            (low, Some(high))
        },
        (Some(mut low), None) => {
            proof {
                lemma_copied_with_entry(
                    low_half(all),
                    low@,
                    *key,
                    *value,
                    new_key,
                    new_value,
                );
            }
            low.insert(new_key, new_value);
            (low, None)
        },
        (None, _) => {
            let mut low = Leaf::new();
            proof {
                assert(low_half(all) =~= Seq::empty());
                lemma_copied_with_entry(
                    low_half(all),
                    low@,
                    *key,
                    *value,
                    new_key,
                    new_value,
                );
            }
            low.insert(new_key, new_value);
            (low, None)
        },
    }
}

impl<K: Clone + Ord> LeafNode<K> {
    /// Splits a full leaf that a new entry belongs to.
    pub fn split_leaf<V: Clone>(
        &mut self,
        entry: (K, V),
        full_leaf_key: Option<K>,
        full_leaf: usize,
        arena: &mut LeafArena<K, V>,
    ) -> (r: Result<(), InsertError<K, V>>)
        requires
            key_laws::<K>(),
            old(arena).wf(),
            old(self)@.wf(old(arena)@),
        ensures
            final(arena).wf(),
            final(self)@.wf(final(arena)@),
            final(self).spec_id() == old(self).spec_id(),
            old(self)@.pending_wf(old(arena)@) ==> final(self)@.pending_wf(final(arena)@),
            splits(
                old(self)@,
                old(arena)@,
                entry.0,
                entry.1,
                full_leaf_key,
                full_leaf,
                r,
                final(self)@,
                final(arena)@,
            ),
    {
        if self.new_leaves.is_some() {
            return Err(InsertError::Retry(entry));
        }
        let ghost m = self@;
        let origin_leaf_ptr = self.handle(&full_leaf_key);
        self.new_leaves = Some(
            NewLeaves {
                origin_leaf_key: clone_bound(&full_leaf_key),
                origin_leaf_ptr,
                low_key_leaf: LeafPtr::Null,
                high_key_leaf: LeafPtr::Null,
            },
        );
        // The node is locked: nobody can replace the full leaf from here on.
        if origin_leaf_ptr != LeafPtr::At(full_leaf) {
            self.new_leaves = None;
            return Err(InsertError::Retry(entry));
        }
        let ghost a0 = arena@;
        let ghost all = live(a0.entries(full_leaf));
        let ghost low_plan = split_low(all, entry.0, entry.1);
        let ghost high_plan = split_high(all, entry.0, entry.1);
        proof {
            lemma_handle_owned(m, full_leaf_key, full_leaf);
            lemma_owns_active(m, a0, full_leaf);
            lemma_split_plans(a0.entries(full_leaf), entry.0, entry.1);
        }
        let (low_leaf, high_leaf) = divide(&arena.cell(full_leaf).leaf, &entry.0, &entry.1);
        proof {
            lemma_copied_live(low_plan, low_leaf@);
        }
        let max_key = low_leaf.max().unwrap().0.clone();
        let ghost low_entries = low_leaf@;
        let ghost max = max_key;
        proof {
            assert(cloned(low_entries.last().key, max));
            assert(same(low_plan.last().key, max));
            lemma_accepts_same(m.children, low_plan.last().key, max);
        }
        let low = arena.adopt(low_leaf);
        let ghost a1 = arena@;
        proof {
            lemma_allocated_frame(m, a0, low_entries);
        }
        match high_leaf {
            None => {
                arena.push_front(full_leaf, low);
                let ghost a2 = arena@;
                proof {
                    lemma_linked_before(a1, full_leaf, low);
                    lemma_wf_in(m, a1, a2);
                    lemma_replace_handle(m, a2, full_leaf_key, LeafPtr::At(low));
                }
                self.set_handle(&full_leaf_key, LeafPtr::At(low));
                self.new_leaves = None;
                arena.discard(full_leaf);
                proof {
                    lemma_discarded(a2, full_leaf);
                    lemma_wf_in(self@, a2, arena@);
                    assert(arena@.entries(low) == low_entries);
                }
                Ok(())
            },
            Some(high_leaf) => {
                let ghost high_entries = high_leaf@;
                let high = arena.adopt(high_leaf);
                let ghost a2 = arena@;
                proof {
                    lemma_allocated_frame(m, a1, high_entries);
                }
                arena.push_front(full_leaf, low);
                let ghost a3 = arena@;
                proof {
                    lemma_linked_before(a2, full_leaf, low);
                }
                arena.push_front(full_leaf, high);
                let ghost a4 = arena@;
                proof {
                    lemma_linked_before(a3, full_leaf, high);
                    lemma_wf_in(m, a2, a4);
                    assert(a4.entries(low) == a3.entries(low));
                    assert(a4.entries(high) == a3.entries(high));
                }
                let refused = self.leaves.insert(max_key, LeafPtr::At(low)).is_some();
                if refused {
                    // The array is full: the parent is expected to split the node.
                    self.new_leaves = Some(
                        NewLeaves {
                            origin_leaf_key: full_leaf_key,
                            origin_leaf_ptr,
                            low_key_leaf: LeafPtr::At(low),
                            high_key_leaf: LeafPtr::At(high),
                        },
                    );
                    proof {
                        lemma_same_leaves(m, self@);
                    }
                    return Err(InsertError::Full(entry));
                }
                let ghost m2 = NodeModel { new_leaves: None, ..self@ };
                proof {
                    lemma_add_child(m, a4, max, low);
                    assert(m2 == (NodeModel {
                        children: with_entry(m.children, max, LeafPtr::At(low)),
                        ..m
                    }));
                    lemma_replace_handle(m2, a4, full_leaf_key, LeafPtr::At(high));
                }
                self.set_handle(&full_leaf_key, LeafPtr::At(high));
                self.new_leaves = None;
                arena.discard(full_leaf);
                proof {
                    assert(self@ == two_leaves(m, full_leaf_key, max, low, high));
                    lemma_discarded(a4, full_leaf);
                    lemma_wf_in(self@, a4, arena@);
                    assert(arena@.entries(low) == low_entries);
                    assert(arena@.entries(high) == high_entries);
                }
                Ok(())
            },
        }
    }
}

/// Values of the same key are accepted alike.
pub proof fn lemma_accepts_same<K: Ord + Clone, V>(s: Seq<Entry<K, V>>, x: K, y: K)
    requires
        key_laws::<K>(),
        sorted(s),
        same(x, y),
    ensures
        accepts(s, x) == accepts(s, y),
{
    lemma_lookup_same(s, x, y);
}

/// A handle that leads to a leaf is one that the node owns.
pub proof fn lemma_handle_owned<K: Ord + Clone>(m: NodeModel<K>, bound: Option<K>, p: usize)
    requires
        m.handle(bound) == LeafPtr::At(p),
    ensures
        m.owns(LeafPtr::At(p)),
        bound matches Some(k) ==> holds(m.children, k),
{
    if let Some(k) = bound {
        let i = index_of(m.children, k);
        assert(key_at(m.children, k, i));
        assert(live_at(m.children, i) && m.children[i].value == LeafPtr::At(p));
    }
}

/// A copy of an array without removed entries has none either, and ends with the same key.
pub proof fn lemma_copied_live<K: Ord + Clone, V: Clone>(a: Seq<Entry<K, V>>, b: Seq<Entry<K, V>>)
    requires
        copied(a, b),
        all_live(a),
        a.len() > 0,
    ensures
        live(b) == b,
        cloned(a.last().key, b.last().key),
{
    assert forall|i: int| 0 <= i < b.len() implies !(#[trigger] b[i]).removed by {
        assert(!a[i].removed);
    }
    lemma_live_all(b);
    assert(cloned(a[a.len() - 1].key, b[b.len() - 1].key));
}

/// A new leaf is owned by no node and leaves the others as they are.
proof fn lemma_allocated_frame<K: Ord, V>(
    m: NodeModel<K>,
    a: ArenaModel<K, V>,
    s: Seq<Entry<K, V>>,
)
    requires
        a.wf(),
        m.wf(a),
        a.next < usize::MAX,
        entries_wf(s),
    ensures
        m.wf(a.allocated(s)),
        a.allocated(s).active(a.next as usize),
        !m.owns(LeafPtr::At(a.next as usize)),
        forall|p: usize| #[trigger]
            a.active(p) ==> a.allocated(s).active(p) && p != a.next as usize,
        forall|p: usize| #[trigger]
            a.cells.dom().contains(p) ==> a.allocated(s).cells[p] == a.cells[p],
{
    lemma_allocated(a, s);
    lemma_wf_in(m, a, a.allocated(s));
    let p = a.next as usize;
    if m.owns(LeafPtr::At(p)) {
        lemma_owns_active(m, a, p);
    }
}

} // verus!
