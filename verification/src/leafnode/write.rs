//! Inserting and removing entries.
use crate::arena::{lemma_discarded, ArenaModel, LeafArena, LeafPtr};
use crate::error::{InsertError, RemoveError};
use crate::leaf::{
    accepts, holds, index_of, is_full, is_obsolete, key_at, lemma_index_of, lemma_lookup_same,
    sorted, with_entry, with_value, without_key, Entry,
};
use crate::leafnode::locker::LeafNodeLocker;
use crate::leafnode::model::{
    lemma_owns_active, lemma_remove_child, lemma_replace_handle, lemma_wf_in, NodeModel,
};
use crate::leafnode::read::lemma_slot;
use crate::leafnode::routing::{lemma_bound_held, lemma_cloned_alike, lemma_handle_alike};
use crate::leafnode::split::{lemma_handle_owned, splits};
use crate::leafnode::LeafNode;
use crate::order::{bound_cloned, key_laws, lt, same};
use vstd::prelude::*;

verus! {

/// Inserting `(k, v)` leads from the node `m` and the arena `a` to `m2` and `a2` with the result
/// `r`.
///
/// The leaf that the key belongs to takes the entry if it can. A key that is taken is refused. A
/// full leaf is split; a clone of its bound is noted for that.
pub open spec fn inserts<K: Ord + Clone, V: Clone>(
    m: NodeModel<K>,
    a: ArenaModel<K, V>,
    k: K,
    v: V,
    r: Result<(), InsertError<K, V>>,
    m2: NodeModel<K>,
    a2: ArenaModel<K, V>,
) -> bool {
    match m.slot(k) {
        LeafPtr::Null => {
            &&& r == Err::<(), InsertError<K, V>>(InsertError::Retry((k, v)))
            &&& m2 == m
            &&& a2 == a
        },
        LeafPtr::At(p) => {
            let s = a.entries(p);
            if accepts(s, k) {
                &&& r == Ok::<(), InsertError<K, V>>(())
                &&& m2 == m
                &&& a2 == a.with_entries(p, with_entry(s, k, v))
            } else if holds(s, k) {
                &&& r == Err::<(), InsertError<K, V>>(InsertError::Duplicated((k, v)))
                &&& m2 == m
                &&& a2 == a
            } else {
                exists|bound: Option<K>|
                    bound_cloned(m.bound(k), bound) && #[trigger] splits(
                        m,
                        a,
                        k,
                        v,
                        bound,
                        p,
                        r,
                        m2,
                        a2,
                    )
            }
        },
    }
}

/// What comes of checking a full leaf after an entry was removed from it: the removal has to be
/// repeated if a split may have copied the entry before.
pub open spec fn full_leaf_outcome<K: Ord>(
    m: NodeModel<K>,
    removed: bool,
    k: K,
    leaf: usize,
) -> Result<bool, RemoveError> {
    if m.new_leaves is Some || m.slot(k) != LeafPtr::At(leaf) {
        Err(RemoveError::Retry(removed))
    } else {
        Ok(removed)
    }
}

/// The node without the leaf that the key belongs to: its handle is gone, and so is the bound.
pub open spec fn without_leaf<K: Ord>(m: NodeModel<K>, k: K, bound: K) -> NodeModel<K> {
    let n = m.with_handle(m.bound(k), LeafPtr::Null);
    NodeModel { children: without_key(n.children, bound), ..n }
}

/// What comes of taking an obsolete leaf out of the node: the result, the node, and the arena.
///
/// A bounded leaf is taken out of the array and discarded, the unbounded one stays. If the
/// unbounded leaf is the last one, the parent is asked to merge the node.
pub open spec fn obsolete_leaf_outcome<K: Ord, V>(
    m: NodeModel<K>,
    a: ArenaModel<K, V>,
    removed: bool,
    k: K,
    bound: Option<K>,
    leaf: usize,
) -> (Result<bool, RemoveError>, NodeModel<K>, ArenaModel<K, V>) {
    if m.new_leaves is Some || m.slot(k) != LeafPtr::At(leaf) {
        (Err(RemoveError::Retry(removed)), m, a)
    } else {
        let m2 = match bound {
            Some(b) => without_leaf(m, k, b),
            None => m,
        };
        let a2 = match bound {
            Some(b) => a.discarded(leaf),
            None => a,
        };
        let r = if is_obsolete(m2.children) {
            Err(RemoveError::Coalesce(removed))
        } else {
            Ok(removed)
        };
        (r, m2, a2)
    }
}

/// What comes of removing a key: the result, the node, and the arena.
pub open spec fn remove_outcome<K: Ord, V>(m: NodeModel<K>, a: ArenaModel<K, V>, k: K) -> (
    Result<bool, RemoveError>,
    NodeModel<K>,
    ArenaModel<K, V>,
) {
    match m.slot(k) {
        LeafPtr::Null => (Err(RemoveError::Retry(false)), m, a),
        LeafPtr::At(p) => {
            let s = a.entries(p);
            let t = without_key(s, k);
            let a2 = a.with_entries(p, t);
            if !is_full(t) {
                (Ok(holds(s, k)), m, a2)
            } else if !is_obsolete(t) {
                (full_leaf_outcome(m, holds(s, k), k, p), m, a2)
            } else {
                obsolete_leaf_outcome(m, a2, holds(s, k), k, m.bound(k), p)
            }
        },
    }
}

/// Taking out a leaf takes out the same one under any value of its bound.
proof fn lemma_outcome_alike<K: Ord + Clone, V>(
    m: NodeModel<K>,
    a: ArenaModel<K, V>,
    removed: bool,
    k: K,
    b: Option<K>,
    c: Option<K>,
    leaf: usize,
)
    requires
        key_laws::<K>(),
        m.shape(),
        bound_cloned(b, c),
        b == m.bound(k),
    ensures
        obsolete_leaf_outcome(m, a, removed, k, b, leaf) == obsolete_leaf_outcome(
            m,
            a,
            removed,
            k,
            c,
            leaf,
        ),
{
    if b is Some {
        assert(same(b->0, c->0));
        lemma_bound_held(m, k);
        let n = m.with_handle(b, LeafPtr::Null);
        let i = index_of(m.children, b->0);
        assert(key_at(m.children, b->0, i));
        lemma_with_value_sorted(m.children, i, LeafPtr::Null);
        lemma_lookup_same(n.children, b->0, c->0);
    }
}

/// Overwriting a value keeps the array in order.
proof fn lemma_with_value_sorted<K: Ord + Clone, V>(s: Seq<Entry<K, V>>, i: int, v: V)
    requires
        sorted(s),
        0 <= i < s.len(),
    ensures
        sorted(with_value(s, i, v)),
{
    let t = with_value(s, i, v);
    assert forall|a: int, b: int| 0 <= a < b < t.len() implies lt(
        (#[trigger] t[a]).key,
        (#[trigger] t[b]).key,
    ) || (same(t[a].key, t[b].key) && t[a].removed) by {
        assert(lt(s[a].key, s[b].key) || (same(s[a].key, s[b].key) && s[a].removed));
    }
}

/// A value can be overwritten before or after a key is removed.
proof fn lemma_value_and_mark<K: Ord + Clone, V>(s: Seq<Entry<K, V>>, i: int, v: V, k: K)
    requires
        key_laws::<K>(),
        sorted(s),
        0 <= i < s.len(),
    ensures
        with_value(without_key(s, k), i, v) == without_key(with_value(s, i, v), k),
{
    let t = with_value(s, i, v);
    assert forall|a: int, b: int| 0 <= a < b < t.len() implies lt(
        (#[trigger] t[a]).key,
        (#[trigger] t[b]).key,
    ) || (same(t[a].key, t[b].key) && t[a].removed) by {
        assert(lt(s[a].key, s[b].key) || (same(s[a].key, s[b].key) && s[a].removed));
    }
    if holds(s, k) {
        let n = index_of(s, k);
        assert(key_at(s, k, n));
        assert(key_at(t, k, n));
        lemma_index_of(t, k, n);
    }
    if holds(t, k) {
        let n = index_of(t, k);
        assert(key_at(t, k, n));
        assert(key_at(s, k, n));
    }
    assert(with_value(without_key(s, k), i, v) =~= without_key(t, k));
}

impl<K: Clone + Ord> LeafNode<K> {
    /// Inserts an entry.
    pub fn insert<V: Clone>(&mut self, key: K, value: V, arena: &mut LeafArena<K, V>) -> (r: Result<
        (),
        InsertError<K, V>,
    >)
        requires
            key_laws::<K>(),
            old(arena).wf(),
            old(self)@.wf(old(arena)@),
        ensures
            final(arena).wf(),
            final(self)@.wf(final(arena)@),
            final(self).spec_id() == old(self).spec_id(),
            old(self)@.pending_wf(old(arena)@) ==> final(self)@.pending_wf(final(arena)@),
            inserts(
                old(self)@,
                old(arena)@,
                key,
                value,
                r,
                final(self)@,
                final(arena)@,
            ),
            old(self)@.new_leaves is None && old(self)@.slot(key) is At ==> !(r matches Err(
                InsertError::Retry(_),
            )),
    {
        let (child_key, child) = self.locate(&key);
        match child {
            LeafPtr::Null => Err(InsertError::Retry((key, value))),
            LeafPtr::At(p) => {
                proof {
                    lemma_slot(self@, key);
                    lemma_handle_owned(self@, self@.bound(key), p);
                    lemma_owns_active(self@, arena@, p);
                }
                match arena.leaf_insert(p, key, value) {
                    None => {
                        proof {
                            lemma_wf_in(self@, old(arena)@, arena@);
                        }
                        Ok(())
                    },
                    Some((entry, duplicated)) => {
                        proof {
                            assert(arena@.cells =~= old(arena)@.cells);
                            assert(arena@ == old(arena)@);
                        }
                        if duplicated {
                            return Err(InsertError::Duplicated(entry));
                        }
                        proof {
                            lemma_cloned_alike(self@.bound(key), child_key);
                            lemma_handle_alike(self@, self@.bound(key), child_key);
                        }
                        self.split_leaf(entry, child_key, p, arena)
                    },
                }
            },
        }
    }

    /// Removes an entry.
    pub fn remove<V>(&mut self, key: &K, arena: &mut LeafArena<K, V>) -> (r: Result<
        bool,
        RemoveError,
    >)
        requires
            key_laws::<K>(),
            old(arena).wf(),
            old(self)@.wf(old(arena)@),
        ensures
            final(arena).wf(),
            final(self)@.wf(final(arena)@),
            final(self).spec_id() == old(self).spec_id(),
            old(self)@.pending_wf(old(arena)@) ==> final(self)@.pending_wf(final(arena)@),
            r == remove_outcome(old(self)@, old(arena)@, *key).0,
            final(self)@ == remove_outcome(old(self)@, old(arena)@, *key).1,
            final(arena)@ == remove_outcome(old(self)@, old(arena)@, *key).2,
            r matches Err(RemoveError::Coalesce(_)) ==> final(self)@.children.len() > 0 && forall|
                i: int,
            |
                0 <= i < final(self)@.children.len() ==> (
                #[trigger] final(self)@.children[i]).removed,
    {
        let (child_key, child) = self.locate(key);
        match child {
            LeafPtr::Null => Err(RemoveError::Retry(false)),
            LeafPtr::At(p) => {
                proof {
                    lemma_slot(self@, *key);
                    lemma_handle_owned(self@, self@.bound(*key), p);
                    lemma_owns_active(self@, arena@, p);
                }
                let (removed, full, obsolete) = arena.leaf_remove(p, key);
                proof {
                    lemma_wf_in(self@, old(arena)@, arena@);
                }
                proof {
                    lemma_outcome_alike(
                        self@,
                        arena@,
                        removed,
                        *key,
                        self@.bound(*key),
                        child_key,
                        p,
                    );
                }
                if !full {
                    Ok(removed)
                } else if !obsolete {
                    self.check_full_leaf(removed, key, p)
                } else {
                    self.remove_obsolete_leaf(removed, key, child_key, p, arena)
                }
            },
        }
    }

    /// Checks that no split can have copied an entry that was just removed from a full leaf.
    pub fn check_full_leaf(&self, removed: bool, key: &K, leaf: usize) -> (r: Result<
        bool,
        RemoveError,
    >)
        requires
            key_laws::<K>(),
            self@.shape(),
        ensures
            r == full_leaf_outcome(self@, removed, *key, leaf),
    {
        if self.new_leaves.is_some() {
            return Err(RemoveError::Retry(removed));
        }
        let (_, current) = self.locate(key);
        if current != LeafPtr::At(leaf) {
            Err(RemoveError::Retry(removed))
        } else {
            Ok(removed)
        }
    }

    /// Takes an obsolete leaf out of the node.
    pub fn remove_obsolete_leaf<V>(
        &mut self,
        removed: bool,
        key: &K,
        child_key: Option<K>,
        leaf: usize,
        arena: &mut LeafArena<K, V>,
    ) -> (r: Result<bool, RemoveError>)
        requires
            key_laws::<K>(),
            old(arena).wf(),
            old(self)@.wf(old(arena)@),
        ensures
            final(arena).wf(),
            final(self)@.wf(final(arena)@),
            final(self).spec_id() == old(self).spec_id(),
            old(self)@.pending_wf(old(arena)@) ==> final(self)@.pending_wf(final(arena)@),
            ({
                let o = obsolete_leaf_outcome(
                    old(self)@,
                    old(arena)@,
                    removed,
                    *key,
                    child_key,
                    leaf,
                );
                &&& r == o.0
                &&& final(self)@ == o.1
                &&& final(arena)@ == o.2
            }),
    {
        let ghost m = self@;
        let ghost a = arena@;
        let locker = match LeafNodeLocker::lock(self) {
            Some(locker) => locker,
            None => {
                return Err(RemoveError::Retry(removed));
            },
        };
        let (_, current) = self.locate(key);
        if current != LeafPtr::At(leaf) {
            locker.unlock(self);
            return Err(RemoveError::Retry(removed));
        }
        if let Some(child_key) = child_key {
            proof {
                lemma_slot(m, *key);
                lemma_handle_owned(m, m.bound(*key), leaf);
                lemma_owns_active(m, a, leaf);
                lemma_replace_handle(m, a, m.bound(*key), LeafPtr::Null);
                lemma_remove_child(m.with_handle(m.bound(*key), LeafPtr::Null), a, child_key);
            }
            let slot = self.leaves.lower_bound(key);
            self.leaves.remove(&child_key);
            // Once the bound is gone it is safe to let go of the leaf: readers check for that.
            if slot < self.leaves.used() {
                self.leaves.store(slot, LeafPtr::Null);
            } else {
                self.unbounded_leaf = LeafPtr::Null;
            }
            arena.discard(leaf);
            proof {
                lemma_bound_held(m, *key);
                if slot < m.children.len() {
                    lemma_value_and_mark(m.children, slot as int, LeafPtr::Null, child_key);
                }
                lemma_discarded(a, leaf);
                lemma_wf_in(without_leaf(m, *key, child_key), a, arena@);
            }
        }
        let coalesce = self.leaves.obsolete();
        locker.unlock(self);
        if coalesce {
            Err(RemoveError::Coalesce(removed))
        } else {
            Ok(removed)
        }
    }
}

} // verus!
