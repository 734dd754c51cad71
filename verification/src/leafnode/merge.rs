//! Merging a leaf node into its right neighbour.
use crate::arena::{lemma_discarded, ArenaModel, LeafArena, LeafPtr};
use crate::leaf::laws::law_leaf_insert;
use crate::leaf::{accepts, is_obsolete, with_entry, ARRAY_SIZE};
use crate::leafnode::locker::LeafNodeLocker;
use crate::leafnode::model::{lemma_add_child, lemma_replace_handle, lemma_wf_in, NodeModel};
use crate::leafnode::split::lemma_accepts_same;
use crate::leafnode::LeafNode;
use crate::order::{key_laws, same};
use vstd::prelude::*;

verus! {

/// What comes of merging the node `prev`, whose bound is `k`, into its right neighbour `m`: the
/// result, the two nodes, and the arena.
///
/// The last leaf of `prev` becomes a leaf of `m` under that bound, of which `m` gets the value `b`.
/// If the leaf is obsolete it is discarded instead.
pub open spec fn merge_outcome<K: Ord, V>(
    m: NodeModel<K>,
    prev: NodeModel<K>,
    a: ArenaModel<K, V>,
    k: K,
    b: K,
) -> (bool, NodeModel<K>, NodeModel<K>, ArenaModel<K, V>) {
    let p = prev.unbounded->At_0;
    let emptied = NodeModel { unbounded: LeafPtr::Null, ..prev };
    if m.new_leaves is Some || prev.new_leaves is Some {
        (false, m, prev, a)
    } else if is_obsolete(a.entries(p)) {
        (true, m, emptied, a.discarded(p))
    } else if accepts(m.children, k) {
        let grown = NodeModel { children: with_entry(m.children, b, LeafPtr::At(p)), ..m };
        (true, grown, emptied, a)
    } else {
        (false, m, prev, a)
    }
}

impl<K: Clone + Ord> LeafNode<K> {
    /// Tries to merge the node to the left, which has lost its bounded leaves, into this one.
    pub fn try_merge<V>(
        &mut self,
        prev_leaf_node_key: &K,
        prev_leaf_node: &mut LeafNode<K>,
        arena: &mut LeafArena<K, V>,
    ) -> (r: bool)
        requires
            key_laws::<K>(),
            old(arena).wf(),
            old(self)@.wf(old(arena)@),
            old(prev_leaf_node)@.wf(old(arena)@),
            old(self)@.new_leaves is None && old(prev_leaf_node)@.new_leaves is None ==> {
                &&& old(prev_leaf_node)@.unbounded is At
                &&& !old(self)@.owns(old(prev_leaf_node)@.unbounded)
            },
        ensures
            final(arena).wf(),
            final(self)@.wf(final(arena)@),
            final(prev_leaf_node)@.wf(final(arena)@),
            final(self).spec_id() == old(self).spec_id(),
            final(prev_leaf_node).spec_id() == old(prev_leaf_node).spec_id(),
            exists|b: K|
                cloned(*prev_leaf_node_key, b) && (
                r,
                final(self)@,
                final(prev_leaf_node)@,
                final(arena)@,
            ) == #[trigger] merge_outcome(
                    old(self)@,
                    old(prev_leaf_node)@,
                    old(arena)@,
                    *prev_leaf_node_key,
                    b,
                ),
            ({
                let s = old(self)@.children;
                &&& old(self)@.new_leaves is None
                &&& old(prev_leaf_node)@.new_leaves is None
                &&& s.len() < ARRAY_SIZE
                &&& s.len() == 0 || exists|i: int| 0 <= i < s.len() && !(#[trigger] s[i]).removed
                &&& forall|i: int|
                    0 <= i < s.len() && !(#[trigger] s[i]).removed ==> !same(
                        s[i].key,
                        *prev_leaf_node_key,
                    )
            }) ==> r,
    {
        let ghost m = self@;
        let ghost prev = prev_leaf_node@;
        let ghost a = arena@;
        let ghost mut b = *prev_leaf_node_key;
        proof {
            law_leaf_insert(m.children, b, prev.unbounded);
        }
        let self_lock = match LeafNodeLocker::lock(self) {
            Some(locker) => locker,
            None => {
                assert((false, m, prev, a) == merge_outcome(m, prev, a, *prev_leaf_node_key, b));
                return false;
            },
        };
        let prev_lock = match LeafNodeLocker::lock(prev_leaf_node) {
            Some(locker) => locker,
            None => {
                self_lock.unlock(self);
                assert((false, m, prev, a) == merge_outcome(m, prev, a, *prev_leaf_node_key, b));
                return false;
            },
        };
        let target = prev_leaf_node.unbounded_leaf;
        let mut merged = true;
        match target {
            LeafPtr::At(p) => {
                proof {
                    lemma_replace_handle(prev, a, None, LeafPtr::Null);
                }
                if !arena.cell(p).leaf.obsolete() {
                    let key = prev_leaf_node_key.clone();
                    proof {
                        assert(cloned(*prev_leaf_node_key, key));
                        b = key;
                        lemma_accepts_same(m.children, *prev_leaf_node_key, key);
                        if accepts(m.children, key) {
                            lemma_add_child(m, a, key, p);
                        }
                    }
                    if self.leaves.insert(key, target).is_some() {
                        merged = false;
                    } else {
                        prev_leaf_node.unbounded_leaf = LeafPtr::Null;
                    }
                } else {
                    prev_leaf_node.unbounded_leaf = LeafPtr::Null;
                    arena.discard(p);
                    proof {
                        lemma_discarded(a, p);
                        lemma_wf_in(m, a, arena@);
                        lemma_wf_in(prev.with_handle(None, LeafPtr::Null), a, arena@);
                    }
                }
            },
            LeafPtr::Null => {},
        }
        prev_lock.unlock(prev_leaf_node);
        self_lock.unlock(self);
        assert((merged, self@, prev_leaf_node@, arena@) == merge_outcome(
            m,
            prev,
            a,
            *prev_leaf_node_key,
            b,
        ));
        merged
    }
}

} // verus!
