//! The lock of a leaf node.
use crate::arena::{ArenaModel, LeafPtr};
use crate::error::{InsertError, RemoveError};
use crate::leafnode::merge::merge_outcome;
use crate::leafnode::model::NodeModel;
use crate::leafnode::split::splits;
use crate::leafnode::write::{full_leaf_outcome, obsolete_leaf_outcome};
use crate::leafnode::{LeafNode, NewLeaves};
use vstd::prelude::*;

verus! {

/// Proof that a leaf node was locked.
#[must_use]
pub struct LeafNodeLocker {
    node: usize,
}

/// What a locked leaf node holds in place of the leaves of a split.
pub open spec fn no_new_leaves<K>() -> NewLeaves<K> {
    NewLeaves {
        origin_leaf_key: None,
        origin_leaf_ptr: LeafPtr::Null,
        low_key_leaf: LeafPtr::Null,
        high_key_leaf: LeafPtr::Null,
    }
}

/// Somebody holds the lock of the node, and no split is under way.
pub open spec fn is_locked<K>(m: NodeModel<K>) -> bool {
    m.new_leaves == Some(no_new_leaves::<K>())
}

/// A split is pending: it found no room, and its new leaves wait outside the node.
pub open spec fn pending<K>(m: NodeModel<K>) -> bool {
    m.new_leaves matches Some(n) && n.low_key_leaf is At
}

/// The node, locked.
pub open spec fn locked<K>(m: NodeModel<K>) -> NodeModel<K> {
    NodeModel { new_leaves: Some(no_new_leaves()), ..m }
}

/// The node, unlocked: there is no lock, and no split under way.
pub open spec fn unlocked<K>(m: NodeModel<K>) -> NodeModel<K> {
    NodeModel { new_leaves: None, ..m }
}

/// What comes of an attempt to lock a node: whether a locker is given, and the node.
pub open spec fn lock_outcome<K>(m: NodeModel<K>) -> (bool, NodeModel<K>) {
    if m.new_leaves is None {
        (true, locked(m))
    } else {
        (false, m)
    }
}

impl LeafNodeLocker {
    /// The node that is locked.
    pub closed spec fn node(self) -> usize {
        self.node
    }

    /// Locks a leaf node, unless it is locked or a split is under way.
    pub fn lock<K: Clone + Ord>(leaf_node: &mut LeafNode<K>) -> (r: Option<LeafNodeLocker>)
        ensures
            final(leaf_node).spec_id() == old(leaf_node).spec_id(),
            r is Some == lock_outcome(old(leaf_node)@).0,
            final(leaf_node)@ == lock_outcome(old(leaf_node)@).1,
            r matches Some(locker) ==> locker.node() == old(leaf_node).spec_id(),
    {
        if leaf_node.new_leaves.is_some() {
            None
        } else {
            leaf_node.new_leaves = Some(NewLeaves::new());
            Some(LeafNodeLocker { node: leaf_node.id })
        }
    }

    /// Unlocks the leaf node.
    pub fn unlock<K: Clone + Ord>(self, leaf_node: &mut LeafNode<K>)
        requires
            self.node() == old(leaf_node).spec_id(),
            is_locked(old(leaf_node)@),
        ensures
            final(leaf_node).spec_id() == old(leaf_node).spec_id(),
            final(leaf_node)@ == unlocked(old(leaf_node)@),
    {
        leaf_node.new_leaves = None;
    }
}

/// While a node is locked, or a split is under way in it, no leaf is split, taken out or merged:
/// the attempts fail and change nothing.
pub proof fn law_locked<K: Ord + Clone, V: Clone>(
    m: NodeModel<K>,
    a: ArenaModel<K, V>,
    k: K,
    v: V,
    bound: Option<K>,
    leaf: usize,
    removed: bool,
    other: NodeModel<K>,
    b: K,
)
    requires
        m.new_leaves is Some,
    ensures
        forall|r: Result<(), InsertError<K, V>>, m2: NodeModel<K>, a2: ArenaModel<K, V>|
            #[trigger] splits(m, a, k, v, bound, leaf, r, m2, a2) ==> {
                &&& r == Err::<(), InsertError<K, V>>(InsertError::Retry((k, v)))
                &&& m2 == m
                &&& a2 == a
            },
        full_leaf_outcome(m, removed, k, leaf) == Err::<bool, RemoveError>(
            RemoveError::Retry(removed),
        ),
        obsolete_leaf_outcome(m, a, removed, k, bound, leaf) == (
            Err::<bool, RemoveError>(RemoveError::Retry(removed)),
            m,
            a,
        ),
        merge_outcome(m, other, a, k, b) == (false, m, other, a),
        merge_outcome(other, m, a, k, b) == (false, other, m, a),
{
}

} // verus!
