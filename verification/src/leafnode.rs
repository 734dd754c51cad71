//! A leaf node: the lowest inner level of the tree.
//!
//! A leaf node holds its leaves in an array, each under the greatest key that may go into it, and
//! one more leaf without such a bound.
pub mod answer_laws;
pub mod arena_laws;
pub mod capacity_laws;
pub mod find_laws;
pub mod full_laws;
pub mod history_laws;
pub mod laws;
pub mod list_laws;
pub mod lock_laws;
pub mod locker;
pub mod merge;
pub mod model;
pub mod moment_laws;
pub mod print;
pub mod print_laws;
pub mod probe;
pub mod read;
pub mod release;
pub mod routing;
pub mod row_laws;
pub mod scan_laws;
pub mod split;
pub mod split_laws;
pub mod split_node;
pub mod split_node_laws;
pub mod write;

use crate::arena::{ArenaModel, LeafArena, LeafPtr};
use crate::leaf::{holds, is_obsolete, live_at, Leaf};
use crate::order::{bound_cloned, key_laws};
use capacity_laws::fresh;
use list_laws::{handles, listed};
use model::NodeModel;
use vstd::prelude::*;

verus! {

/// The leaves that take the place of a full leaf, before they are part of the node.
///
/// A leaf node that holds one is locked: no other split, merge or removal of a leaf can start.
#[derive(Clone)]
pub struct NewLeaves<K> {
    /// The bound of the full leaf, if it has one.
    pub origin_leaf_key: Option<K>,
    /// The full leaf.
    pub origin_leaf_ptr: LeafPtr,
    /// The leaf that takes the lower keys.
    pub low_key_leaf: LeafPtr,
    /// The leaf that takes the higher keys.
    pub high_key_leaf: LeafPtr,
}

/// A leaf node.
#[derive(Clone)]
pub struct LeafNode<K> {
    id: usize,
    /// The bounded leaves, each under its bound.
    leaves: Leaf<K, LeafPtr>,
    /// The leaf without a bound.
    unbounded_leaf: LeafPtr,
    /// The leaves of a split that is under way.
    new_leaves: Option<NewLeaves<K>>,
}

impl<K> View for LeafNode<K> {
    type V = NodeModel<K>;

    closed spec fn view(&self) -> NodeModel<K> {
        NodeModel {
            children: self.leaves@,
            unbounded: self.unbounded_leaf,
            new_leaves: self.new_leaves,
        }
    }
}

fn clone_bound<K: Clone + Ord>(bound: &Option<K>) -> (r: Option<K>)
    requires
        key_laws::<K>(),
    ensures
        bound_cloned(*bound, r),
{
    match bound {
        Some(key) => {
            let k = key.clone();
            proof {
                assert(cloned(*key, k));
            }
            Some(k)
        },
        None => None,
    }
}

impl<K: Clone + Ord> NewLeaves<K> {
    /// No leaves: what a lock holds.
    pub fn new() -> (n: Self)
        ensures
            n.origin_leaf_key is None,
            n.origin_leaf_ptr is Null,
            n.low_key_leaf is Null,
            n.high_key_leaf is Null,
    {
        NewLeaves {
            origin_leaf_key: None,
            origin_leaf_ptr: LeafPtr::Null,
            low_key_leaf: LeafPtr::Null,
            high_key_leaf: LeafPtr::Null,
        }
    }
}

impl<K: Clone + Ord> LeafNode<K> {
    /// The identifier of the node.
    pub closed spec fn spec_id(self) -> usize {
        self.id
    }

    /// A leaf node without bounded leaves, with or without an unbounded leaf.
    pub fn new<V>(allocate_unbounded_leaf: bool, arena: &mut LeafArena<K, V>) -> (node: Self)
        requires
            old(arena).wf(),
        ensures
            final(arena).wf(),
            node@.wf(final(arena)@),
            node.spec_id() == old(arena)@.next,
            node.spec_id() < final(arena)@.next,
            !final(arena)@.cells.dom().contains(node.spec_id()),
            node@.children.len() == 0,
            node@.new_leaves is None,
            ({
                let reserved = ArenaModel { next: old(arena)@.next + 1, ..old(arena)@ };
                if allocate_unbounded_leaf {
                    &&& node@.unbounded == LeafPtr::At(reserved.next as usize)
                    &&& final(arena)@ == reserved.allocated(Seq::empty())
                } else {
                    &&& node@.unbounded == LeafPtr::Null
                    &&& final(arena)@ == reserved
                }
            }),
            node@.contents(final(arena)@) == Map::<K, V>::empty(),
            node@.keys_in_place(final(arena)@),
            allocate_unbounded_leaf ==> listed(handles(node@), final(arena)@) && fresh(
                node@,
                final(arena)@,
            ),
    {
        let id = arena.reserve();
        let unbounded_leaf = if allocate_unbounded_leaf {
            let leaf = arena.adopt(Leaf::new());
            LeafPtr::At(leaf)
        } else {
            LeafPtr::Null
        };
        let node = LeafNode { id, leaves: Leaf::new(), unbounded_leaf, new_leaves: None };
        assert(handles(node@) =~= seq![unbounded_leaf]);
        node
    }

    /// The identifier of the node: no other node that `new` made in its arena has it, and no leaf.
    pub fn id(&self) -> (id: usize)
        ensures
            id == self.spec_id(),
    {
        self.id
    }

    /// The leaves of a split that is under way; a node that is locked for another reason has none.
    pub fn new_leaves(&self) -> (n: &Option<NewLeaves<K>>)
        ensures
            *n == self@.new_leaves,
    {
        &self.new_leaves
    }

    /// The handle of the unbounded leaf.
    pub fn unbounded_leaf(&self) -> (p: LeafPtr)
        ensures
            p == self@.unbounded,
    {
        self.unbounded_leaf
    }

    /// Whether the node has all of its bounded leaves: one that was unlinked has not.
    pub fn linked(&self) -> (b: bool)
        requires
            self@.shape(),
        ensures
            b == (forall|i: int|
                live_at(self@.children, i) ==> (#[trigger] self@.children[i]).value is At),
    {
        let mut i: usize = 0;
        while i < self.leaves.used()
            invariant
                i <= self.leaves@.len(),
                self.leaves@ == self@.children,
                forall|j: int|
                    0 <= j < i && live_at(self@.children, j) ==> (
                    #[trigger] self@.children[j]).value is At,
            decreases self.leaves@.len() - i,
        {
            let child = self.leaves.entry(i);
            if !child.removed && child.value.is_null() {
                assert(live_at(self@.children, i as int));
                return false;
            }
            i = i + 1;
        }
        true
    }

    /// Whether the node has lost all of its bounded leaves, and its unbounded leaf too if that is
    /// asked.
    pub fn obsolete(&self, check_unbounded: bool) -> (b: bool)
        requires
            self@.shape(),
        ensures
            b == (is_obsolete(self@.children) && (check_unbounded ==> self@.unbounded is Null)),
    {
        self.leaves.obsolete() && (!check_unbounded || self.unbounded_leaf.is_null())
    }

    /// The handle under a bound, or that of the unbounded leaf.
    fn handle(&self, bound: &Option<K>) -> (p: LeafPtr)
        requires
            key_laws::<K>(),
            self@.shape(),
        ensures
            p == self@.handle(*bound),
    {
        match bound {
            Some(key) => match self.leaves.search(key) {
                Some(child) => *child,
                None => LeafPtr::Null,
            },
            None => self.unbounded_leaf,
        }
    }

    /// Replaces the handle under a bound, or that of the unbounded leaf.
    fn set_handle(&mut self, bound: &Option<K>, p: LeafPtr)
        requires
            key_laws::<K>(),
            old(self)@.shape(),
            *bound matches Some(k) ==> holds(old(self)@.children, k),
        ensures
            final(self)@ == old(self)@.with_handle(*bound, p),
            final(self).spec_id() == old(self).spec_id(),
    {
        match bound {
            Some(key) => {
                let i = self.leaves.position(key);
                self.leaves.store(i, p);
            },
            None => {
                self.unbounded_leaf = p;
            },
        }
    }
}

} // verus!
