//! Taking a leaf node, or a split of one of its leaves, back.
use crate::arena::{lemma_discarded, ArenaModel, LeafArena, LeafPtr};
use crate::error::{InsertError, RemoveError};
use crate::leaf::{lemma_seek, live_at, Entry};
use crate::leafnode::locker::{pending, unlocked};
use crate::leafnode::model::{lemma_same_leaves, lemma_wf_in, NodeModel};
use crate::leafnode::read::{first_leaf, start_leaf};
use crate::leafnode::write::{inserts, remove_outcome};
use crate::leafnode::LeafNode;
use crate::order::key_laws;
use crate::scanner::lemma_next_slot;
use vstd::prelude::*;

verus! {

/// The array of leaves without any handle.
pub open spec fn cleared<K>(s: Seq<Entry<K, LeafPtr>>) -> Seq<Entry<K, LeafPtr>> {
    Seq::new(
        s.len(),
        |i: int|
            if s[i].removed {
                s[i]
            } else {
                Entry { key: s[i].key, value: LeafPtr::Null, removed: false }
            },
    )
}

/// The arena after the leaf that a handle leads to was discarded.
pub open spec fn discarded_at<K, V>(a: ArenaModel<K, V>, p: LeafPtr) -> ArenaModel<K, V> {
    match p {
        LeafPtr::At(i) => a.discarded(i),
        LeafPtr::Null => a,
    }
}

/// The arena after the leaves under the bounds in the first `n` slots were discarded.
pub open spec fn discarded_children<K, V>(
    a: ArenaModel<K, V>,
    s: Seq<Entry<K, LeafPtr>>,
    n: int,
) -> ArenaModel<K, V>
    decreases n,
{
    if n <= 0 {
        a
    } else {
        let b = discarded_children(a, s, n - 1);
        if s[n - 1].removed {
            b
        } else {
            discarded_at(b, s[n - 1].value)
        }
    }
}

impl<K: Clone + Ord> LeafNode<K> {
    /// Lets go of all leaves; a leaf that was split is discarded.
    pub fn unlink<V>(&mut self, arena: &mut LeafArena<K, V>)
        requires
            old(arena).wf(),
            old(self)@.shape(),
            old(self)@.new_leaves matches Some(n) ==> old(arena)@.sound(n.origin_leaf_ptr),
        ensures
            final(arena).wf(),
            final(self)@.wf(final(arena)@),
            final(self).spec_id() == old(self).spec_id(),
            final(self)@ == (NodeModel {
                children: cleared(old(self)@.children),
                unbounded: LeafPtr::Null,
                new_leaves: old(self)@.new_leaves,
            }),
            final(arena)@ == match old(self)@.new_leaves {
                Some(n) => discarded_at(old(arena)@, n.origin_leaf_ptr),
                None => old(arena)@,
            },
    {
        let ghost s = self.leaves@;
        let mut i: usize = 0;
        while i < self.leaves.used()
            invariant
                i <= s.len(),
                s.len() == self.leaves@.len(),
                self.leaves.wf(),
                s == old(self)@.children,
                self.leaves@ =~= cleared(s).take(i as int) + s.skip(i as int),
                self.id == old(self).id,
                self.unbounded_leaf == old(self).unbounded_leaf,
                self.new_leaves == old(self).new_leaves,
            decreases s.len() - i,
        {
            if !self.leaves.entry(i).removed {
                self.leaves.store(i, LeafPtr::Null);
            }
            i = i + 1;
        }
        self.unbounded_leaf = LeafPtr::Null;
        if let Some(new_leaves) = &self.new_leaves {
            match new_leaves.origin_leaf_ptr {
                LeafPtr::At(p) => arena.discard(p),
                LeafPtr::Null => {},
            }
        }
    }

    /// Gives up a split that is under way: the new leaves are discarded, and the node is unlocked.
    pub fn rollback<V>(&mut self, arena: &mut LeafArena<K, V>)
        requires
            old(arena).wf(),
            old(self)@.wf(old(arena)@),
            old(self)@.new_leaves_wf(old(arena)@),
            pending(old(self)@),
        ensures
            final(arena).wf(),
            final(self)@.wf(final(arena)@),
            final(self).spec_id() == old(self).spec_id(),
            final(self)@ == unlocked(old(self)@),
            ({
                let n = old(self)@.new_leaves->0;
                final(arena)@ == discarded_at(
                    discarded_at(old(arena)@, n.low_key_leaf),
                    n.high_key_leaf,
                )
            }),
    {
        let ghost m = self@;
        let ghost a = arena@;
        let new_leaves = self.new_leaves.take().unwrap();
        proof {
            lemma_same_leaves(m, self@);
        }
        match new_leaves.low_key_leaf {
            LeafPtr::At(p) => {
                arena.discard(p);
                proof {
                    lemma_discarded(a, p);
                    lemma_wf_in(self@, a, arena@);
                }
            },
            LeafPtr::Null => {},
        }
        let ghost b = arena@;
        match new_leaves.high_key_leaf {
            LeafPtr::At(p) => {
                arena.discard(p);
                proof {
                    lemma_discarded(b, p);
                    lemma_wf_in(self@, b, arena@);
                }
            },
            LeafPtr::Null => {},
        }
    }

    /// Ends the node: all leaves that it owns are discarded.
    pub fn drop_leaves<V>(self, arena: &mut LeafArena<K, V>)
        requires
            old(arena).wf(),
            self@.wf(old(arena)@),
        ensures
            final(arena).wf(),
            final(arena)@ == discarded_at(
                discarded_children(old(arena)@, self@.children, self@.children.len() as int),
                self@.unbounded,
            ),
            forall|p: usize| #[trigger]
                final(arena)@.active(p) <==> old(arena)@.active(p) && !self@.owns(LeafPtr::At(p)),
    {
        let ghost s = self@.children;
        let ghost a = arena@;
        let mut i: usize = 0;
        while i < self.leaves.used()
            invariant
                i <= s.len(),
                s == self@.children,
                self.leaves@ == s,
                a == old(arena)@,
                arena.wf(),
                self@.wf(a),
                arena@ == discarded_children(a, s, i as int),
                forall|p: usize| #[trigger]
                    arena@.active(p) <==> a.active(p) && !(exists|j: int|
                        0 <= j < i && live_at(s, j) && (#[trigger] s[j]).value == LeafPtr::At(p)),
            decreases s.len() - i,
        {
            let child = self.leaves.entry(i);
            let ghost before = arena@;
            if !child.removed {
                match child.value {
                    LeafPtr::At(p) => {
                        proof {
                            assert(a.sound(s[i as int].value));
                            assert(before.active(p)) by {
                                if exists|j: int|
                                    0 <= j < i && live_at(s, j) && (#[trigger] s[j]).value
                                        == LeafPtr::At(p) {
                                    let j = choose|j: int|
                                        0 <= j < i && live_at(s, j) && (#[trigger] s[j]).value
                                            == LeafPtr::At(p);
                                    assert(s[j].value == s[i as int].value);
                                }
                            }
                        }
                        arena.discard(p);
                        proof {
                            lemma_discarded(before, p);
                        }
                    },
                    LeafPtr::Null => {},
                }
            }
            proof {
                assert forall|p: usize| #[trigger]
                    arena@.active(p) <==> a.active(p) && !(exists|j: int|
                        0 <= j < i + 1 && live_at(s, j) && (#[trigger] s[j]).value == LeafPtr::At(
                            p,
                        )) by {
                    assert(before.active(p) <==> a.active(p) && !(exists|j: int|
                        0 <= j < i && live_at(s, j) && (#[trigger] s[j]).value == LeafPtr::At(p)));
                    if live_at(s, i as int) && s[i as int].value == LeafPtr::At(p) {
                        assert(!arena@.active(p));
                    } else {
                        assert(arena@.active(p) <==> before.active(p));
                    }
                }
            }
            i = i + 1;
        }
        let ghost before = arena@;
        match self.unbounded_leaf {
            LeafPtr::At(p) => {
                proof {
                    assert(before.active(p)) by {
                        if exists|j: int|
                            0 <= j < i && live_at(s, j) && (#[trigger] s[j]).value == LeafPtr::At(
                                p,
                            ) {
                            let j = choose|j: int|
                                0 <= j < i && live_at(s, j) && (#[trigger] s[j]).value
                                    == LeafPtr::At(p);
                            assert(s[j].value == self@.unbounded);
                        }
                    }
                }
                arena.discard(p);
                proof {
                    lemma_discarded(before, p);
                }
            },
            LeafPtr::Null => {},
        }
        proof {
            assert forall|p: usize| #[trigger]
                arena@.active(p) <==> a.active(p) && !self@.owns(LeafPtr::At(p)) by {
                assert(arena@.active(p) <==> before.active(p) && self@.unbounded != LeafPtr::At(p));
            }
        }
    }
}

/// A node that let go of its leaves answers that the operation has to start again: there is no leaf
/// for any key.
pub proof fn law_unlinked<K: Ord + Clone, V: Clone>(
    m: NodeModel<K>,
    a: ArenaModel<K, V>,
    k: K,
    v: V,
)
    requires
        key_laws::<K>(),
        m.shape(),
    ensures
        ({
            let m2 = NodeModel {
                children: cleared(m.children),
                unbounded: LeafPtr::Null,
                new_leaves: m.new_leaves,
            };
            &&& m2.slot(k) is Null
            &&& first_leaf(m2) is Null
            &&& start_leaf(m2, a, k, 0) is None
            &&& remove_outcome(m2, a, k) == (
                Err::<bool, RemoveError>(RemoveError::Retry(false)),
                m2,
                a,
            )
            &&& forall|r: Result<(), InsertError<K, V>>, m3: NodeModel<K>, a3: ArenaModel<K, V>|
                #[trigger] inserts(m2, a, k, v, r, m3, a3) ==> r == Err::<(), InsertError<K, V>>(
                    InsertError::Retry((k, v)),
                ) && m3 == m2 && a3 == a
        }),
{
    let s = cleared(m.children);
    let m2 = NodeModel { children: s, unbounded: LeafPtr::Null, new_leaves: m.new_leaves };
    lemma_seek(s, k, 0);
    lemma_next_slot(s, 0, false);
    lemma_no_start(m2, a, k, 0);
}

/// A scan finds no leaf to start in if there are no handles.
proof fn lemma_no_start<K: Ord + Clone, V>(m: NodeModel<K>, a: ArenaModel<K, V>, k: K, i: int)
    requires
        m.unbounded is Null,
        forall|j: int| live_at(m.children, j) ==> (#[trigger] m.children[j]).value is Null,
        0 <= i <= m.children.len(),
    ensures
        start_leaf(m, a, k, i) is None,
    decreases m.children.len() - i,
{
    if i < m.children.len() {
        lemma_no_start(m, a, k, i + 1);
        if !m.children[i].removed {
            assert(live_at(m.children, i));
        }
    }
}

} // verus!
