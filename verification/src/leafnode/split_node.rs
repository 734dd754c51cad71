//! Splitting a leaf node that has no room for another leaf.
use crate::arena::{LeafArena, LeafPtr};
use crate::leaf::{live, with_entry, Entry};
use crate::leafnode::model::NodeModel;
use crate::leafnode::{LeafNode, NewLeaves};
use crate::order::{bound_cloned, compare, key_laws, same, KeyOrder};
use vstd::prelude::*;

verus! {

/// The leaf under the bound is the one that was split.
pub open spec fn splits_at<K: Ord>(n: NewLeaves<K>, bound: K) -> bool {
    n.origin_leaf_key matches Some(k) && same(bound, k)
}

/// What becomes of a leaf of the node: the new leaves take the place of the one that was split.
pub open spec fn moved_child<K: Ord>(n: NewLeaves<K>, middle: K, e: Entry<K, LeafPtr>) -> Seq<
    (Option<K>, LeafPtr),
> {
    if !splits_at(n, e.key) {
        seq![(Some(e.key), e.value)]
    } else if n.high_key_leaf is Null {
        seq![(Some(middle), n.low_key_leaf)]
    } else {
        seq![(Some(middle), n.low_key_leaf), (Some(e.key), n.high_key_leaf)]
    }
}

/// What becomes of the bounded leaves of the node.
pub open spec fn moved_children<K: Ord>(
    n: NewLeaves<K>,
    middle: K,
    s: Seq<Entry<K, LeafPtr>>,
) -> Seq<(Option<K>, LeafPtr)>
    decreases s.len(),
{
    if s.len() == 0 {
        Seq::empty()
    } else {
        moved_children(n, middle, s.drop_last()) + moved_child(n, middle, s.last())
    }
}

/// What becomes of the unbounded leaf of the node.
pub open spec fn moved_unbounded<K>(n: NewLeaves<K>, middle: K, unbounded: LeafPtr) -> Seq<
    (Option<K>, LeafPtr),
> {
    if n.origin_leaf_key is Some {
        seq![(None, unbounded)]
    } else if n.high_key_leaf is Null {
        seq![(Some(middle), n.low_key_leaf)]
    } else {
        seq![(Some(middle), n.low_key_leaf), (None, n.high_key_leaf)]
    }
}

/// The leaves of the node with their bounds, the new leaves in the place of the one that was
/// split. The bound of the low-key leaf is `middle`.
pub open spec fn moved<K: Ord>(m: NodeModel<K>, middle: K) -> Seq<(Option<K>, LeafPtr)> {
    let n = m.new_leaves->0;
    moved_children(n, middle, live(m.children)) + moved_unbounded(n, middle, m.unbounded)
}

/// The second row has the leaves of the first one in the same places, under clones of their bounds.
pub open spec fn row_cloned<K: Clone>(
    l: Seq<(Option<K>, LeafPtr)>,
    c: Seq<(Option<K>, LeafPtr)>,
) -> bool {
    &&& l.len() == c.len()
    &&& forall|i: int|
        #![trigger l[i]]
        #![trigger c[i]]
        0 <= i < l.len() ==> bound_cloned(l[i].0, c[i].0) && c[i].1 == l[i].1
}

/// Rows that are cloned part by part are cloned.
proof fn lemma_row_cloned_parts<K: Clone>(
    l: Seq<(Option<K>, LeafPtr)>,
    c: Seq<(Option<K>, LeafPtr)>,
    m: Seq<(Option<K>, LeafPtr)>,
    d: Seq<(Option<K>, LeafPtr)>,
)
    requires
        row_cloned(l, c),
        row_cloned(m, d),
    ensures
        row_cloned(l + m, c + d),
{
    assert forall|i: int| 0 <= i < (l + m).len() implies bound_cloned(
        (l + m)[i].0,
        (#[trigger] (c + d)[i]).0,
    ) && (c + d)[i].1 == (l + m)[i].1 by {
        if i < l.len() {
            assert((c + d)[i] == c[i] && (l + m)[i] == l[i]);
        } else {
            assert((c + d)[i] == d[i - l.len()] && (l + m)[i] == m[i - l.len()]);
        }
    }
}

/// The node after it was given leaves: one with a bound goes into the array if there is room, one
/// without becomes the unbounded leaf.
pub open spec fn placed<K: Ord>(m: NodeModel<K>, leaves: Seq<(Option<K>, LeafPtr)>) -> NodeModel<K>
    decreases leaves.len(),
{
    if leaves.len() == 0 {
        m
    } else {
        let n = placed(m, leaves.drop_last());
        let (bound, p) = leaves.last();
        match bound {
            Some(k) => NodeModel { children: with_entry(n.children, k, p), ..n },
            None => NodeModel { unbounded: p, ..n },
        }
    }
}

/// The low-key node after it was given the lower half of the leaves. The last one becomes its
/// unbounded leaf.
pub open spec fn low_node<K: Ord>(m: NodeModel<K>, leaves: Seq<(Option<K>, LeafPtr)>) -> NodeModel<
    K,
> {
    let half = leaves.len() as int / 2;
    if half == 0 {
        m
    } else {
        NodeModel { unbounded: leaves[half - 1].1, ..placed(m, leaves.take(half - 1)) }
    }
}

/// The high-key node after it was given the rest of the leaves.
pub open spec fn high_node<K: Ord>(m: NodeModel<K>, leaves: Seq<(Option<K>, LeafPtr)>) -> NodeModel<
    K,
> {
    placed(m, leaves.skip(leaves.len() as int / 2))
}

/// The bound between the two nodes.
pub open spec fn middle_bound<K>(leaves: Seq<(Option<K>, LeafPtr)>) -> Option<K> {
    let half = leaves.len() as int / 2;
    if half == 0 {
        None
    } else {
        leaves[half - 1].0
    }
}

impl<K: Clone + Ord> LeafNode<K> {
    /// Collects the leaves of the node with their bounds, the new leaves in the place of the one
    /// that was split.
    fn moved_leaves(&self, new_leaves: &NewLeaves<K>, middle_key: &K) -> (r: Vec<
        (Option<K>, LeafPtr),
    >)
        requires
            key_laws::<K>(),
            self@.shape(),
            self@.new_leaves == Some(*new_leaves),
        ensures
            row_cloned(moved(self@, *middle_key), r@),
    {
        let mut entries: Vec<(Option<K>, LeafPtr)> = Vec::new();
        let low = new_leaves.low_key_leaf;
        let high = new_leaves.high_key_leaf;
        let mut i: usize = 0;
        while i < self.leaves.used()
            invariant
                key_laws::<K>(),
                i <= self.leaves@.len(),
                low == new_leaves.low_key_leaf,
                high == new_leaves.high_key_leaf,
                row_cloned(
                    moved_children(*new_leaves, *middle_key, live(self.leaves@.take(i as int))),
                    entries@,
                ),
            decreases self.leaves@.len() - i,
        {
            let ghost before = live(self.leaves@.take(i as int));
            let ghost after = live(self.leaves@.take(i + 1));
            let child = self.leaves.entry(i);
            proof {
                assert(self.leaves@.take(i + 1).drop_last() =~= self.leaves@.take(i as int));
                assert(self.leaves@.take(i + 1).last() == *child);
                if !child.removed {
                    assert(after.drop_last() =~= before);
                    assert(after.last() == *child);
                }
            }
            if !child.removed {
                let split = match &new_leaves.origin_leaf_key {
                    Some(key) => match compare(&child.key, key) {
                        KeyOrder::Equal => true,
                        _ => false,
                    },
                    None => false,
                };
                let ghost old_entries = entries@;
                let ghost mut added: Seq<(Option<K>, LeafPtr)> = Seq::empty();
                let child_key = child.key.clone();
                proof {
                    assert(cloned(child.key, child_key));
                }
                if split {
                    let middle = middle_key.clone();
                    proof {
                        assert(cloned(*middle_key, middle));
                    }
                    proof {
                        added = seq![(Some(middle), low)];
                    }
                    entries.push((Some(middle), low));
                    if !high.is_null() {
                        proof {
                            added = added.push((Some(child_key), high));
                        }
                        entries.push((Some(child_key), high));
                    }
                } else {
                    proof {
                        added = seq![(Some(child_key), child.value)];
                    }
                    entries.push((Some(child_key), child.value));
                }
                proof {
                    assert(entries@ =~= old_entries + added);
                    lemma_row_cloned_parts(
                        moved_children(*new_leaves, *middle_key, before),
                        old_entries,
                        moved_child(*new_leaves, *middle_key, *child),
                        added,
                    );
                }
            }
            i = i + 1;
        }
        proof {
            assert(self.leaves@.take(i as int) =~= self.leaves@);
        }
        let ghost children = entries@;
        let ghost mut added: Seq<(Option<K>, LeafPtr)> = seq![(None, self.unbounded_leaf)];
        if new_leaves.origin_leaf_key.is_some() {
            entries.push((None, self.unbounded_leaf));
        } else {
            let middle = middle_key.clone();
            proof {
                assert(cloned(*middle_key, middle));
            }
            proof {
                added = seq![(Some(middle), low)];
            }
            entries.push((Some(middle), low));
            if !high.is_null() {
                proof {
                    added = added.push((None, high));
                }
                entries.push((None, high));
            }
        }
        proof {
            assert(entries@ =~= children + added);
            lemma_row_cloned_parts(
                moved_children(*new_leaves, *middle_key, live(self.leaves@)),
                children,
                moved_unbounded(*new_leaves, *middle_key, self@.unbounded),
                added,
            );
        }
        entries
    }

    /// Gives the node one leaf.
    fn place(&mut self, bound: Option<K>, p: LeafPtr)
        requires
            key_laws::<K>(),
            old(self)@.shape(),
        ensures
            final(self)@.shape(),
            final(self).spec_id() == old(self).spec_id(),
            final(self)@ == (match bound {
                Some(k) => NodeModel {
                    children: with_entry(old(self)@.children, k, p),
                    ..old(self)@
                },
                None => NodeModel { unbounded: p, ..old(self)@ },
            }),
    {
        match bound {
            Some(key) => {
                self.leaves.insert(key, p);
            },
            None => {
                self.unbounded_leaf = p;
            },
        }
    }

    /// Splits itself into the given leaf nodes, and returns the bound between them. The leaves
    /// stand under clones of their bounds.
    pub fn split_leaf_node<V>(
        &self,
        low_key_leaf_node: &mut LeafNode<K>,
        high_key_leaf_node: &mut LeafNode<K>,
        arena: &LeafArena<K, V>,
    ) -> (r: Option<K>)
        requires
            key_laws::<K>(),
            arena.wf(),
            self@.shape(),
            old(low_key_leaf_node)@.shape(),
            old(high_key_leaf_node)@.shape(),
            self@.new_leaves matches Some(n) && n.low_key_leaf matches LeafPtr::At(p)
                && arena@.cells.dom().contains(p) && live(arena@.entries(p)).len() > 0,
        ensures
            final(low_key_leaf_node)@.shape(),
            final(high_key_leaf_node)@.shape(),
            final(low_key_leaf_node).spec_id() == old(low_key_leaf_node).spec_id(),
            final(high_key_leaf_node).spec_id() == old(high_key_leaf_node).spec_id(),
            ({
                let low_key_leaf = self@.new_leaves->0.low_key_leaf->At_0;
                let middle = live(arena@.entries(low_key_leaf)).last().key;
                exists|leaves: Seq<(Option<K>, LeafPtr)>|
                    {
                        &&& #[trigger] row_cloned(moved(self@, middle), leaves)
                        &&& r == middle_bound(leaves)
                        &&& final(low_key_leaf_node)@ == low_node(old(low_key_leaf_node)@, leaves)
                        &&& final(high_key_leaf_node)@ == high_node(
                            old(high_key_leaf_node)@,
                            leaves,
                        )
                    }
            }),
    {
        let new_leaves = self.new_leaves.as_ref().unwrap();
        let low_key_leaf = match new_leaves.low_key_leaf {
            LeafPtr::At(p) => p,
            LeafPtr::Null => {
                assert(false);
                0
            },
        };
        let middle_key = arena.cell(low_key_leaf).leaf.max().unwrap().0;
        let mut entries = self.moved_leaves(new_leaves, middle_key);
        let ghost leaves = entries@;
        let count = entries.len();
        let half = count / 2;
        let mut middle: Option<K> = None;
        let mut i: usize = 0;
        while i < count
            invariant
                key_laws::<K>(),
                i <= count == leaves.len(),
                entries@ == leaves.skip(i as int),
                half == leaves.len() as int / 2,
                low_key_leaf_node@.shape(),
                high_key_leaf_node@.shape(),
                low_key_leaf_node.spec_id() == old(low_key_leaf_node).spec_id(),
                high_key_leaf_node.spec_id() == old(high_key_leaf_node).spec_id(),
                i < half ==> middle is None && low_key_leaf_node@ == placed(
                    old(low_key_leaf_node)@,
                    leaves.take(i as int),
                ),
                i >= half ==> middle == middle_bound(leaves) && low_key_leaf_node@ == low_node(
                    old(low_key_leaf_node)@,
                    leaves,
                ),
                i < half ==> high_key_leaf_node@ == old(high_key_leaf_node)@,
                i >= half ==> high_key_leaf_node@ == placed(
                    old(high_key_leaf_node)@,
                    leaves.subrange(half as int, i as int),
                ),
            decreases count - i,
        {
            let (bound, p) = entries.remove(0);
            proof {
                assert(entries@ =~= leaves.skip(i + 1));
            }
            if i + 1 < half {
                proof {
                    assert(leaves.take(i + 1).drop_last() =~= leaves.take(i as int));
                    assert(leaves.take(i + 1).last() == leaves[i as int]);
                }
                low_key_leaf_node.place(bound, p);
            } else if i + 1 == half {
                middle = bound;
                low_key_leaf_node.place(None, p);
                proof {
                    assert(leaves.subrange(half as int, i + 1) =~= Seq::empty());
                    assert(leaves.take(i as int) =~= leaves.take(half - 1));
                }
            } else {
                proof {
                    let s = leaves.subrange(half as int, i + 1);
                    assert(s.drop_last() =~= leaves.subrange(half as int, i as int));
                    assert(s.last() == leaves[i as int]);
                }
                high_key_leaf_node.place(bound, p);
            }
            i = i + 1;
        }
        proof {
            assert(leaves.subrange(half as int, i as int) =~= leaves.skip(half as int));
        }
        middle
    }
}

} // verus!
