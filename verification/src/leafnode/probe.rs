//! Reading a leaf node that others may be changing.
//!
//! A reader notes the version of the array of leaves and the bound of the leaf it is after, loads
//! the handle of that leaf, and then checks the version again. Without the check it could miss
//! keys: a writer that splits a leaf first adds the low-key leaf to the array and then puts the
//! high-key leaf in the place of the full one, so a reader with the old bound and the new handle
//! would look for a low key in the high-key leaf.
use crate::arena::{ArenaModel, LeafPtr};
use crate::leaf::laws::{lemma_lookup_with_entry, lemma_version};
use crate::leaf::{
    count_removed, holds, index_of, key_at, lemma_seek, lemma_with_entry, lemma_without_key, live,
    version, with_entry, with_value, without_key, Entry, Metadata,
};
use crate::leafnode::model::NodeModel;
use crate::leafnode::routing::{
    lemma_bound_held, lemma_cloned_alike, lemma_handle_alike, lemma_seek_same,
};
use crate::leafnode::split::{lemma_handle_owned, split_high, splits, two_leaves};
use crate::leafnode::LeafNode;
use crate::order::{bound_cloned, key_laws, lt, same};
use vstd::prelude::*;

verus! {

/// What a reader notes before it loads the handle of a leaf.
pub struct Probe<K> {
    /// The handle of the unbounded leaf.
    pub unbounded: LeafPtr,
    /// The bound of the leaf to load; none for the unbounded leaf.
    pub bound: Option<K>,
    /// The version of the array of leaves.
    pub metadata: Metadata,
}

/// What comes of an attempt to get at a leaf.
#[derive(Clone, Copy, PartialEq, Eq, Structural, Debug)]
pub enum Attempt {
    /// The node was changed in the meantime: start over.
    Again,
    /// The node is bound to be freed.
    Unlinked,
    /// The leaf.
    Leaf(usize),
}

/// What comes of an attempt, given the handle that was loaded and the version that the array had
/// after that.
pub open spec fn settled<K>(probe: Probe<K>, loaded: LeafPtr, now: Metadata) -> Attempt {
    if now != probe.metadata || (probe.bound is None && loaded != probe.unbounded) {
        Attempt::Again
    } else {
        match loaded {
            LeafPtr::Null => Attempt::Unlinked,
            LeafPtr::At(p) => Attempt::Leaf(p),
        }
    }
}

impl<K> Probe<K> {
    /// Decides what comes of the attempt.
    pub fn settle(&self, loaded: LeafPtr, now: Metadata) -> (r: Attempt)
        ensures
            r == settled(*self, loaded, now),
    {
        if now != self.metadata {
            return Attempt::Again;
        }
        if self.bound.is_none() && loaded != self.unbounded {
            return Attempt::Again;
        }
        match loaded {
            LeafPtr::Null => Attempt::Unlinked,
            LeafPtr::At(p) => Attempt::Leaf(p),
        }
    }
}

impl<K: Clone + Ord> LeafNode<K> {
    /// Starts an attempt to get at the leaf that a key belongs to.
    pub fn probe(&self, key: &K) -> (probe: Probe<K>)
        requires
            key_laws::<K>(),
            self@.shape(),
        ensures
            probe.unbounded == self@.unbounded,
            bound_cloned(self@.bound(*key), probe.bound),
            probe.metadata == version(self@.children),
    {
        let unbounded = self.unbounded_leaf;
        let (child, metadata) = self.leaves.min_greater_equal(key);
        let bound = match child {
            Some((child_key, _)) => {
                let bound = child_key.clone();
                proof {
                    assert(cloned(*child_key, bound));
                }
                Some(bound)
            },
            None => None,
        };
        Probe { unbounded, bound, metadata }
    }

    /// Loads the handle that an attempt is after.
    pub fn load(&self, probe: &Probe<K>) -> (loaded: LeafPtr)
        requires
            key_laws::<K>(),
            self@.shape(),
        ensures
            loaded == self@.handle(probe.bound),
    {
        self.handle(&probe.bound)
    }

    /// Ends an attempt: loads the handle, and checks that the array has kept its version.
    pub fn resolve(&self, probe: &Probe<K>) -> (r: Attempt)
        requires
            key_laws::<K>(),
            self@.shape(),
        ensures
            r == settled(*probe, self@.handle(probe.bound), version(self@.children)),
    {
        let loaded = self.load(probe);
        probe.settle(loaded, self.leaves.metadata())
    }
}

// ---------------------------------------------------------------------------------------------
// Attempts on a node that is being changed
// ---------------------------------------------------------------------------------------------
/// A single change of the leaves of a node.
pub enum Change<K> {
    /// A leaf is added under a bound.
    Add(K, LeafPtr),
    /// A bound is removed.
    Remove(K),
    /// The handle under a bound, or that of the unbounded leaf, is replaced.
    Replace(Option<K>, LeafPtr),
}

/// The node after a change; a change that is refused changes nothing.
pub open spec fn changed<K: Ord>(m: NodeModel<K>, c: Change<K>) -> NodeModel<K> {
    match c {
        Change::Add(k, p) => NodeModel { children: with_entry(m.children, k, p), ..m },
        Change::Remove(k) => NodeModel { children: without_key(m.children, k), ..m },
        Change::Replace(Some(k), p) => if holds(m.children, k) {
            m.with_handle(Some(k), p)
        } else {
            m
        },
        Change::Replace(None, p) => m.with_handle(None, p),
    }
}

/// The node after a run of changes.
pub open spec fn changed_by<K: Ord>(m: NodeModel<K>, run: Seq<Change<K>>) -> NodeModel<K>
    decreases run.len(),
{
    if run.len() == 0 {
        m
    } else {
        changed(changed_by(m, run.drop_last()), run.last())
    }
}

/// The two arrays have the same bounds in the same slots.
pub open spec fn same_bounds<K>(s: Seq<Entry<K, LeafPtr>>, t: Seq<Entry<K, LeafPtr>>) -> bool {
    &&& s.len() == t.len()
    &&& forall|i: int|
        0 <= i < s.len() ==> (#[trigger] t[i]).key == s[i].key && t[i].removed == s[i].removed
}

/// A change keeps the array in order, and keeps its bounds if it keeps its version.
pub proof fn lemma_changed<K: Ord + Clone>(m: NodeModel<K>, c: Change<K>)
    requires
        key_laws::<K>(),
        m.shape(),
    ensures
        changed(m, c).shape(),
        version(m.children).used <= version(changed(m, c).children).used,
        version(m.children).removed <= version(changed(m, c).children).removed,
        version(m.children) == version(changed(m, c).children) ==> same_bounds(
            m.children,
            changed(m, c).children,
        ),
{
    let s = m.children;
    match c {
        Change::Add(k, p) => {
            lemma_with_entry(s, k, p);
            lemma_version(s, k, p);
        },
        Change::Remove(k) => {
            lemma_without_key(s, k);
            lemma_version(s, k, LeafPtr::Null);
        },
        Change::Replace(Some(k), p) => {
            if holds(s, k) {
                let n = index_of(s, k);
                assert(key_at(s, k, n));
                let t = with_value(s, n, p);
                lemma_count_removed_same(s, t);
                assert forall|i: int, j: int| 0 <= i < j < t.len() implies lt(
                    (#[trigger] t[i]).key,
                    (#[trigger] t[j]).key,
                ) || (same(t[i].key, t[j].key) && t[i].removed) by {
                    assert(lt(s[i].key, s[j].key) || (same(s[i].key, s[j].key) && s[i].removed));
                }
            }
        },
        Change::Replace(None, p) => {},
    }
}

/// Arrays with the same bounds have the same number of removed ones.
pub proof fn lemma_count_removed_same<K>(s: Seq<Entry<K, LeafPtr>>, t: Seq<Entry<K, LeafPtr>>)
    requires
        same_bounds(s, t),
    ensures
        count_removed(s) == count_removed(t),
    decreases s.len(),
{
    if s.len() > 0 {
        assert(t[s.len() - 1].removed == s[s.len() - 1].removed);
        assert forall|i: int| 0 <= i < s.drop_last().len() implies (#[trigger] t.drop_last()[i]).key
            == s.drop_last()[i].key && t.drop_last()[i].removed == s.drop_last()[i].removed by {
            assert(t[i].key == s[i].key);
        }
        lemma_count_removed_same(s.drop_last(), t.drop_last());
    }
}

/// A run of changes keeps the array in order, and keeps its bounds if it keeps its version.
proof fn lemma_changed_by<K: Ord + Clone>(m: NodeModel<K>, run: Seq<Change<K>>)
    requires
        key_laws::<K>(),
        m.shape(),
    ensures
        changed_by(m, run).shape(),
        version(m.children).used <= version(changed_by(m, run).children).used,
        version(m.children).removed <= version(changed_by(m, run).children).removed,
        version(m.children) == version(changed_by(m, run).children) ==> same_bounds(
            m.children,
            changed_by(m, run).children,
        ),
    decreases run.len(),
{
    if run.len() > 0 {
        lemma_changed_by(m, run.drop_last());
        let n = changed_by(m, run.drop_last());
        lemma_changed(n, run.last());
        let r = changed(n, run.last());
        if version(m.children) == version(r.children) {
            assert forall|i: int| 0 <= i < m.children.len() implies (#[trigger] r.children[i]).key
                == m.children[i].key && r.children[i].removed == m.children[i].removed by {
                assert(n.children[i].key == m.children[i].key);
            }
        }
    }
}

/// An attempt that is not told to start over has got the leaf that the key belonged to at the
/// moment when the handle was loaded, whatever others did to the node before and after that.
///
/// The node is `m` when the attempt starts, others then change it by `before`, the handle is
/// loaded, they change it by `after`, and the version is checked. `bound` is the bound that the
/// attempt noted, a clone of the one that it found.
pub proof fn law_attempt<K: Ord + Clone>(
    m: NodeModel<K>,
    key: K,
    bound: Option<K>,
    before: Seq<Change<K>>,
    after: Seq<Change<K>>,
)
    requires
        key_laws::<K>(),
        m.shape(),
        bound_cloned(m.bound(key), bound),
    ensures
        ({
            let probe = Probe {
                unbounded: m.unbounded,
                bound,
                metadata: version(m.children),
            };
            let at_load = changed_by(m, before);
            let at_check = changed_by(at_load, after);
            match settled(probe, at_load.handle(probe.bound), version(at_check.children)) {
                Attempt::Leaf(p) => at_load.slot(key) == LeafPtr::At(p),
                Attempt::Unlinked => at_load.slot(key) is Null,
                Attempt::Again => before.len() + after.len() > 0,
            }
        }),
{
    let at_load = changed_by(m, before);
    let at_check = changed_by(at_load, after);
    lemma_changed_by(m, before);
    lemma_changed_by(at_load, after);
    lemma_bound_held(m, key);
    lemma_bound_held(at_load, key);
    lemma_cloned_alike(m.bound(key), bound);
    lemma_handle_alike(m, m.bound(key), bound);
    lemma_handle_alike(at_load, m.bound(key), bound);
    if version(at_check.children) == version(m.children) {
        lemma_seek_same(m.children, at_load.children, key, 0);
        lemma_seek(m.children, key, 0);
    }
}

/// An attempt has to start over exactly if the version of the array has changed, or if it is after
/// the unbounded leaf and that one has been replaced since the attempt began. Otherwise it has got
/// the leaf that was loaded; without one the node is bound to be freed.
pub proof fn law_settled<K>(probe: Probe<K>, loaded: LeafPtr, now: Metadata)
    ensures
        ({
            let stale = now.used != probe.metadata.used || now.removed != probe.metadata.removed;
            let replaced = probe.bound is None && loaded != probe.unbounded;
            let r = settled(probe, loaded, now);
            &&& r is Again <==> stale || replaced
            &&& r is Unlinked <==> !stale && !replaced && loaded is Null
            &&& r matches Attempt::Leaf(p) ==> loaded == LeafPtr::At(p)
        }),
{
}

/// The changes by which a split puts two leaves in the place of one.
pub open spec fn split_changes<K>(
    max: K,
    low: LeafPtr,
    bound: Option<K>,
    high: LeafPtr,
) -> Seq<Change<K>> {
    seq![Change::Add(max, low), Change::Replace(bound, high)]
}

/// A split changes the node as readers expect: the low-key leaf is added, under a clone of its last
/// key, before the high-key leaf takes the place of the full one.
pub proof fn law_split_run<K: Ord + Clone, V: Clone>(
    m: NodeModel<K>,
    a: ArenaModel<K, V>,
    k: K,
    v: V,
    bound: Option<K>,
    full: usize,
    m2: NodeModel<K>,
    a2: ArenaModel<K, V>,
)
    requires
        key_laws::<K>(),
        m.shape(),
        splits(m, a, k, v, bound, full, Ok(()), m2, a2),
    ensures
        ({
            let all = live(a.entries(full));
            let low = LeafPtr::At(a.next as usize);
            let high = LeafPtr::At((a.next + 1) as usize);
            if split_high(all, k, v).len() == 0 {
                m2 == changed_by(m, seq![Change::Replace(bound, low)])
            } else {
                exists|max: K|
                    cloned(a2.entries(low->At_0).last().key, max) && m2 == changed_by(
                        m,
                        #[trigger] split_changes(max, low, bound, high),
                    )
            }
        }),
{
    let all = live(a.entries(full));
    let low = LeafPtr::At(a.next as usize);
    let high = LeafPtr::At((a.next + 1) as usize);
    lemma_handle_owned(m, bound, full);
    if split_high(all, k, v).len() == 0 {
        let run = seq![Change::Replace(bound, low)];
        assert(run.drop_last() =~= Seq::empty());
        assert(changed_by(m, run.drop_last()) == m);
    } else {
        let max = choose|max: K|
            cloned(a2.entries(low->At_0).last().key, max) && m2 == #[trigger] two_leaves(
                m,
                bound,
                max,
                low->At_0,
                high->At_0,
            );
        let first = Change::Add(max, low);
        let run = split_changes(max, low, bound, high);
        assert(run.drop_last() =~= seq![first]);
        assert(seq![first].drop_last() =~= Seq::empty());
        assert(changed_by(m, seq![first].drop_last()) == m);
        let m1 = changed(m, first);
        assert(changed_by(m, seq![first]) == m1);
        if let Some(b) = bound {
            lemma_lookup_with_entry(m.children, max, low, b);
            assert(holds(m1.children, b));
        }
    }
}

} // verus!
