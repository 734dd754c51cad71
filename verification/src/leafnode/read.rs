//! Looking things up in a leaf node.
use crate::arena::{ArenaModel, LeafArena, LeafPtr};
use crate::error::SearchError;
use crate::leaf::{key_at, lemma_index_of, lemma_seek, live_at, seek, version};
use crate::leafnode::model::NodeModel;
use crate::leafnode::probe::{Attempt, Probe};
use crate::leafnode::routing::{lemma_cloned_alike, lemma_handle_alike};
use crate::leafnode::LeafNode;
use crate::order::{bound_cloned, key_laws};
use crate::scanner::{lemma_next_slot, next_slot, LeafScanner};
use vstd::prelude::*;

verus! {

/// The leaf with the smallest keys.
pub open spec fn first_leaf<K>(m: NodeModel<K>) -> LeafPtr {
    let i = next_slot(m.children, 0, false);
    if i < m.children.len() {
        m.children[i].value
    } else {
        m.unbounded
    }
}

/// The first leaf, from the one in slot `i` on, that has a live entry whose key is not less than
/// `k`; none if there is no such leaf before a missing one.
pub open spec fn start_leaf<K: Ord, V>(
    m: NodeModel<K>,
    arena: ArenaModel<K, V>,
    k: K,
    i: int,
) -> Option<usize>
    decreases m.children.len() - i,
{
    if i < 0 || i >= m.children.len() {
        match m.unbounded {
            LeafPtr::At(p) if seek(arena.entries(p), k, 0) < arena.entries(p).len() => Some(p),
            _ => None,
        }
    } else if m.children[i].removed {
        start_leaf(m, arena, k, i + 1)
    } else {
        match m.children[i].value {
            LeafPtr::Null => None,
            LeafPtr::At(p) => if seek(arena.entries(p), k, 0) < arena.entries(p).len() {
                Some(p)
            } else {
                start_leaf(m, arena, k, i + 1)
            },
        }
    }
}

/// The handle under the bound of the leaf that a key belongs to is the handle of that leaf.
pub proof fn lemma_slot<K: Ord + Clone>(m: NodeModel<K>, k: K)
    requires
        key_laws::<K>(),
        m.shape(),
    ensures
        m.handle(m.bound(k)) == m.slot(k),
{
    let i = seek(m.children, k, 0);
    lemma_seek(m.children, k, 0);
    if i < m.children.len() {
        lemma_handle_at(m, i);
    }
}

/// The handle under the bound in a live slot is the handle in that slot.
pub proof fn lemma_handle_at<K: Ord + Clone>(m: NodeModel<K>, i: int)
    requires
        key_laws::<K>(),
        m.shape(),
        live_at(m.children, i),
    ensures
        m.handle(Some(m.children[i].key)) == m.children[i].value,
{
    assert(key_at(m.children, m.children[i].key, i));
    lemma_index_of(m.children, m.children[i].key, i);
}

impl<K: Clone + Ord> LeafNode<K> {
    /// A clone of the bound of the leaf that a key belongs to, and the leaf.
    pub fn locate(&self, key: &K) -> (r: (Option<K>, LeafPtr))
        requires
            key_laws::<K>(),
            self@.shape(),
        ensures
            bound_cloned(self@.bound(*key), r.0),
            r.1 == self@.slot(*key),
    {
        loop
            invariant
                key_laws::<K>(),
                self@.shape(),
            decreases 0nat,
        {
            let probe = self.probe(key);
            proof {
                lemma_slot(self@, *key);
                lemma_cloned_alike(self@.bound(*key), probe.bound);
                lemma_handle_alike(self@, self@.bound(*key), probe.bound);
            }
            match self.resolve(&probe) {
                Attempt::Again => {
                    assert(false);
                },
                Attempt::Unlinked => {
                    return (probe.bound, LeafPtr::Null);
                },
                Attempt::Leaf(p) => {
                    return (probe.bound, LeafPtr::At(p));
                },
            }
        }
    }

    /// Looks a key up.
    pub fn search<'a, V>(&self, key: &K, arena: &'a LeafArena<K, V>) -> (r: Result<
        Option<&'a V>,
        SearchError,
    >)
        requires
            key_laws::<K>(),
            arena.wf(),
            self@.wf(arena@),
        ensures
            match self@.slot(*key) {
                LeafPtr::Null => r == Err::<Option<&'a V>, SearchError>(SearchError::Retry),
                LeafPtr::At(_) => r matches Ok(found) && match found {
                    Some(v) => self@.found(arena@, *key) == Some(*v),
                    None => self@.found(arena@, *key) is None,
                },
            },
    {
        let (_, child) = self.locate(key);
        proof {
            lemma_seek(self@.children, *key, 0);
        }
        match child {
            LeafPtr::Null => Err(SearchError::Retry),
            LeafPtr::At(p) => Ok(arena.cell(p).leaf.search(key)),
        }
    }

    /// A scanner over the leaf with the smallest keys.
    pub fn min<'a, V>(&self, arena: &'a LeafArena<K, V>) -> (r: Option<LeafScanner<'a, K, V>>)
        requires
            key_laws::<K>(),
            arena.wf(),
            self@.wf(arena@),
        ensures
            match first_leaf(self@) {
                LeafPtr::Null => r is None,
                LeafPtr::At(p) => r matches Some(scanner) && {
                    &&& scanner.wf()
                    &&& scanner.entries() == arena@.entries(p)
                    &&& scanner.position() == 0
                    &&& scanner.current() is None
                    &&& !scanner.includes_removed()
                },
            },
            self@.unbounded is At && (forall|i: int|
                0 <= i < self@.children.len() && !(#[trigger] self@.children[i]).removed
                    ==> self@.children[i].value is At) ==> r is Some,
    {
        proof {
            lemma_next_slot(self@.children, 0, false);
        }
        loop
            invariant
                key_laws::<K>(),
                arena.wf(),
                self@.wf(arena@),
                0 <= next_slot(self@.children, 0, false) <= self@.children.len(),
                next_slot(self@.children, 0, false) < self@.children.len() ==> live_at(
                    self@.children,
                    next_slot(self@.children, 0, false),
                ),
            decreases 0nat,
        {
            let unbounded = self.unbounded_leaf;
            let mut scanner = LeafScanner::new(&self.leaves);
            let metadata = scanner.metadata();
            let bound = match scanner.next() {
                Some((child_key, _)) => {
                    let bound = child_key.clone();
                    proof {
                        assert(cloned(*child_key, bound));
                        lemma_handle_at(self@, next_slot(self@.children, 0, false));
                        lemma_handle_alike(self@, Some(*child_key), Some(bound));
                    }
                    Some(bound)
                },
                None => None,
            };
            let probe = Probe { unbounded, bound, metadata };
            match self.resolve(&probe) {
                Attempt::Again => {
                    assert(false);
                },
                Attempt::Unlinked => {
                    return None;
                },
                Attempt::Leaf(p) => {
                    return Some(LeafScanner::new(&arena.cell(p).leaf));
                },
            }
        }
    }

    /// A scanner that starts with the entry with the smallest key that is not less than the given
    /// key.
    pub fn from<'a, V>(&self, key: &K, arena: &'a LeafArena<K, V>) -> (r: Option<
        LeafScanner<'a, K, V>,
    >)
        requires
            key_laws::<K>(),
            arena.wf(),
            self@.wf(arena@),
        ensures
            match start_leaf(self@, arena@, *key, 0) {
                None => r is None,
                Some(p) => r matches Some(scanner) && {
                    &&& scanner.wf()
                    &&& scanner.entries() == arena@.entries(p)
                    &&& scanner.position() == seek(arena@.entries(p), *key, 0)
                    &&& scanner.current() is None
                    &&& !scanner.includes_removed()
                },
            },
    {
        loop
            invariant
                key_laws::<K>(),
                arena.wf(),
                self@.wf(arena@),
            decreases 0nat,
        {
            let unbounded = self.unbounded_leaf;
            let metadata = self.leaves.metadata();
            let mut retry = false;
            let mut i: usize = 0;
            while i < self.leaves.used() && !retry
                invariant
                    key_laws::<K>(),
                    arena.wf(),
                    self@.wf(arena@),
                    i <= self@.children.len(),
                    self.leaves@ == self@.children,
                    unbounded == self@.unbounded,
                    metadata == version(self@.children),
                    start_leaf(self@, arena@, *key, 0) == start_leaf(
                        self@,
                        arena@,
                        *key,
                        i as int,
                    ),
                    !retry,
                decreases self@.children.len() - i,
            {
                let child = self.leaves.entry(i);
                if !child.removed {
                    let bound = child.key.clone();
                    proof {
                        assert(cloned(child.key, bound));
                        lemma_handle_at(self@, i as int);
                        lemma_handle_alike(self@, Some(child.key), Some(bound));
                    }
                    let probe = Probe { unbounded, bound: Some(bound), metadata };
                    match self.resolve(&probe) {
                        Attempt::Again => {
                            assert(false);
                            retry = true;
                        },
                        Attempt::Unlinked => {
                            return None;
                        },
                        Attempt::Leaf(p) => {
                            let scanner = LeafScanner::from(&arena.cell(p).leaf, key);
                            if scanner.is_some() {
                                return scanner;
                            }
                            // The leaf has nothing to offer: it may have been split by now.
                            if !self.leaves.validate(metadata) {
                                assert(false);
                                retry = true;
                            }
                        },
                    }
                }
                i = i + 1;
            }
            if !retry {
                let probe = Probe { unbounded, bound: None, metadata };
                match self.resolve(&probe) {
                    Attempt::Again => {
                        assert(false);
                    },
                    Attempt::Unlinked => {
                        return None;
                    },
                    Attempt::Leaf(p) => {
                        return LeafScanner::from(&arena.cell(p).leaf, key);
                    },
                }
            }
        }
    }
}

} // verus!
