//! The arena that leaves live in.
//!
//! Leaves point at each other and leaf nodes point at leaves by handles. All leaves of an index
//! form a doubly linked list in key order. A leaf that is discarded leaves the list at once, but
//! stays readable until the arena is told to reclaim its memory.
use crate::leaf::{
    accepts, entries_wf, holds, is_full, is_obsolete, lemma_with_entry, lemma_without_key,
    with_entry, without_key, Entry, Leaf,
};
use crate::order::key_laws;
use vstd::prelude::*;

verus! {

/// A handle on a leaf, or none.
#[derive(Clone, Copy, PartialEq, Eq, Structural, Debug)]
pub enum LeafPtr {
    Null,
    At(usize),
}

impl LeafPtr {
    /// Whether there is no leaf.
    pub fn is_null(&self) -> (b: bool)
        ensures
            b == (*self is Null),
    {
        match self {
            LeafPtr::Null => true,
            LeafPtr::At(_) => false,
        }
    }
}

/// A leaf and its neighbours.
#[derive(Clone)]
pub struct LeafCell<K, V> {
    pub leaf: Leaf<K, V>,
    /// The leaf with the next greater keys.
    pub forward: LeafPtr,
    /// The leaf with the next smaller keys.
    pub backward: LeafPtr,
}

/// What a cell of the arena holds.
pub struct CellModel<K, V> {
    pub entries: Seq<Entry<K, V>>,
    pub forward: LeafPtr,
    pub backward: LeafPtr,
}

impl<K, V> View for LeafCell<K, V> {
    type V = CellModel<K, V>;

    open spec fn view(&self) -> CellModel<K, V> {
        CellModel { entries: self.leaf@, forward: self.forward, backward: self.backward }
    }
}

/// What an arena holds.
#[verifier::ext_equal]
pub struct ArenaModel<K, V> {
    /// The leaves by their handles.
    pub cells: Map<usize, CellModel<K, V>>,
    /// The leaves that were discarded and not reclaimed yet.
    pub retired: Set<usize>,
    /// The number of identifiers given out.
    pub next: nat,
}

impl<K, V> ArenaModel<K, V> {
    /// The handle leads to a leaf that was not discarded.
    pub open spec fn active(self, p: usize) -> bool {
        self.cells.dom().contains(p) && !self.retired.contains(p)
    }

    /// The handle is null, or leads to a leaf that was not discarded.
    pub open spec fn sound(self, p: LeafPtr) -> bool {
        p matches LeafPtr::At(i) ==> self.active(i)
    }

    /// The handle is null or leads to a leaf, discarded or not.
    pub open spec fn readable(self, p: LeafPtr) -> bool {
        p matches LeafPtr::At(i) ==> self.cells.dom().contains(i)
    }

    /// The entries of a leaf.
    pub open spec fn entries(self, p: usize) -> Seq<Entry<K, V>> {
        self.cells[p].entries
    }

    /// The links of a leaf lead to leaves, and to active ones that link back if it is active.
    pub open spec fn linked(self, p: usize) -> bool {
        let c = self.cells[p];
        &&& self.readable(c.forward)
        &&& self.readable(c.backward)
        &&& self.active(p) ==> {
            &&& c.forward matches LeafPtr::At(q) ==> self.active(q) && self.cells[q].backward
                == LeafPtr::At(p)
            &&& c.backward matches LeafPtr::At(q) ==> self.active(q) && self.cells[q].forward
                == LeafPtr::At(p)
        }
    }

    /// Active leaves stand in the order of `f`: links lead forward in it.
    pub open spec fn in_line(self, f: spec_fn(usize) -> int) -> bool {
        forall|p: usize| #[trigger]
            self.active(p) ==> (self.cells[p].forward matches LeafPtr::At(q) ==> f(p) < f(q))
    }

    /// The links of active leaves do not lead in a circle.
    pub open spec fn acyclic(self) -> bool {
        exists|f: spec_fn(usize) -> int| self.in_line(f)
    }

    /// The forward link of a leaf, replaced.
    pub open spec fn with_forward(self, p: usize, to: LeafPtr) -> ArenaModel<K, V> {
        ArenaModel {
            cells: self.cells.insert(p, CellModel { forward: to, ..self.cells[p] }),
            ..self
        }
    }

    /// The backward link of a leaf, replaced.
    pub open spec fn with_backward(self, p: usize, to: LeafPtr) -> ArenaModel<K, V> {
        ArenaModel {
            cells: self.cells.insert(p, CellModel { backward: to, ..self.cells[p] }),
            ..self
        }
    }

    /// The entries of a leaf, replaced.
    pub open spec fn with_entries(self, p: usize, s: Seq<Entry<K, V>>) -> ArenaModel<K, V> {
        ArenaModel {
            cells: self.cells.insert(p, CellModel { entries: s, ..self.cells[p] }),
            ..self
        }
    }

    /// A new leaf, outside the list.
    pub open spec fn allocated(self, s: Seq<Entry<K, V>>) -> ArenaModel<K, V> {
        ArenaModel {
            cells: self.cells.insert(
                self.next as usize,
                CellModel { entries: s, forward: LeafPtr::Null, backward: LeafPtr::Null },
            ),
            next: self.next + 1,
            ..self
        }
    }

    /// The leaf `p`, put into the list right before `at`.
    pub open spec fn linked_before(self, at: usize, p: usize) -> ArenaModel<K, V> {
        let prev = self.cells[at].backward;
        let a = self.with_backward(p, prev).with_forward(p, LeafPtr::At(at));
        let b = match prev {
            LeafPtr::At(q) => a.with_forward(q, LeafPtr::At(p)),
            LeafPtr::Null => a,
        };
        b.with_backward(at, LeafPtr::At(p))
    }

    /// The leaf `p`, taken out of the list and discarded.
    pub open spec fn discarded(self, p: usize) -> ArenaModel<K, V> {
        let c = self.cells[p];
        let a = match c.backward {
            LeafPtr::At(q) => self.with_forward(q, c.forward),
            LeafPtr::Null => self,
        };
        let b = match c.forward {
            LeafPtr::At(q) => a.with_backward(q, c.backward),
            LeafPtr::Null => a,
        };
        ArenaModel { retired: self.retired.insert(p), ..b }
    }

    /// The discarded leaves, gone.
    pub open spec fn reclaimed(self) -> ArenaModel<K, V> {
        ArenaModel {
            cells: self.cells.remove_keys(self.retired),
            retired: Set::empty(),
            ..self
        }
    }
}

impl<K: Ord, V> ArenaModel<K, V> {
    /// Every leaf is well-formed, and the active ones form doubly linked lists without circles.
    pub open spec fn wf(self) -> bool {
        &&& self.next <= usize::MAX
        &&& forall|p: usize| #[trigger]
            self.cells.dom().contains(p) ==> p < self.next && entries_wf(self.entries(p))
                && self.linked(p)
        &&& forall|p: usize| #[trigger]
            self.retired.contains(p) ==> self.cells.dom().contains(p)
        &&& self.acyclic()
    }
}

/// The leaves of an index.
#[derive(Clone)]
pub struct LeafArena<K, V> {
    cells: Vec<Option<LeafCell<K, V>>>,
    retired: Vec<usize>,
}

impl<K, V> View for LeafArena<K, V> {
    type V = ArenaModel<K, V>;

    closed spec fn view(&self) -> ArenaModel<K, V> {
        ArenaModel {
            cells: Map::new(
                |p: usize| p < self.cells@.len() && self.cells@[p as int] is Some,
                |p: usize| self.cells@[p as int]->0@,
            ),
            retired: self.retired@.to_set(),
            next: self.cells@.len(),
        }
    }
}

impl<K: Clone + Ord, V> LeafArena<K, V> {
    /// The arena is in order.
    pub open spec fn wf(self) -> bool {
        self@.wf()
    }

    /// An arena without leaves.
    pub fn new() -> (arena: Self)
        ensures
            arena.wf(),
            arena@ == (ArenaModel::<K, V> { cells: Map::empty(), retired: Set::empty(), next: 0 }),
    {
        let arena = LeafArena { cells: Vec::new(), retired: Vec::new() };
        proof {
            assert(arena@.cells =~= Map::empty());
            assert(arena@.retired =~= Set::empty());
            assert(arena@.in_line(|p: usize| 0));
        }
        arena
    }

    /// An identifier that no leaf and no node has.
    pub fn reserve(&mut self) -> (id: usize)
        requires
            old(self).wf(),
        ensures
            final(self).wf(),
            id == old(self)@.next,
            final(self)@ == (ArenaModel { next: old(self)@.next + 1, ..old(self)@ }),
    {
        let id = self.cells.len();
        self.cells.push(None);
        proof {
            assert(self.cells.len() == self.cells@.len());
            assert(self@.cells =~= old(self)@.cells);
            assert(self@ =~= (ArenaModel { next: old(self)@.next + 1, ..old(self)@ }));
            lemma_same_line(old(self)@, self@);
        }
        id
    }

    /// Takes in a new leaf, outside the list.
    pub fn adopt(&mut self, leaf: Leaf<K, V>) -> (id: usize)
        requires
            old(self).wf(),
            leaf.wf(),
        ensures
            final(self).wf(),
            id == old(self)@.next,
            final(self)@ == old(self)@.allocated(leaf@),
    {
        let id = self.cells.len();
        let cell = LeafCell { leaf, forward: LeafPtr::Null, backward: LeafPtr::Null };
        self.cells.push(Some(cell));
        proof {
            assert(self.cells.len() == self.cells@.len());
            assert(self@.cells =~= old(self)@.allocated(leaf@).cells);
            lemma_allocated(old(self)@, leaf@);
        }
        id
    }

    /// The cell that a handle leads to.
    pub fn cell(&self, id: usize) -> (cell: &LeafCell<K, V>)
        requires
            self.wf(),
            self@.cells.dom().contains(id),
        ensures
            cell@ == self@.cells[id],
            cell.leaf.wf(),
    {
        self.cells[id].as_ref().unwrap()
    }

    /// Adds an entry to a leaf.
    pub fn leaf_insert(&mut self, id: usize, key: K, value: V) -> (r: Option<((K, V), bool)>)
        requires
            key_laws::<K>(),
            old(self).wf(),
            old(self)@.cells.dom().contains(id),
        ensures
            final(self).wf(),
            final(self)@ == old(self)@.with_entries(
                id,
                with_entry(old(self)@.entries(id), key, value),
            ),
            r is None <==> accepts(old(self)@.entries(id), key),
            r matches Some((e, duplicated)) ==> e == (key, value) && duplicated == holds(
                old(self)@.entries(id),
                key,
            ),
    {
        let cell = self.cells[id].as_mut().unwrap();
        let r = cell.leaf.insert(key, value);
        proof {
            assert(self@.cells =~= old(self)@.with_entries(
                id,
                with_entry(old(self)@.entries(id), key, value),
            ).cells);
            lemma_with_entry(old(self)@.entries(id), key, value);
            lemma_with_entries(
                old(self)@,
                id,
                with_entry(old(self)@.entries(id), key, value),
            );
        }
        r
    }

    /// Removes an entry from a leaf.
    pub fn leaf_remove(&mut self, id: usize, key: &K) -> (r: (bool, bool, bool))
        requires
            key_laws::<K>(),
            old(self).wf(),
            old(self)@.cells.dom().contains(id),
        ensures
            final(self).wf(),
            final(self)@ == old(self)@.with_entries(
                id,
                without_key(old(self)@.entries(id), *key),
            ),
            r.0 == holds(old(self)@.entries(id), *key),
            r.1 == is_full(final(self)@.entries(id)),
            r.2 == is_obsolete(final(self)@.entries(id)),
    {
        let cell = self.cells[id].as_mut().unwrap();
        let r = cell.leaf.remove(key);
        proof {
            assert(self@.cells =~= old(self)@.with_entries(
                id,
                without_key(old(self)@.entries(id), *key),
            ).cells);
            lemma_without_key(old(self)@.entries(id), *key);
            lemma_with_entries(old(self)@, id, without_key(old(self)@.entries(id), *key));
        }
        r
    }

    fn set_forward(&mut self, id: usize, to: LeafPtr)
        requires
            old(self)@.cells.dom().contains(id),
        ensures
            final(self)@ == old(self)@.with_forward(id, to),
    {
        let cell = self.cells[id].as_mut().unwrap();
        cell.forward = to;
        proof {
            assert(self@.cells =~= old(self)@.with_forward(id, to).cells);
        }
    }

    fn set_backward(&mut self, id: usize, to: LeafPtr)
        requires
            old(self)@.cells.dom().contains(id),
        ensures
            final(self)@ == old(self)@.with_backward(id, to),
    {
        let cell = self.cells[id].as_mut().unwrap();
        cell.backward = to;
        proof {
            assert(self@.cells =~= old(self)@.with_backward(id, to).cells);
        }
    }

    /// Puts a leaf that is in no list right before another one.
    pub fn push_front(&mut self, at: usize, id: usize)
        requires
            old(self).wf(),
            old(self)@.active(at),
            old(self)@.active(id),
            at != id,
            old(self)@.cells[id].forward is Null,
            old(self)@.cells[id].backward is Null,
        ensures
            final(self).wf(),
            final(self)@ == old(self)@.linked_before(at, id),
    {
        proof {
            lemma_linked_before(self@, at, id);
        }
        let prev = self.cell(at).backward;
        self.set_backward(id, prev);
        self.set_forward(id, LeafPtr::At(at));
        match prev {
            LeafPtr::At(q) => self.set_forward(q, LeafPtr::At(id)),
            LeafPtr::Null => {},
        }
        self.set_backward(at, LeafPtr::At(id));
    }

    /// Takes a leaf out of the list and hands it over for destruction.
    pub fn discard(&mut self, id: usize)
        requires
            old(self).wf(),
            old(self)@.active(id),
        ensures
            final(self).wf(),
            final(self)@ == old(self)@.discarded(id),
    {
        proof {
            lemma_discarded(self@, id);
        }
        let forward = self.cell(id).forward;
        let backward = self.cell(id).backward;
        match backward {
            LeafPtr::At(q) => self.set_forward(q, forward),
            LeafPtr::Null => {},
        }
        match forward {
            LeafPtr::At(q) => self.set_backward(q, backward),
            LeafPtr::Null => {},
        }
        let ghost before = self@;
        self.retired.push(id);
        proof {
            assert(self@.retired =~= before.retired.insert(id)) by {
                broadcast use vstd::seq_lib::group_seq_properties;
                let old_retired = self.retired@.drop_last();
                assert(self.retired@ =~= old_retired.push(id));
                assert forall|p: usize|
                    self.retired@.to_set().contains(p) <==> old_retired.to_set().contains(p) || p
                        == id by {
                    if self.retired@.contains(p) {
                        let i = choose|i: int|
                            0 <= i < self.retired@.len() && self.retired@[i] == p;
                        if i < old_retired.len() {
                            assert(old_retired[i] == p);
                        }
                    }
                    if old_retired.contains(p) {
                        let i = choose|i: int| 0 <= i < old_retired.len() && old_retired[i] == p;
                        assert(self.retired@[i] == p);
                    }
                    assert(self.retired@[self.retired@.len() - 1] == id);
                }
            }
            assert(self@.cells =~= before.cells);
        }
    }

    /// Frees the discarded leaves.
    pub fn reclaim(&mut self)
        requires
            old(self).wf(),
        ensures
            final(self).wf(),
            final(self)@ == old(self)@.reclaimed(),
    {
        proof {
            lemma_reclaimed(self@);
        }
        let mut i: usize = 0;
        while i < self.retired.len()
            invariant
                i <= self.retired@.len(),
                self.retired@ == old(self).retired@,
                self.cells@.len() == old(self).cells@.len(),
                old(self).wf(),
                forall|p: usize|
                    #![trigger self@.cells.dom().contains(p)]
                    self@.cells.dom().contains(p) <==> old(self)@.cells.dom().contains(p)
                        && !self.retired@.take(i as int).contains(p),
                forall|p: usize| #[trigger]
                    self@.cells.dom().contains(p) ==> self@.cells[p] == old(self)@.cells[p],
            decreases self.retired@.len() - i,
        {
            let id = self.retired[i];
            let ghost before = *self;
            proof {
                assert(old(self).retired@.contains(id));
                assert(old(self)@.retired.contains(id));
            }
            self.cells[id] = None;
            proof {
                let done = self.retired@.take(i as int);
                assert(self.retired@.take(i + 1) =~= done.push(id));
                assert forall|p: usize|
                    self.retired@.take(i + 1).contains(p) <==> done.contains(p) || p == id by {
                    broadcast use vstd::seq_lib::group_seq_properties;
                    if done.contains(p) {
                        let j = choose|j: int| 0 <= j < done.len() && done[j] == p;
                        assert(done.push(id)[j] == p);
                    }
                    assert(done.push(id)[done.len() as int] == id);
                }
                assert forall|p: usize| #[trigger]
                    self@.cells.dom().contains(p) <==> before@.cells.dom().contains(p) && p
                        != id by {}
                assert forall|p: usize| #[trigger]
                    self@.cells.dom().contains(p) implies self@.cells[p]
                    == before@.cells[p] by {}
            }
            i = i + 1;
        }
        proof {
            assert(self.retired@.take(i as int) =~= self.retired@);
        }
        let ghost swept = self@;
        self.retired.clear();
        proof {
            assert(self@.cells =~= swept.cells);
            assert forall|p: usize| #[trigger] swept.cells.dom().contains(p) <==> old(
                self,
            )@.reclaimed().cells.dom().contains(p) by {}
            assert(self@.cells =~= old(self)@.reclaimed().cells);
            assert(self@.retired =~= Set::empty());
        }
    }
}

// ---------------------------------------------------------------------------------------------
// The operations keep the arena in order
// ---------------------------------------------------------------------------------------------
/// Links that did not change, or were lost, do not lead in a circle.
proof fn lemma_same_line<K, V>(m: ArenaModel<K, V>, n: ArenaModel<K, V>)
    requires
        m.acyclic(),
        forall|p: usize| #[trigger]
            n.active(p) ==> n.cells[p].forward is Null || (m.active(p) && n.cells[p].forward
                == m.cells[p].forward),
    ensures
        n.acyclic(),
{
    let f = choose|f: spec_fn(usize) -> int| m.in_line(f);
    assert(n.in_line(f)) by {
        assert forall|p: usize| #[trigger] n.active(p) implies (
        n.cells[p].forward matches LeafPtr::At(q) ==> f(p) < f(q)) by {
            if n.cells[p].forward is At {
                assert(m.active(p));
            }
        }
    }
}

/// A new leaf keeps the arena in order.
pub proof fn lemma_allocated<K: Ord, V>(m: ArenaModel<K, V>, s: Seq<Entry<K, V>>)
    requires
        m.wf(),
        entries_wf(s),
        m.next < usize::MAX,
    ensures
        m.allocated(s).wf(),
        !m.cells.dom().contains(m.next as usize),
        m.allocated(s).active(m.next as usize),
{
    let n = m.allocated(s);
    let id = m.next as usize;
    assert(!m.cells.dom().contains(id));
    assert(!m.retired.contains(id));
    assert forall|p: usize| #[trigger] n.cells.dom().contains(p) implies p < n.next && entries_wf(
        n.entries(p),
    ) && n.linked(p) by {
        if p != id {
            assert(m.cells.dom().contains(p));
            assert(m.linked(p));
        }
    }
    lemma_same_line(m, n);
}

/// Changing the entries of a leaf keeps the arena in order.
pub proof fn lemma_with_entries<K: Ord, V>(m: ArenaModel<K, V>, id: usize, s: Seq<Entry<K, V>>)
    requires
        m.wf(),
        m.cells.dom().contains(id),
        entries_wf(s),
    ensures
        m.with_entries(id, s).wf(),
{
    let n = m.with_entries(id, s);
    assert forall|p: usize| #[trigger] n.cells.dom().contains(p) implies p < n.next && entries_wf(
        n.entries(p),
    ) && n.linked(p) by {
        assert(m.cells.dom().contains(p));
        assert(m.linked(p));
    }
    lemma_same_line(m, n);
}

/// Putting a leaf into the list keeps the arena in order and changes links only.
pub proof fn lemma_linked_before<K: Ord, V>(m: ArenaModel<K, V>, at: usize, id: usize)
    requires
        m.wf(),
        m.active(at),
        m.active(id),
        at != id,
        m.cells[id].forward is Null,
        m.cells[id].backward is Null,
    ensures
        m.linked_before(at, id).wf(),
        m.linked_before(at, id).cells.dom() == m.cells.dom(),
        m.linked_before(at, id).retired == m.retired,
        m.linked_before(at, id).next == m.next,
        forall|p: usize| #[trigger] m.linked_before(at, id).entries(p) == m.entries(p),
{
    let n = m.linked_before(at, id);
    assert(m.linked(at));
    assert(n.cells.dom() =~= m.cells.dom());
    assert forall|p: usize| #[trigger] n.cells.dom().contains(p) implies p < n.next && entries_wf(
        n.entries(p),
    ) && n.linked(p) by {
        assert(m.cells.dom().contains(p));
        assert(m.linked(p));
    }
    // Make room in the order right before the leaf.
    let f = choose|f: spec_fn(usize) -> int| m.in_line(f);
    let g = |p: usize|
        if p == id {
            2 * f(at) - 1
        } else {
            2 * f(p)
        };
    assert(n.in_line(g)) by {
        assert forall|p: usize| #[trigger] n.active(p) implies (
        n.cells[p].forward matches LeafPtr::At(q) ==> g(p) < g(q)) by {
            assert(m.active(p));
            assert(m.linked(p));
            if let LeafPtr::At(q) = m.cells[p].forward {
                assert(f(p) < f(q));
                assert(m.linked(q));
            }
        }
    }
}

/// Discarding a leaf keeps the arena in order; that leaf alone is no longer active.
pub proof fn lemma_discarded<K: Ord, V>(m: ArenaModel<K, V>, id: usize)
    requires
        m.wf(),
        m.active(id),
    ensures
        m.discarded(id).wf(),
        m.discarded(id).cells.dom() == m.cells.dom(),
        m.discarded(id).next == m.next,
        forall|p: usize| #[trigger] m.discarded(id).entries(p) == m.entries(p),
        forall|p: usize| m.discarded(id).active(p) <==> m.active(p) && p != id,
{
    let n = m.discarded(id);
    assert(m.linked(id));
    assert(n.cells.dom() =~= m.cells.dom());
    assert forall|p: usize| #[trigger] n.cells.dom().contains(p) implies p < n.next && entries_wf(
        n.entries(p),
    ) && n.linked(p) by {
        assert(m.cells.dom().contains(p));
        assert(m.linked(p));
    }
    let f = choose|f: spec_fn(usize) -> int| m.in_line(f);
    assert(n.in_line(f)) by {
        assert forall|p: usize| #[trigger] n.active(p) implies (
        n.cells[p].forward matches LeafPtr::At(q) ==> f(p) < f(q)) by {
            assert(m.active(p));
            assert(m.linked(p));
            assert(m.active(id));
            if m.cells[p].forward == LeafPtr::At(id) {
                assert(f(p) < f(id));
            }
        }
    }
}

/// Only the links of leaves change when a leaf is put into the list or discarded.
pub proof fn lemma_links_only<K, V>(m: ArenaModel<K, V>, at: usize, p: usize)
    ensures
        forall|q: usize| #[trigger] m.linked_before(at, p).entries(q) == m.entries(q),
        forall|q: usize| #[trigger] m.discarded(p).entries(q) == m.entries(q),
        m.linked_before(at, p).retired == m.retired,
        m.linked_before(at, p).next == m.next,
        m.discarded(p).next == m.next,
{
}

/// Freeing the discarded leaves keeps the arena in order.
pub proof fn lemma_reclaimed<K: Ord, V>(m: ArenaModel<K, V>)
    requires
        m.wf(),
    ensures
        m.reclaimed().wf(),
        forall|p: usize| m.reclaimed().active(p) <==> m.active(p),
{
    let n = m.reclaimed();
    assert forall|p: usize| #[trigger] n.cells.dom().contains(p) implies p < n.next && entries_wf(
        n.entries(p),
    ) && n.linked(p) by {
        assert(m.cells.dom().contains(p));
        assert(m.linked(p));
    }
    lemma_same_line(m, n);
}

} // verus!
