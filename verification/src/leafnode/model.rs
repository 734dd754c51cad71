//! What a leaf node is.
use crate::arena::{ArenaModel, LeafPtr};
use crate::leaf::{
    accepts, entries_wf, holds, index_of, key_at, lemma_index_of, lemma_with_entry,
    lemma_without_key, live_at, lookup, seek, seek_after, with_entry, with_value, without_key,
    Entry,
};
use crate::leafnode::NewLeaves;
use crate::order::{key_laws, lt, same};
use vstd::prelude::*;

verus! {

/// What a leaf node holds.
#[verifier::ext_equal]
pub struct NodeModel<K> {
    /// The bounded leaves, each under its bound.
    pub children: Seq<Entry<K, LeafPtr>>,
    /// The leaf without a bound.
    pub unbounded: LeafPtr,
    /// The leaves of a split that is under way.
    pub new_leaves: Option<NewLeaves<K>>,
}

impl<K: Ord> NodeModel<K> {
    /// The array of leaves is in order.
    pub open spec fn shape(self) -> bool {
        entries_wf(self.children)
    }

    /// No two handles of the node lead to the same leaf.
    pub open spec fn distinct(self) -> bool {
        &&& forall|i: int, j: int|
            live_at(self.children, i) && live_at(self.children, j) && i != j
                && #[trigger] self.children[i].value == #[trigger] self.children[j].value
                ==> self.children[i].value is Null
        &&& forall|i: int|
            live_at(self.children, i) && #[trigger] self.children[i].value == self.unbounded
                ==> self.unbounded is Null
    }

    /// The node is in order, and each of its handles leads to a leaf of its own.
    pub open spec fn wf<V>(self, arena: ArenaModel<K, V>) -> bool {
        &&& self.shape()
        &&& self.distinct()
        &&& arena.sound(self.unbounded)
        &&& forall|i: int|
            live_at(self.children, i) ==> arena.sound((#[trigger] self.children[i]).value)
    }

    /// The handle under a bound, or that of the unbounded leaf.
    pub open spec fn handle(self, bound: Option<K>) -> LeafPtr {
        match bound {
            Some(k) => if holds(self.children, k) {
                lookup(self.children, k)->0
            } else {
                LeafPtr::Null
            },
            None => self.unbounded,
        }
    }

    /// The handle under a bound, or that of the unbounded leaf, replaced.
    pub open spec fn with_handle(self, bound: Option<K>, p: LeafPtr) -> NodeModel<K> {
        match bound {
            Some(k) => NodeModel {
                children: with_value(self.children, index_of(self.children, k), p),
                ..self
            },
            None => NodeModel { unbounded: p, ..self },
        }
    }

    /// The node owns the leaf.
    pub open spec fn owns(self, p: LeafPtr) -> bool {
        ||| self.unbounded == p
        ||| exists|i: int| live_at(self.children, i) && (#[trigger] self.children[i]).value == p
    }

    /// The new leaves of a split that is under way are there, and are no part of the node yet.
    pub open spec fn new_leaves_wf<V>(self, arena: ArenaModel<K, V>) -> bool {
        self.new_leaves matches Some(n) ==> {
            &&& arena.sound(n.low_key_leaf)
            &&& arena.sound(n.high_key_leaf)
            &&& n.low_key_leaf is At ==> {
                &&& n.low_key_leaf != n.high_key_leaf
                &&& !self.owns(n.low_key_leaf)
            }
            &&& n.high_key_leaf is At ==> !self.owns(n.high_key_leaf)
        }
    }

    /// The leaves of a split that is under way are there: the new ones, which are no part of the
    /// node yet, and the one that is split.
    pub open spec fn pending_wf<V>(self, arena: ArenaModel<K, V>) -> bool {
        &&& self.new_leaves_wf(arena)
        &&& self.new_leaves matches Some(n) ==> {
            &&& arena.sound(n.origin_leaf_ptr)
            &&& n.low_key_leaf is At ==> n.low_key_leaf != n.origin_leaf_ptr
            &&& n.high_key_leaf is At ==> n.high_key_leaf != n.origin_leaf_ptr
        }
    }

    /// The bound of the leaf that the key belongs to.
    pub open spec fn bound(self, k: K) -> Option<K> {
        let i = seek(self.children, k, 0);
        if i < self.children.len() {
            Some(self.children[i].key)
        } else {
            None
        }
    }

    /// The leaf that the key belongs to.
    pub open spec fn slot(self, k: K) -> LeafPtr {
        let i = seek(self.children, k, 0);
        if i < self.children.len() {
            self.children[i].value
        } else {
            self.unbounded
        }
    }

    /// What is found under a key.
    pub open spec fn found<V>(self, arena: ArenaModel<K, V>, k: K) -> Option<V> {
        match self.slot(k) {
            LeafPtr::At(p) => lookup(arena.entries(p), k),
            LeafPtr::Null => None,
        }
    }

    /// Every key stands in the leaf that it belongs to.
    pub open spec fn keys_in_place<V>(self, arena: ArenaModel<K, V>) -> bool {
        forall|p: usize, k: K|
            #![trigger self.owns(LeafPtr::At(p)), holds(arena.entries(p), k)]
            self.owns(LeafPtr::At(p)) && holds(arena.entries(p), k) ==> self.slot(k)
                == LeafPtr::At(p)
    }

    /// The entries of the node: what a search finds.
    pub open spec fn contents<V>(self, arena: ArenaModel<K, V>) -> Map<K, V> {
        Map::new(
            |k: K| self.found(arena, k) is Some,
            |k: K| self.found(arena, k)->0,
        )
    }
}

// ---------------------------------------------------------------------------------------------
// What keeps a node in order
// ---------------------------------------------------------------------------------------------
/// A node stays in order in an arena in which its leaves are still active.
pub proof fn lemma_wf_in<K: Ord, V>(
    m: NodeModel<K>,
    a: ArenaModel<K, V>,
    b: ArenaModel<K, V>,
)
    requires
        m.wf(a),
        forall|p: usize| m.owns(LeafPtr::At(p)) && a.active(p) ==> #[trigger] b.active(p),
    ensures
        m.wf(b),
{
    if let LeafPtr::At(p) = m.unbounded {
        assert(m.owns(LeafPtr::At(p)));
        assert(a.active(p));
        assert(b.active(p));
    }
    assert forall|i: int| live_at(m.children, i) implies b.sound(
        (#[trigger] m.children[i]).value,
    ) by {
        assert(a.sound(m.children[i].value));
        if let LeafPtr::At(p) = m.children[i].value {
            assert(m.owns(LeafPtr::At(p)));
            assert(b.active(p));
        }
    }
}

/// Nodes with the same handles own the same leaves.
pub proof fn lemma_same_leaves<K: Ord>(m: NodeModel<K>, m2: NodeModel<K>)
    requires
        m2.children == m.children,
        m2.unbounded == m.unbounded,
    ensures
        forall|q: LeafPtr| #[trigger] m2.owns(q) == m.owns(q),
{
    assert forall|q: LeafPtr| #[trigger] m2.owns(q) == m.owns(q) by {
        if m.owns(q) && m.unbounded != q {
            let i = choose|i: int| live_at(m.children, i) && (#[trigger] m.children[i]).value == q;
            assert(live_at(m2.children, i) && m2.children[i].value == q);
        }
        if m2.owns(q) && m2.unbounded != q {
            let i = choose|i: int|
                live_at(m2.children, i) && (#[trigger] m2.children[i]).value == q;
            assert(live_at(m.children, i) && m.children[i].value == q);
        }
    }
}

/// A leaf that the node owns is active.
pub proof fn lemma_owns_active<K: Ord, V>(m: NodeModel<K>, a: ArenaModel<K, V>, p: usize)
    requires
        m.wf(a),
        m.owns(LeafPtr::At(p)),
    ensures
        a.active(p),
{
    if m.unbounded != LeafPtr::At(p) {
        let i = choose|i: int|
            live_at(m.children, i) && (#[trigger] m.children[i]).value == LeafPtr::At(p);
        assert(a.sound(m.children[i].value));
    }
}

/// A leaf that the node does not own yet can be added under a new bound.
pub proof fn lemma_add_child<K: Ord + Clone, V>(
    m: NodeModel<K>,
    a: ArenaModel<K, V>,
    k: K,
    p: usize,
)
    requires
        key_laws::<K>(),
        m.wf(a),
        a.active(p),
        !m.owns(LeafPtr::At(p)),
        accepts(m.children, k),
    ensures
        ({
            let m2 = NodeModel { children: with_entry(m.children, k, LeafPtr::At(p)), ..m };
            &&& m2.wf(a)
            &&& forall|q: LeafPtr| #[trigger] m2.owns(q) <==> m.owns(q) || q == LeafPtr::At(p)
            &&& m2.handle(Some(k)) == LeafPtr::At(p)
            &&& forall|b: K| #[trigger]
                holds(m.children, b) ==> holds(m2.children, b) && m2.handle(Some(b)) == m.handle(
                    Some(b),
                )
        }),
{
    let s = m.children;
    let t = with_entry(s, k, LeafPtr::At(p));
    let m2 = NodeModel { children: t, ..m };
    lemma_with_entry(s, k, LeafPtr::At(p));
    let n = seek_after(s, k, 0);
    assert(key_at(t, k, n));
    lemma_index_of(t, k, n);
    let back = |i: int|
        if i < n {
            i
        } else {
            i - 1
        };
    let fore = |i: int|
        if i < n {
            i
        } else {
            i + 1
        };
    assert forall|i: int| 0 <= i < t.len() && i != n implies #[trigger] t[i] == s[back(i)] by {}
    assert forall|i: int| 0 <= i < s.len() implies #[trigger] s[i] == t[fore(i)] by {}
    assert forall|i: int| live_at(s, i) implies #[trigger] s[i].value != LeafPtr::At(p) by {
        assert(m.owns(s[i].value));
    }
    assert forall|i: int, j: int|
        live_at(t, i) && live_at(t, j) && i != j && #[trigger] t[i].value
            == #[trigger] t[j].value implies t[i].value is Null by {
        if i != n && j != n {
            assert(live_at(s, back(i)) && live_at(s, back(j)));
            assert(s[back(i)].value == s[back(j)].value);
        } else if i != n {
            assert(live_at(s, back(i)));
            assert(s[back(i)].value != LeafPtr::At(p));
        } else {
            assert(live_at(s, back(j)));
            assert(s[back(j)].value != LeafPtr::At(p));
        }
    }
    assert(m.unbounded != LeafPtr::At(p)) by {
        assert(m.owns(m.unbounded));
    }
    assert forall|i: int| live_at(t, i) && #[trigger] t[i].value == m.unbounded implies m.unbounded
        is Null by {
        if i != n {
            assert(live_at(s, back(i)));
            assert(s[back(i)].value == m.unbounded);
        }
    }
    assert forall|i: int| live_at(t, i) implies a.sound((#[trigger] t[i]).value) by {
        if i != n {
            assert(live_at(s, back(i)));
            assert(a.sound(s[back(i)].value));
        }
    }
    assert forall|q: LeafPtr| #[trigger] m2.owns(q) <==> m.owns(q) || q == LeafPtr::At(p) by {
        if m2.owns(q) && m2.unbounded != q {
            let i = choose|i: int| live_at(t, i) && (#[trigger] t[i]).value == q;
            if i != n {
                assert(live_at(s, back(i)) && s[back(i)].value == q);
            }
        }
        if m.owns(q) && m.unbounded != q {
            let i = choose|i: int| live_at(s, i) && (#[trigger] s[i]).value == q;
            assert(live_at(t, fore(i)) && t[fore(i)].value == q);
        }
        assert(live_at(t, n) && t[n].value == LeafPtr::At(p));
    }
    assert forall|b: K| #[trigger] holds(s, b) implies holds(t, b) && m2.handle(Some(b))
        == m.handle(Some(b)) by {
        let i = index_of(s, b);
        assert(key_at(s, b, i));
        assert(key_at(t, b, fore(i)));
        lemma_index_of(t, b, fore(i));
    }
}

/// A handle of the node can be replaced by null or by one on a leaf that the node does not own
/// yet; then the node no longer owns the leaf that was there.
pub proof fn lemma_replace_handle<K: Ord + Clone, V>(
    m: NodeModel<K>,
    a: ArenaModel<K, V>,
    bound: Option<K>,
    p: LeafPtr,
)
    requires
        key_laws::<K>(),
        m.wf(a),
        bound matches Some(k) ==> holds(m.children, k),
        a.sound(p),
        p is At ==> !m.owns(p),
    ensures
        ({
            let m2 = m.with_handle(bound, p);
            &&& m2.wf(a)
            &&& m2.handle(bound) == p
            &&& m2.new_leaves == m.new_leaves
            &&& m2.owns(p)
            &&& m.handle(bound) is At ==> !m2.owns(m.handle(bound))
            &&& forall|q: LeafPtr| #[trigger] m2.owns(q) ==> m.owns(q) || q == p
            &&& forall|q: LeafPtr| #[trigger]
                m.owns(q) && q != m.handle(bound) ==> m2.owns(q)
        }),
{
    let m2 = m.with_handle(bound, p);
    let s = m.children;
    let t = m2.children;
    match bound {
        Some(k) => {
            let n = index_of(s, k);
            assert(key_at(s, k, n));
            assert(t.len() == s.len());
            assert forall|i: int, j: int| 0 <= i < j < t.len() implies lt(
                (#[trigger] t[i]).key,
                (#[trigger] t[j]).key,
            ) || (same(t[i].key, t[j].key) && t[i].removed) by {
                assert(lt(s[i].key, s[j].key) || (same(s[i].key, s[j].key) && s[i].removed));
            }
            assert(key_at(t, k, n));
            lemma_index_of(t, k, n);
            assert(live_at(t, n) && t[n].value == p);
        },
        None => {},
    }
    let n = if bound is Some {
        index_of(s, bound->0)
    } else {
        -1
    };
    assert forall|i: int| live_at(t, i) && i != n implies live_at(s, i) && #[trigger] t[i]
        == s[i] && m.owns(s[i].value) by {
        assert(m.owns(s[i].value));
    }
    assert forall|i: int, j: int|
        live_at(t, i) && live_at(t, j) && i != j && #[trigger] t[i].value
            == #[trigger] t[j].value implies t[i].value is Null by {
        if i != n && j != n {
            assert(s[i].value == s[j].value);
        } else if i != n {
            assert(m.owns(s[i].value));
        } else {
            assert(m.owns(s[j].value));
        }
    }
    assert(m.owns(m.unbounded));
    assert forall|i: int|
        live_at(t, i) && #[trigger] t[i].value == m2.unbounded implies m2.unbounded is Null by {
        if i != n {
            assert(m.owns(s[i].value));
            if bound is Some {
                assert(s[i].value == m.unbounded);
            }
        }
    }
    assert forall|i: int| live_at(t, i) implies a.sound((#[trigger] t[i]).value) by {
        if i != n {
            assert(a.sound(s[i].value));
        }
    }
    assert forall|q: LeafPtr| #[trigger] m2.owns(q) implies m.owns(q) || q == p by {
        if m2.unbounded != q {
            let i = choose|i: int| live_at(t, i) && (#[trigger] t[i]).value == q;
            if i != n {
                assert(m.owns(s[i].value));
            }
        }
    }
    assert forall|q: LeafPtr| #[trigger] m.owns(q) && q != m.handle(bound) implies m2.owns(q) by {
        if m.unbounded != q {
            let i = choose|i: int| live_at(s, i) && (#[trigger] s[i]).value == q;
            assert(i != n);
            assert(live_at(t, i) && t[i].value == q);
        } else if bound is None {
        } else {
            assert(m2.unbounded == q);
        }
    }
    let h = m.handle(bound);
    if h is At && m2.owns(h) {
        if m2.unbounded == h {
            if bound is Some {
                assert(s[n].value == h);
                assert(m.unbounded == h);
            }
        } else {
            let i = choose|i: int| live_at(t, i) && (#[trigger] t[i]).value == h;
            if i != n {
                assert(s[i].value == h);
                if bound is Some {
                    assert(s[n].value == h);
                }
            }
        }
        if bound is Some {
            assert(live_at(s, n));
            assert(m.owns(s[n].value));
        }
    }
}

/// A bound can be removed.
pub proof fn lemma_remove_child<K: Ord + Clone, V>(m: NodeModel<K>, a: ArenaModel<K, V>, k: K)
    requires
        key_laws::<K>(),
        m.wf(a),
    ensures
        ({
            let m2 = NodeModel { children: without_key(m.children, k), ..m };
            &&& m2.wf(a)
            &&& forall|q: LeafPtr| #[trigger] m2.owns(q) ==> m.owns(q)
            &&& forall|q: LeafPtr| #[trigger]
                m.owns(q) && q != m.handle(Some(k)) ==> m2.owns(q)
        }),
{
    let s = m.children;
    let t = without_key(s, k);
    let m2 = NodeModel { children: t, ..m };
    lemma_without_key(s, k);
    assert forall|i: int| live_at(t, i) implies live_at(s, i) && #[trigger] t[i] == s[i] by {}
    assert forall|i: int, j: int|
        live_at(t, i) && live_at(t, j) && i != j && #[trigger] t[i].value
            == #[trigger] t[j].value implies t[i].value is Null by {
        assert(s[i].value == s[j].value);
    }
    assert forall|i: int|
        live_at(t, i) && #[trigger] t[i].value == m2.unbounded implies m2.unbounded is Null by {
        assert(s[i].value == m.unbounded);
    }
    assert forall|i: int| live_at(t, i) implies a.sound((#[trigger] t[i]).value) by {
        assert(a.sound(s[i].value));
    }
    assert forall|q: LeafPtr| #[trigger] m2.owns(q) implies m.owns(q) by {
        if m2.unbounded != q {
            let i = choose|i: int| live_at(t, i) && (#[trigger] t[i]).value == q;
            assert(s[i].value == q);
        }
    }
    assert forall|q: LeafPtr| #[trigger] m.owns(q) && q != m.handle(Some(k)) implies m2.owns(
        q,
    ) by {
        if m.unbounded != q {
            let i = choose|i: int| live_at(s, i) && (#[trigger] s[i]).value == q;
            if holds(s, k) {
                assert(key_at(s, k, index_of(s, k)));
                assert(i != index_of(s, k));
            }
            assert(live_at(m2.children, i) && m2.children[i].value == q);
        }
    }
}

} // verus!
