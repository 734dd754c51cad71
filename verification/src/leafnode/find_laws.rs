//! Which leaf of a leaf node an operation gets at, and what it finds there.
use crate::arena::{ArenaModel, LeafPtr};
use crate::leaf::laws::{law_leaf_lower_bound, law_leaf_search};
use crate::leaf::{entries_wf, holds, index_of, key_at, lemma_index_of, lemma_seek, live_at, seek};
use crate::leafnode::laws::lemma_slot_owned;
use crate::leafnode::model::{lemma_owns_active, NodeModel};
use crate::leafnode::read::{first_leaf, start_leaf};
use crate::leafnode::scan_laws::law_min;
use crate::order::{key_laws, lt, same};
use crate::scanner::{lemma_next_slot, next_slot};
use vstd::prelude::*;

verus! {

/// A key belongs to the leaf with the smallest bound that is not less than the key, among the
/// bounds that were not removed, and to the unbounded leaf if all of those are less.
pub proof fn law_slot<K: Ord + Clone>(m: NodeModel<K>, x: K)
    requires
        key_laws::<K>(),
        m.shape(),
    ensures
        ({
            let s = m.children;
            &&& forall|i: int|
                {
                    &&& 0 <= i < s.len()
                    &&& !(#[trigger] s[i]).removed
                    &&& !lt(s[i].key, x)
                    &&& forall|j: int|
                        0 <= j < s.len() && !(#[trigger] s[j]).removed && !lt(s[j].key, x) ==> !lt(
                            s[j].key,
                            s[i].key,
                        )
                } ==> m.slot(x) == s[i].value && m.bound(x) == Some(s[i].key)
            &&& (forall|j: int|
                0 <= j < s.len() && !(#[trigger] s[j]).removed ==> lt(s[j].key, x)) ==> m.slot(x)
                == m.unbounded && m.bound(x) is None
        }),
{
    let s = m.children;
    let n = seek(s, x, 0);
    law_leaf_lower_bound(s, x);
    assert forall|i: int|
        {
            &&& 0 <= i < s.len()
            &&& !(#[trigger] s[i]).removed
            &&& !lt(s[i].key, x)
            &&& forall|j: int|
                0 <= j < s.len() && !(#[trigger] s[j]).removed && !lt(s[j].key, x) ==> !lt(
                    s[j].key,
                    s[i].key,
                )
        } implies m.slot(x) == s[i].value && m.bound(x) == Some(s[i].key) by {
        assert(n < s.len());
        assert(!s[n].removed && !lt(s[n].key, x));
        if n < i {
            assert(lt(s[n].key, s[i].key) || (same(s[n].key, s[i].key) && s[n].removed));
        }
    }
    if forall|j: int| 0 <= j < s.len() && !(#[trigger] s[j]).removed ==> lt(s[j].key, x) {
        if n < s.len() {
            assert(!s[n].removed);
        }
    }
}

/// Under a bound stands the handle of the live slot with that bound, and no handle if there is no
/// such slot. Without a bound the unbounded leaf is meant.
pub proof fn law_handle<K: Ord + Clone>(m: NodeModel<K>, b: K)
    requires
        key_laws::<K>(),
        m.shape(),
    ensures
        forall|i: int|
            0 <= i < m.children.len() && !(#[trigger] m.children[i]).removed && same(
                m.children[i].key,
                b,
            ) ==> m.handle(Some(b)) == m.children[i].value,
        (forall|i: int|
            0 <= i < m.children.len() && !(#[trigger] m.children[i]).removed ==> !same(
                m.children[i].key,
                b,
            )) ==> m.handle(Some(b)) is Null,
        m.handle(None) == m.unbounded,
{
    let s = m.children;
    assert forall|i: int|
        0 <= i < s.len() && !(#[trigger] s[i]).removed && same(s[i].key, b) implies m.handle(
        Some(b),
    ) == s[i].value by {
        assert(key_at(s, b, i));
        lemma_index_of(s, b, i);
    }
    if holds(s, b) {
        assert(key_at(s, b, index_of(s, b)));
    }
}

/// A search finds a value exactly if a leaf of the node has a live entry with the key and that
/// value. It can be answered whenever the node has all of its leaves.
pub proof fn law_search<K: Ord + Clone, V>(m: NodeModel<K>, a: ArenaModel<K, V>, x: K, v: V)
    requires
        key_laws::<K>(),
        a.wf(),
        m.wf(a),
        m.keys_in_place(a),
    ensures
        m.found(a, x) == Some(v) <==> exists|p: usize, i: int|
            #![trigger m.owns(LeafPtr::At(p)), a.entries(p)[i]]
            {
                &&& m.owns(LeafPtr::At(p))
                &&& 0 <= i < a.entries(p).len()
                &&& !a.entries(p)[i].removed
                &&& same(a.entries(p)[i].key, x)
                &&& a.entries(p)[i].value == v
            },
        m.unbounded is At && (forall|i: int|
            0 <= i < m.children.len() && !(#[trigger] m.children[i]).removed
                ==> m.children[i].value is At) ==> m.slot(x) is At,
{
    lemma_slot_owned(m, a, x);
    lemma_seek(m.children, x, 0);
    if m.found(a, x) == Some(v) {
        let p = m.slot(x)->At_0;
        let s = a.entries(p);
        law_leaf_search(s, x, v);
        let i = choose|i: int|
            0 <= i < s.len() && !(#[trigger] s[i]).removed && same(s[i].key, x) && s[i].value == v;
        assert(m.owns(LeafPtr::At(p)) && !a.entries(p)[i].removed);
    }
    if exists|p: usize, i: int|
        #![trigger m.owns(LeafPtr::At(p)), a.entries(p)[i]]
        {
            &&& m.owns(LeafPtr::At(p))
            &&& 0 <= i < a.entries(p).len()
            &&& !a.entries(p)[i].removed
            &&& same(a.entries(p)[i].key, x)
            &&& a.entries(p)[i].value == v
        } {
        let (p, i) = choose|p: usize, i: int|
            #![trigger m.owns(LeafPtr::At(p)), a.entries(p)[i]]
            {
                &&& m.owns(LeafPtr::At(p))
                &&& 0 <= i < a.entries(p).len()
                &&& !a.entries(p)[i].removed
                &&& same(a.entries(p)[i].key, x)
                &&& a.entries(p)[i].value == v
            };
        let s = a.entries(p);
        lemma_owns_active(m, a, p);
        assert(entries_wf(s));
        assert(key_at(s, x, i));
        lemma_index_of(s, x, i);
        assert(m.slot(x) == LeafPtr::At(p));
    }
}

/// The leaf with the smallest keys is the one in the first slot whose bound was not removed, and
/// the unbounded leaf if all bounds were removed or there never was one. A node that has all of its
/// leaves has such a leaf; if that leaf has a live entry, the first one has the smallest key of the
/// node, and a node without any live entry in its leaves is empty.
pub proof fn law_min_leaf<K: Ord + Clone, V>(m: NodeModel<K>, a: ArenaModel<K, V>)
    requires
        key_laws::<K>(),
        a.wf(),
        m.wf(a),
    ensures
        ({
            let s = m.children;
            let first = first_leaf(m);
            &&& forall|i: int|
                {
                    &&& 0 <= i < s.len()
                    &&& !(#[trigger] s[i]).removed
                    &&& forall|j: int| 0 <= j < i ==> (#[trigger] s[j]).removed
                } ==> first == s[i].value
            &&& (forall|i: int| 0 <= i < s.len() ==> (#[trigger] s[i]).removed) ==> first
                == m.unbounded
            &&& m.unbounded is At && (forall|i: int|
                0 <= i < s.len() && !(#[trigger] s[i]).removed ==> s[i].value is At) ==> first is At
            &&& first matches LeafPtr::At(p) ==> m.owns(LeafPtr::At(p)) && a.active(p)
            &&& m.keys_in_place(a) ==> (first matches LeafPtr::At(p) ==> {
                let t = a.entries(p);
                forall|i: int|
                    {
                        &&& 0 <= i < t.len()
                        &&& !(#[trigger] t[i]).removed
                        &&& forall|j: int| 0 <= j < i ==> (#[trigger] t[j]).removed
                    } ==> {
                        &&& m.found(a, t[i].key) == Some(t[i].value)
                        &&& forall|x: K| #[trigger] m.found(a, x) is Some ==> !lt(x, t[i].key)
                    }
            })
        }),
{
    let s = m.children;
    let c = next_slot(s, 0, false);
    let first = first_leaf(m);
    lemma_next_slot(s, 0, false);
    assert forall|i: int|
        {
            &&& 0 <= i < s.len()
            &&& !(#[trigger] s[i]).removed
            &&& forall|j: int| 0 <= j < i ==> (#[trigger] s[j]).removed
        } implies first == s[i].value by {
        if c < i {
            assert(s[c].removed);
        }
    }
    if first is At {
        let p = first->At_0;
        assert(m.owns(LeafPtr::At(p))) by {
            if c < s.len() {
                assert(live_at(s, c) && s[c].value == LeafPtr::At(p));
            }
        }
        lemma_owns_active(m, a, p);
        let t = a.entries(p);
        if m.keys_in_place(a) {
            law_min(m, a);
            lemma_next_slot(t, 0, false);
            assert forall|i: int|
                {
                    &&& 0 <= i < t.len()
                    &&& !(#[trigger] t[i]).removed
                    &&& forall|j: int| 0 <= j < i ==> (#[trigger] t[j]).removed
                } implies {
                &&& m.found(a, t[i].key) == Some(t[i].value)
                &&& forall|x: K| #[trigger] m.found(a, x) is Some ==> !lt(x, t[i].key)
            } by {
                let n = next_slot(t, 0, false);
                if n < i {
                    assert(t[n].removed);
                }
                assert(n == i);
                assert(m.contents(a).dom().contains(t[i].key));
                assert forall|x: K| #[trigger] m.found(a, x) is Some implies !lt(x, t[i].key) by {
                    assert(m.contents(a).dom().contains(x));
                }
            }
        }
    }
}

/// A scan from a key starts in the first leaf, bounded ones in their order and the unbounded one
/// last, that has a live entry whose key is not less than that key. Leaves that have none are
/// passed over. There is no scan if a handle is missing before such a leaf is found, or if no leaf
/// has such an entry. Slot `m.children.len()` stands for the unbounded leaf, and
/// `h` is the handle in slot `c`, before which no leaf has such an entry.
pub proof fn law_from_leaf<K: Ord + Clone, V>(
    m: NodeModel<K>,
    a: ArenaModel<K, V>,
    k: K,
    c: int,
    h: LeafPtr,
)
    requires
        key_laws::<K>(),
        a.wf(),
        m.wf(a),
        0 <= c <= m.children.len(),
        c < m.children.len() ==> !m.children[c].removed,
        forall|d: int|
            0 <= d < c && !(#[trigger] m.children[d]).removed ==> {
                &&& m.children[d].value is At
                &&& forall|j: int|
                    0 <= j < a.entries(m.children[d].value->At_0).len() && !(
                    #[trigger] a.entries(m.children[d].value->At_0)[j]).removed ==> lt(
                        a.entries(m.children[d].value->At_0)[j].key,
                        k,
                    )
            },
        h == if c < m.children.len() {
            m.children[c].value
        } else {
            m.unbounded
        },
    ensures
        h is Null ==> start_leaf(m, a, k, 0) is None,
        h matches LeafPtr::At(p) ==> (exists|j: int|
            0 <= j < a.entries(p).len() && !(#[trigger] a.entries(p)[j]).removed && !lt(
                a.entries(p)[j].key,
                k,
            )) ==> start_leaf(m, a, k, 0) == Some(p),
        h matches LeafPtr::At(p) ==> c == m.children.len() && (forall|j: int|
            0 <= j < a.entries(p).len() && !(#[trigger] a.entries(p)[j]).removed ==> lt(
                a.entries(p)[j].key,
                k,
            )) ==> start_leaf(m, a, k, 0) is None,
{
    lemma_from_leaf(m, a, k, 0, c);
    if let LeafPtr::At(p) = h {
        let t = a.entries(p);
        assert(a.active(p)) by {
            if c < m.children.len() {
                assert(live_at(m.children, c));
                assert(a.sound(m.children[c].value));
            }
        }
        law_leaf_lower_bound(t, k);
        let n = seek(t, k, 0);
        if n < t.len() {
            assert(!t[n].removed && !lt(t[n].key, k));
            assert(start_leaf(m, a, k, c) == Some(p));
        } else {
            if c == m.children.len() {
                assert(start_leaf(m, a, k, c) is None);
            }
        }
    }
}

/// Leaves that have nothing to offer are passed over.
proof fn lemma_from_leaf<K: Ord + Clone, V>(
    m: NodeModel<K>,
    a: ArenaModel<K, V>,
    k: K,
    i: int,
    c: int,
)
    requires
        key_laws::<K>(),
        a.wf(),
        m.wf(a),
        0 <= i <= c <= m.children.len(),
        forall|d: int|
            0 <= d < c && !(#[trigger] m.children[d]).removed ==> {
                &&& m.children[d].value is At
                &&& forall|j: int|
                    0 <= j < a.entries(m.children[d].value->At_0).len() && !(
                    #[trigger] a.entries(m.children[d].value->At_0)[j]).removed ==> lt(
                        a.entries(m.children[d].value->At_0)[j].key,
                        k,
                    )
            },
    ensures
        start_leaf(m, a, k, i) == start_leaf(m, a, k, c),
    decreases c - i,
{
    if i < c {
        lemma_from_leaf(m, a, k, i + 1, c);
        if !m.children[i].removed {
            let t = a.entries(m.children[i].value->At_0);
            lemma_seek(t, k, 0);
            if seek(t, k, 0) < t.len() {
                assert(!t[seek(t, k, 0)].removed);
            }
        }
    }
}

} // verus!
