//! Which leaf a key belongs to after the array of leaves was changed.
use crate::arena::LeafPtr;
use crate::leaf::{
    accepts, holds, index_of, key_at, lemma_index_of, lemma_lookup_same, lemma_seek,
    lemma_seek_after, lemma_seek_is, lemma_with_entry, lemma_without_key, live_at, seek, seek_after,
    with_entry, without_key, Entry,
};
use crate::leafnode::model::NodeModel;
use crate::order::{alike, bound_cloned, key_laws, lt, same};
use vstd::prelude::*;

verus! {

/// Entries with the same keys and marks are searched alike.
pub proof fn lemma_seek_same<K: Ord + Clone, V, W>(
    a: Seq<Entry<K, V>>,
    b: Seq<Entry<K, W>>,
    k: K,
    i: int,
)
    requires
        key_laws::<K>(),
        a.len() == b.len(),
        0 <= i <= a.len(),
        forall|j: int|
            0 <= j < a.len() ==> same(a[j].key, (#[trigger] b[j]).key) && b[j].removed
                == a[j].removed,
    ensures
        seek(a, k, i) == seek(b, k, i),
    decreases a.len() - i,
{
    if i < a.len() {
        assert(same(a[i].key, b[i].key));
        assert(lt(a[i].key, k) <==> lt(b[i].key, k));
        lemma_seek_same(a, b, k, i + 1);
    }
}

/// Values of the same key are searched alike.
pub proof fn lemma_seek_alike<K: Ord + Clone, V>(s: Seq<Entry<K, V>>, x: K, y: K, i: int)
    requires
        key_laws::<K>(),
        same(x, y),
    ensures
        seek(s, x, i) == seek(s, y, i),
    decreases s.len() - i,
{
    if 0 <= i < s.len() {
        assert(lt(s[i].key, x) <==> lt(s[i].key, y));
        lemma_seek_alike(s, x, y, i + 1);
    }
}

/// Values of the same key belong to the same leaf.
pub proof fn lemma_slot_same<K: Ord + Clone>(m: NodeModel<K>, x: K, y: K)
    requires
        key_laws::<K>(),
        same(x, y),
    ensures
        m.bound(x) == m.bound(y),
        m.slot(x) == m.slot(y),
{
    lemma_seek_alike(m.children, x, y, 0);
}

/// A bound that the node has leads to itself.
pub proof fn lemma_bound_held<K: Ord + Clone>(m: NodeModel<K>, x: K)
    requires
        key_laws::<K>(),
        m.shape(),
    ensures
        m.bound(x) matches Some(b) ==> {
            &&& holds(m.children, b)
            &&& index_of(m.children, b) == seek(m.children, x, 0)
            &&& !lt(b, x)
            &&& m.handle(Some(b)) == m.slot(x)
        },
        m.bound(x) is None ==> m.slot(x) == m.unbounded,
        m.handle(m.bound(x)) == m.slot(x),
{
    let i = seek(m.children, x, 0);
    lemma_seek(m.children, x, 0);
    if i < m.children.len() {
        assert(key_at(m.children, m.children[i].key, i));
        lemma_index_of(m.children, m.children[i].key, i);
    }
}

/// A key that belongs to the leaf under a bound has that bound.
pub proof fn lemma_bound_of_leaf<K: Ord + Clone>(m: NodeModel<K>, x: K, bound: Option<K>, p: usize)
    requires
        key_laws::<K>(),
        m.shape(),
        m.distinct(),
        m.slot(x) == LeafPtr::At(p),
        m.handle(bound) == LeafPtr::At(p),
    ensures
        alike(m.bound(x), bound),
{
    lemma_bound_held(m, x);
    let s = m.children;
    if let Some(b) = bound {
        let j = index_of(s, b);
        assert(key_at(s, b, j));
        assert(live_at(s, j) && s[j].value == LeafPtr::At(p));
        if let Some(c) = m.bound(x) {
            let i = index_of(s, c);
            assert(key_at(s, c, i));
            assert(live_at(s, i) && s[i].value == LeafPtr::At(p));
            if i != j {
                assert(s[i].value == s[j].value);
            }
        } else {
            assert(s[j].value == m.unbounded);
        }
    } else {
        if let Some(c) = m.bound(x) {
            let i = index_of(s, c);
            assert(key_at(s, c, i));
            assert(live_at(s, i) && s[i].value == m.unbounded);
        }
    }
}

/// Bounds of the node that are the same key are the same value.
pub proof fn lemma_alike<K: Ord + Clone>(m: NodeModel<K>, x: K, y: K)
    requires
        key_laws::<K>(),
        m.shape(),
    ensures
        alike(m.bound(x), m.bound(y)) <==> m.bound(x) == m.bound(y),
{
    lemma_bound_held(m, x);
    lemma_bound_held(m, y);
    if alike(m.bound(x), m.bound(y)) && m.bound(x) is Some {
        lemma_lookup_same(m.children, m.bound(x)->0, m.bound(y)->0);
    }
    if m.bound(x) == m.bound(y) && m.bound(x) is Some {
        assert(same(m.bound(x)->0, m.bound(x)->0));
    }
}

/// Keys that belong to the same leaf have the same bound.
pub proof fn lemma_leaf_bound<K: Ord + Clone>(m: NodeModel<K>, x: K, y: K, p: usize)
    requires
        key_laws::<K>(),
        m.shape(),
        m.distinct(),
        m.slot(x) == LeafPtr::At(p),
        m.slot(y) == LeafPtr::At(p),
    ensures
        m.bound(x) == m.bound(y),
{
    lemma_bound_held(m, y);
    lemma_bound_of_leaf(m, x, m.bound(y), p);
    lemma_alike(m, x, y);
}

/// A clone of a bound is alike.
pub proof fn lemma_cloned_alike<K: Ord + Clone>(b: Option<K>, c: Option<K>)
    requires
        key_laws::<K>(),
        bound_cloned(b, c),
    ensures
        alike(b, c),
{
}

/// The handle under a bound is the same under any value of it.
pub proof fn lemma_handle_alike<K: Ord + Clone>(m: NodeModel<K>, b: Option<K>, c: Option<K>)
    requires
        key_laws::<K>(),
        m.shape(),
        alike(b, c),
    ensures
        m.handle(b) == m.handle(c),
        b matches Some(x) ==> (holds(m.children, x) <==> holds(m.children, c->0)),
        b matches Some(x) ==> (holds(m.children, x) ==> index_of(m.children, x) == index_of(
            m.children,
            c->0,
        )),
{
    if b is Some {
        lemma_lookup_same(m.children, b->0, c->0);
    }
}

/// Replacing the leaf under a bound moves the keys with that bound to the new leaf.
pub proof fn lemma_slot_replaced<K: Ord + Clone>(
    m: NodeModel<K>,
    bound: Option<K>,
    p: LeafPtr,
    x: K,
)
    requires
        key_laws::<K>(),
        m.shape(),
        bound matches Some(b) ==> holds(m.children, b),
    ensures
        m.with_handle(bound, p).bound(x) == m.bound(x),
        m.with_handle(bound, p).slot(x) == if alike(m.bound(x), bound) {
            p
        } else {
            m.slot(x)
        },
{
    lemma_bound_held(m, x);
    lemma_seek(m.children, x, 0);
    if let Some(b) = bound {
        assert(key_at(m.children, b, index_of(m.children, b)));
        lemma_seek_same(m.children, m.with_handle(bound, p).children, x, 0);
    }
}

/// A leaf that is added under a new bound takes over the keys up to that bound from the leaf that
/// the bound belonged to.
pub proof fn lemma_slot_added<K: Ord + Clone>(m: NodeModel<K>, k: K, p: LeafPtr, x: K)
    requires
        key_laws::<K>(),
        m.shape(),
        accepts(m.children, k),
    ensures
        ({
            let m2 = NodeModel { children: with_entry(m.children, k, p), ..m };
            if m.bound(x) == m.bound(k) && !lt(k, x) {
                m2.slot(x) == p && m2.bound(x) == Some(k)
            } else {
                m2.slot(x) == m.slot(x) && m2.bound(x) == m.bound(x)
            }
        }),
{
    let s = m.children;
    let t = with_entry(s, k, p);
    lemma_with_entry(s, k, p);
    lemma_seek_after(s, k, 0);
    lemma_bound_held(m, x);
    lemma_bound_held(m, k);
    lemma_seek(s, x, 0);
    lemma_seek(s, k, 0);
    let n = seek_after(s, k, 0);
    let i = seek(s, x, 0);
    let c = seek(s, k, 0);
    assert(t[n].key == k && !t[n].removed && t[n].value == p);
    assert forall|j: int| 0 <= j < n implies #[trigger] t[j] == s[j] by {}
    assert forall|j: int| n < j < t.len() implies #[trigger] t[j] == s[j - 1] by {}
    // Live bounds before the new one are less than it.
    assert forall|j: int| 0 <= j < n && live_at(s, j) implies lt((#[trigger] s[j]).key, k) by {
        assert(!lt(k, s[j].key));
        if same(s[j].key, k) {
            assert(key_at(s, k, j));
        }
    }
    if c < n {
        assert(lt(s[c].key, k));
    }
    assert(c >= n);
    if lt(k, x) {
        if i < n {
            lemma_seek_is(t, x, 0, i);
        } else {
            assert forall|j: int| 0 <= j < i + 1 implies (#[trigger] t[j]).removed || lt(
                t[j].key,
                x,
            ) by {
                if j < n {
                    assert(s[j].removed || lt(s[j].key, x));
                } else if j > n {
                    assert(s[j - 1].removed || lt(s[j - 1].key, x));
                }
            }
            lemma_seek_is(t, x, 0, i + 1);
        }
    } else {
        if i < n {
            assert(lt(s[i].key, k));
            lemma_seek_is(t, x, 0, i);
            if m.bound(x) == m.bound(k) {
                assert(s[i].key == s[c].key);
                assert(i == c);
            }
        } else {
            assert forall|j: int| 0 <= j < n implies (#[trigger] t[j]).removed || lt(
                t[j].key,
                x,
            ) by {
                assert(s[j].removed || lt(s[j].key, x));
            }
            lemma_seek_is(t, x, 0, n);
            // Both searches end at the first live bound from the new one on.
            if i < c {
                assert(s[i].removed || lt(s[i].key, k));
                assert(lt(k, s[i].key));
            }
            if c < i {
                assert(s[c].removed || lt(s[c].key, x));
                assert(lt(k, s[c].key));
            }
            assert(i == c);
        }
    }
}

/// Removing a bound leaves the keys with other bounds where they are.
pub proof fn lemma_slot_removed<K: Ord + Clone>(m: NodeModel<K>, k: K, x: K)
    requires
        key_laws::<K>(),
        m.shape(),
    ensures
        ({
            let m2 = NodeModel { children: without_key(m.children, k), ..m };
            &&& !alike(m.bound(x), Some(k)) ==> m2.slot(x) == m.slot(x) && m2.bound(x) == m.bound(
                x,
            )
            &&& !alike(m2.bound(x), Some(k))
        }),
{
    let s = m.children;
    let t = without_key(s, k);
    let m2 = NodeModel { children: t, ..m };
    lemma_without_key(s, k);
    lemma_bound_held(m, x);
    lemma_bound_held(m2, x);
    if alike(m2.bound(x), Some(k)) {
        lemma_lookup_same(t, m2.bound(x)->0, k);
    }
    lemma_seek(s, x, 0);
    let i = seek(s, x, 0);
    if !alike(m.bound(x), Some(k)) {
        if holds(s, k) {
            let n = index_of(s, k);
            assert(key_at(s, k, n));
            if i < s.len() {
                assert(i != n);
                assert(t[i] == s[i]);
            }
            assert forall|j: int| 0 <= j < i implies (#[trigger] t[j]).removed || lt(
                t[j].key,
                x,
            ) by {
                assert(s[j].removed || lt(s[j].key, x));
            }
            lemma_seek_is(t, x, 0, i);
        }
    }
}

} // verus!
