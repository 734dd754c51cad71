//! Where scans start.
use crate::arena::{ArenaModel, LeafPtr};
use crate::leaf::{
    entries_wf, holds, index_of, key_at, lemma_index_of, lemma_seek, live_at, seek, Entry,
};
use crate::leafnode::laws::lemma_slot_owned;
use crate::leafnode::model::{lemma_owns_active, NodeModel};
use crate::leafnode::read::{first_leaf, start_leaf};
use crate::leafnode::routing::lemma_bound_held;
use crate::order::{key_laws, lt, same};
use crate::scanner::{lemma_next_slot, next_slot};
use vstd::prelude::*;

verus! {

/// The node has all of its leaves.
pub open spec fn complete<K>(m: NodeModel<K>) -> bool {
    &&& m.unbounded is At
    &&& forall|i: int| live_at(m.children, i) ==> (#[trigger] m.children[i]).value is At
}

/// The handle in a slot; that of the unbounded leaf comes after the last.
pub open spec fn handle_at<K>(m: NodeModel<K>, i: int) -> LeafPtr {
    if i < m.children.len() {
        m.children[i].value
    } else {
        m.unbounded
    }
}

/// The slot holds a leaf; the unbounded leaf comes after the last.
pub open spec fn leaf_at<K>(m: NodeModel<K>, i: int) -> bool {
    live_at(m.children, i) || i == m.children.len()
}

/// The leaf in a slot has no live entry whose key is not less than `k`.
pub open spec fn exhausted<K: Ord, V>(
    m: NodeModel<K>,
    a: ArenaModel<K, V>,
    k: K,
    i: int,
) -> bool {
    let s = a.entries(handle_at(m, i)->At_0);
    seek(s, k, 0) == s.len()
}

/// The slot of the leaf that a scan starts in: all leaves before it are exhausted.
proof fn lemma_start<K: Ord + Clone, V>(m: NodeModel<K>, a: ArenaModel<K, V>, k: K, i: int) -> (c:
    int)
    requires
        complete(m),
        0 <= i <= m.children.len(),
    ensures
        start_leaf(m, a, k, i) matches Some(p) ==> {
            &&& i <= c <= m.children.len()
            &&& leaf_at(m, c)
            &&& handle_at(m, c) == LeafPtr::At(p)
            &&& !exhausted(m, a, k, c)
            &&& forall|d: int| i <= d < c && leaf_at(m, d) ==> exhausted(m, a, k, d)
        },
        start_leaf(m, a, k, i) is None ==> forall|d: int|
            i <= d && leaf_at(m, d) ==> exhausted(m, a, k, d),
    decreases m.children.len() - i,
{
    if i < m.children.len() {
        lemma_seek(a.entries(m.children[i].value->At_0), k, 0);
        let c = lemma_start(m, a, k, i + 1);
        if m.children[i].removed {
            c
        } else {
            assert(live_at(m.children, i));
            if exhausted(m, a, k, i) {
                c
            } else {
                i
            }
        }
    } else {
        lemma_seek(a.entries(m.unbounded->At_0), k, 0);
        i
    }
}

/// A leaf that holds a key not less than `k` is not exhausted, and its first such key is not
/// greater.
pub proof fn lemma_first_in_leaf<K: Ord + Clone, V>(s: Seq<Entry<K, V>>, k: K, x: K)
    requires
        key_laws::<K>(),
        entries_wf(s),
        holds(s, x),
        !lt(x, k),
    ensures
        seek(s, k, 0) < s.len(),
        !lt(x, s[seek(s, k, 0)].key),
{
    lemma_seek(s, k, 0);
    let i = index_of(s, x);
    assert(key_at(s, x, i));
    let c = seek(s, k, 0);
    if i < c {
        assert(s[i].removed || lt(s[i].key, k));
    }
    if c < i {
        assert(lt(s[c].key, s[i].key) || (same(s[c].key, s[i].key) && s[c].removed));
    }
}

/// A scan from a key starts with the entry of the node that has the smallest key not less than it;
/// there is none if all keys are less.
pub proof fn law_from<K: Ord + Clone, V>(m: NodeModel<K>, a: ArenaModel<K, V>, k: K)
    requires
        key_laws::<K>(),
        a.wf(),
        m.wf(a),
        m.keys_in_place(a),
        complete(m),
    ensures
        ({
            let all = m.contents(a);
            match start_leaf(m, a, k, 0) {
                Some(p) => {
                    let e = a.entries(p)[seek(a.entries(p), k, 0)];
                    &&& all.dom().contains(e.key)
                    &&& all[e.key] == e.value
                    &&& !lt(e.key, k)
                    &&& forall|x: K| #[trigger]
                        all.dom().contains(x) && !lt(x, k) ==> !lt(x, e.key)
                },
                None => forall|x: K| #[trigger] all.dom().contains(x) ==> lt(x, k),
            }
        }),
{
    let all = m.contents(a);
    let c = lemma_start(m, a, k, 0);
    match start_leaf(m, a, k, 0) {
        Some(p) => {
            let s = a.entries(p);
            let i = seek(s, k, 0);
            lemma_seek(s, k, 0);
            assert(m.owns(LeafPtr::At(p)));
            lemma_owns_active(m, a, p);
            let e = s[i];
            assert(key_at(s, e.key, i));
            lemma_index_of(s, e.key, i);
            assert(m.slot(e.key) == LeafPtr::At(p));
            assert forall|x: K| #[trigger] all.dom().contains(x) && !lt(x, k) implies !lt(
                x,
                e.key,
            ) by {
                lemma_where(m, a, k, x, c);
                let cx = seek(m.children, x, 0);
                if cx == c {
                    lemma_first_in_leaf(s, k, x);
                } else {
                    // The bound of the leaf lies between.
                    lemma_seek(m.children, x, 0);
                    assert(m.children[c].removed || lt(m.children[c].key, x));
                    lemma_bound_held(m, e.key);
                    lemma_seek(m.children, e.key, 0);
                    let ce = seek(m.children, e.key, 0);
                    if ce != c {
                        assert(m.children[c].value == LeafPtr::At(p));
                        if ce < m.children.len() {
                            assert(m.children[ce].value == LeafPtr::At(p));
                        }
                        assert(false);
                    }
                }
            }
        },
        None => {
            assert forall|x: K| #[trigger] all.dom().contains(x) implies lt(x, k) by {
                if !lt(x, k) {
                    lemma_slot_owned(m, a, x);
                    let cx = seek(m.children, x, 0);
                    lemma_seek(m.children, x, 0);
                    assert(leaf_at(m, cx));
                    lemma_first_in_leaf(a.entries(m.slot(x)->At_0), k, x);
                    assert(exhausted(m, a, k, cx));
                }
            }
        },
    }
}

/// A key that is not less than `k` is not before the leaf that a scan from `k` starts in.
proof fn lemma_where<K: Ord + Clone, V>(
    m: NodeModel<K>,
    a: ArenaModel<K, V>,
    k: K,
    x: K,
    c: int,
)
    requires
        key_laws::<K>(),
        a.wf(),
        m.wf(a),
        m.found(a, x) is Some,
        !lt(x, k),
        0 <= c <= m.children.len(),
        forall|d: int| 0 <= d < c && leaf_at(m, d) ==> exhausted(m, a, k, d),
    ensures
        c <= seek(m.children, x, 0) <= m.children.len(),
        leaf_at(m, seek(m.children, x, 0)),
        handle_at(m, seek(m.children, x, 0)) == m.slot(x),
        m.slot(x) is At,
        holds(a.entries(m.slot(x)->At_0), x),
{
    lemma_slot_owned(m, a, x);
    let cx = seek(m.children, x, 0);
    lemma_seek(m.children, x, 0);
    assert(leaf_at(m, cx));
    let s = a.entries(m.slot(x)->At_0);
    assert(entries_wf(s));
    lemma_first_in_leaf(s, k, x);
    if cx < c {
        assert(exhausted(m, a, k, cx));
    }
}

/// The leaf with the smallest keys starts with the smallest key of the node, if it has a live
/// entry.
pub proof fn law_min<K: Ord + Clone, V>(m: NodeModel<K>, a: ArenaModel<K, V>)
    requires
        key_laws::<K>(),
        a.wf(),
        m.wf(a),
        m.keys_in_place(a),
        first_leaf(m) is At,
    ensures
        ({
            let all = m.contents(a);
            let s = a.entries(first_leaf(m)->At_0);
            let i = next_slot(s, 0, false);
            i < s.len() ==> {
                &&& all.dom().contains(s[i].key)
                &&& all[s[i].key] == s[i].value
                &&& forall|x: K| #[trigger] all.dom().contains(x) ==> !lt(x, s[i].key)
            }
        }),
{
    let all = m.contents(a);
    let p = first_leaf(m)->At_0;
    let s = a.entries(p);
    let i = next_slot(s, 0, false);
    let c = next_slot(m.children, 0, false);
    lemma_next_slot(m.children, 0, false);
    lemma_next_slot(s, 0, false);
    assert(m.owns(LeafPtr::At(p))) by {
        if c < m.children.len() {
            assert(live_at(m.children, c) && m.children[c].value == LeafPtr::At(p));
        }
    }
    lemma_owns_active(m, a, p);
    assert(entries_wf(s));
    if i < s.len() {
        let e = s[i];
        assert(key_at(s, e.key, i));
        lemma_index_of(s, e.key, i);
        assert(m.slot(e.key) == LeafPtr::At(p));
        assert forall|x: K| #[trigger] all.dom().contains(x) implies !lt(x, e.key) by {
            lemma_slot_owned(m, a, x);
            let q = m.slot(x)->At_0;
            let cx = seek(m.children, x, 0);
            lemma_seek(m.children, x, 0);
            if q == p {
                let j = index_of(s, x);
                assert(key_at(s, x, j));
                if j < i {
                    assert(s[j].removed);
                }
                if i < j {
                    assert(lt(s[i].key, s[j].key) || (same(s[i].key, s[j].key) && s[i].removed));
                }
            } else {
                assert(cx != c);
                if cx < c {
                    assert(m.children[cx].removed);
                }
                assert(m.children[c].removed || lt(m.children[c].key, x));
                let ce = seek(m.children, e.key, 0);
                lemma_seek(m.children, e.key, 0);
                if ce != c {
                    assert(m.children[c].value == LeafPtr::At(p));
                    if ce < m.children.len() {
                        assert(m.children[ce].value == LeafPtr::At(p));
                    }
                    assert(false);
                }
            }
        }
    }
}

} // verus!
