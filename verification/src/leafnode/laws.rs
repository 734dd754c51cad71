//! What the operations on a leaf node do to its entries.
use crate::arena::{lemma_links_only, ArenaModel, LeafPtr};
use crate::error::{InsertError, RemoveError};
use crate::leaf::laws::{
    lemma_lookup_copied, lemma_lookup_with_entry, lemma_lookup_without_key, lemma_obsolete_for_good,
};
use crate::leaf::{
    accepts, entries_wf, holds, index_of, is_full, is_obsolete, key_at, lemma_lookup_same,
    lemma_seek, lemma_seek_is, live, lookup, seek, without_key,
};
use crate::leafnode::model::{
    lemma_owns_active, lemma_remove_child, lemma_replace_handle, lemma_same_leaves, lemma_wf_in,
    NodeModel,
};
use crate::leafnode::routing::{
    lemma_alike, lemma_bound_held, lemma_cloned_alike, lemma_leaf_bound, lemma_slot_removed,
    lemma_slot_replaced, lemma_slot_same,
};
use crate::leafnode::scan_laws::complete;
use crate::leafnode::split::{lemma_handle_owned, lemma_split_plans, split_high, split_low, splits};
use crate::leafnode::split_laws::{
    lemma_split_found, lemma_split_frame, lemma_split_owns, lemma_split_parts, lemma_split_shape,
    lemma_split_slot, split_for,
};
use crate::leafnode::write::{full_leaf_outcome, inserts, obsolete_leaf_outcome, remove_outcome};
use crate::order::{alike, bound_cloned, class, key_laws, lt, same};
use crate::scanner::{is_scannable, lemma_next_slot, next_slot};
use vstd::prelude::*;

verus! {

/// The leaf that a key belongs to is one that the node owns.
pub proof fn lemma_slot_owned<K: Ord + Clone, V>(m: NodeModel<K>, a: ArenaModel<K, V>, x: K)
    requires
        key_laws::<K>(),
        m.wf(a),
    ensures
        m.slot(x) matches LeafPtr::At(p) ==> m.owns(LeafPtr::At(p)) && a.active(p),
{
    lemma_bound_held(m, x);
    if let LeafPtr::At(p) = m.slot(x) {
        lemma_handle_owned(m, m.bound(x), p);
        lemma_owns_active(m, a, p);
    }
}

/// Nodes with the same handles, in arenas with the same entries in them, hold the same.
pub proof fn lemma_same_contents<K: Ord + Clone, V>(
    m: NodeModel<K>,
    a: ArenaModel<K, V>,
    m2: NodeModel<K>,
    a2: ArenaModel<K, V>,
)
    requires
        key_laws::<K>(),
        m.wf(a),
        m2.children == m.children,
        m2.unbounded == m.unbounded,
        forall|p: usize| m.owns(LeafPtr::At(p)) ==> #[trigger] a2.entries(p) == a.entries(p),
    ensures
        m2.contents(a2) == m.contents(a),
        m.keys_in_place(a) ==> m2.keys_in_place(a2),
{
    lemma_same_leaves(m, m2);
    assert forall|x: K| #[trigger] m2.found(a2, x) == m.found(a, x) by {
        lemma_slot_owned(m, a, x);
        if let LeafPtr::At(p) = m.slot(x) {
            assert(a2.entries(p) == a.entries(p));
        }
    }
    assert(m2.contents(a2) =~= m.contents(a));
    if m.keys_in_place(a) {
        assert forall|p: usize, x: K|
            #![trigger m2.owns(LeafPtr::At(p)), holds(a2.entries(p), x)]
            m2.owns(LeafPtr::At(p)) && holds(a2.entries(p), x) implies m2.slot(x)
            == LeafPtr::At(p) by {
            assert(a2.entries(p) == a.entries(p));
            assert(m.owns(LeafPtr::At(p)) && holds(a.entries(p), x));
        }
    }
}

/// An insertion that succeeds adds the entry and nothing else. One that fails changes nothing and
/// hands the entry back; it is refused as a duplicate exactly if the key is taken. Either way
/// every key stands in the leaf that it belongs to.
///
/// A split clones values: after it, clones stand for the values that were there.
pub proof fn law_insert<K: Ord + Clone, V: Clone>(
    m: NodeModel<K>,
    a: ArenaModel<K, V>,
    k: K,
    v: V,
    r: Result<(), InsertError<K, V>>,
    m2: NodeModel<K>,
    a2: ArenaModel<K, V>,
)
    requires
        key_laws::<K>(),
        a.wf(),
        a2.wf(),
        m.wf(a),
        m.keys_in_place(a),
        inserts(m, a, k, v, r, m2, a2),
    ensures
        m2.keys_in_place(a2),
        r is Ok ==> {
            let before = m.contents(a);
            let after = m2.contents(a2);
            &&& !before.dom().contains(k)
            &&& after.dom() == before.dom().union(class(k))
            &&& forall|x: K| #[trigger] same(x, k) ==> cloned(v, after[x])
            &&& forall|x: K| #[trigger] before.dom().contains(x) ==> cloned(before[x], after[x])
        },
        r matches Err(e) ==> {
            &&& m2.contents(a2) == m.contents(a)
            &&& e == InsertError::Duplicated((k, v)) || e == InsertError::Full((k, v)) || e
                == InsertError::Retry((k, v))
        },
        (r matches Err(InsertError::Duplicated(_))) <==> m.contents(a).dom().contains(k),
{
    let before = m.contents(a);
    let after = m2.contents(a2);
    lemma_slot_owned(m, a, k);
    match m.slot(k) {
        LeafPtr::Null => {},
        LeafPtr::At(p) => {
            let s = a.entries(p);
            assert(entries_wf(s));
            if accepts(s, k) {
                assert forall|x: K| #[trigger] m2.found(a2, x) == if same(x, k) {
                    Some(v)
                } else {
                    m.found(a, x)
                } by {
                    lemma_lookup_with_entry(s, k, v, x);
                    lemma_slot_owned(m, a, x);
                    if same(x, k) {
                        lemma_slot_same(m, x, k);
                    }
                }
                assert(after.dom() =~= before.dom().union(class(k)));
                assert forall|x: K| #[trigger] same(x, k) implies !before.dom().contains(x) by {
                    lemma_slot_same(m, x, k);
                    lemma_lookup_same(s, x, k);
                }
                assert forall|q: usize, x: K|
                    #![trigger m2.owns(LeafPtr::At(q)), holds(a2.entries(q), x)]
                    m2.owns(LeafPtr::At(q)) && holds(a2.entries(q), x) implies m2.slot(x)
                    == LeafPtr::At(q) by {
                    if q == p {
                        lemma_lookup_with_entry(s, k, v, x);
                        if !same(x, k) {
                            assert(holds(a.entries(p), x));
                        } else {
                            lemma_slot_same(m, x, k);
                        }
                    } else {
                        assert(holds(a.entries(q), x));
                    }
                }
            } else if holds(s, k) {
            } else {
                let bound = choose|bound: Option<K>|
                    bound_cloned(m.bound(k), bound) && #[trigger] splits(
                        m,
                        a,
                        k,
                        v,
                        bound,
                        p,
                        r,
                        m2,
                        a2,
                    );
                lemma_cloned_alike(m.bound(k), bound);
                law_split(m, a, k, v, bound, p, r, m2, a2);
            }
        },
    }
}

/// A split that an insertion leads to.
proof fn law_split<K: Ord + Clone, V: Clone>(
    m: NodeModel<K>,
    a: ArenaModel<K, V>,
    k: K,
    v: V,
    bound: Option<K>,
    full: usize,
    r: Result<(), InsertError<K, V>>,
    m2: NodeModel<K>,
    a2: ArenaModel<K, V>,
)
    requires
        key_laws::<K>(),
        a.wf(),
        a2.wf(),
        m.wf(a),
        m.keys_in_place(a),
        m.slot(k) == LeafPtr::At(full),
        !holds(a.entries(full), k),
        alike(m.bound(k), bound),
        splits(m, a, k, v, bound, full, r, m2, a2),
    ensures
        m2.keys_in_place(a2),
        !m.contents(a).dom().contains(k),
        r is Ok ==> {
            let before = m.contents(a);
            let after = m2.contents(a2);
            &&& after.dom() == before.dom().union(class(k))
            &&& forall|x: K| #[trigger] same(x, k) ==> cloned(v, after[x])
            &&& forall|x: K| #[trigger] before.dom().contains(x) ==> cloned(before[x], after[x])
        },
        r matches Err(e) ==> {
            &&& m2.contents(a2) == m.contents(a)
            &&& e == InsertError::Full((k, v)) || e == InsertError::Retry((k, v))
        },
{
    let before = m.contents(a);
    let after = m2.contents(a2);
    lemma_bound_held(m, k);
    if m.new_leaves is None {
        assert(split_for(m, a, k, v, full, r, m2, a2));
        lemma_split_frame(m, a, k, v, full, r, m2, a2);
        if r is Ok {
            assert forall|x: K| #[trigger]
                after.dom().contains(x) <==> before.dom().union(class(k)).contains(x) by {
                lemma_split_found(m, a, k, v, full, m2, a2, x);
            }
            assert(after.dom() =~= before.dom().union(class(k)));
            assert forall|x: K| #[trigger] same(x, k) implies cloned(v, after[x]) by {
                lemma_split_found(m, a, k, v, full, m2, a2, x);
            }
            assert forall|x: K| #[trigger] before.dom().contains(x) implies cloned(
                before[x],
                after[x],
            ) by {
                lemma_split_found(m, a, k, v, full, m2, a2, x);
                if same(x, k) {
                    lemma_slot_same(m, x, k);
                    lemma_lookup_same(a.entries(full), x, k);
                }
            }
            lemma_split_in_place(m, a, k, v, full, m2, a2);
        } else {
            assert forall|p: usize| m.owns(LeafPtr::At(p)) implies #[trigger] a2.entries(p)
                == a.entries(p) by {
                lemma_owns_active(m, a, p);
            }
            lemma_same_contents(m, a, m2, a2);
        }
    }
}

/// After a split every key stands in the leaf that it belongs to.
proof fn lemma_split_in_place<K: Ord + Clone, V: Clone>(
    m: NodeModel<K>,
    a: ArenaModel<K, V>,
    k: K,
    v: V,
    full: usize,
    m2: NodeModel<K>,
    a2: ArenaModel<K, V>,
)
    requires
        split_for(m, a, k, v, full, Ok(()), m2, a2),
        m.keys_in_place(a),
    ensures
        m2.keys_in_place(a2),
{
    let s = a.entries(full);
    let low = a.next as usize;
    let high = (a.next + 1) as usize;
    let low_plan = split_low(live(s), k, v);
    let high_plan = split_high(live(s), k, v);
    lemma_split_frame(m, a, k, v, full, Ok(()), m2, a2);
    lemma_split_owns(m, a, k, v, full, m2, a2);
    assert(entries_wf(s));
    assert forall|q: usize, x: K|
        #![trigger m2.owns(LeafPtr::At(q)), holds(a2.entries(q), x)]
        m2.owns(LeafPtr::At(q)) && holds(a2.entries(q), x) implies m2.slot(x) == LeafPtr::At(
        q,
    ) by {
        lemma_split_slot(m, a, k, v, full, m2, a2, x);
        lemma_bound_held(m, x);
        if m.owns(LeafPtr::At(q)) {
            lemma_owns_active(m, a, q);
            assert(holds(a.entries(q), x));
            assert(m.slot(x) == LeafPtr::At(q));
        } else {
            lemma_split_plans(s, k, v);
            lemma_split_parts(s, k, v, x);
            if q == low {
                lemma_lookup_copied(low_plan, a2.entries(low), x);
            } else {
                lemma_lookup_copied(high_plan, a2.entries(high), x);
            }
            if !same(x, k) {
                assert(lookup(s, x) is Some);
                assert(holds(s, x));
                lemma_leaf_bound(m, x, k, full);
            } else {
                lemma_slot_same(m, x, k);
            }
        }
    }
}

/// A removal takes out the entry with the key and nothing else, whatever its result. The flag in
/// the result says whether there was one.
pub proof fn law_remove<K: Ord + Clone, V>(m: NodeModel<K>, a: ArenaModel<K, V>, k: K)
    requires
        key_laws::<K>(),
        a.wf(),
        m.wf(a),
        m.keys_in_place(a),
    ensures
        ({
            let (r, m2, a2) = remove_outcome(m, a, k);
            let removed = match r {
                Ok(b) => b,
                Err(RemoveError::Coalesce(b)) => b,
                Err(RemoveError::Retry(b)) => b,
            };
            &&& removed == m.contents(a).dom().contains(k)
            &&& m2.contents(a2) == m.contents(a).remove_keys(class(k))
            &&& m2.keys_in_place(a2)
        }),
{
    let before = m.contents(a);
    let (r, m2, a2) = remove_outcome(m, a, k);
    lemma_slot_owned(m, a, k);
    match m.slot(k) {
        LeafPtr::Null => {
            assert(before.remove_keys(class(k)) =~= before) by {
                assert forall|x: K| #[trigger] same(x, k) implies m.found(a, x) is None by {
                    lemma_slot_same(m, x, k);
                }
            }
        },
        LeafPtr::At(p) => {
            let s = a.entries(p);
            let t = without_key(s, k);
            let a1 = a.with_entries(p, t);
            assert(entries_wf(s));
            assert forall|x: K| #[trigger] m.found(a1, x) == if same(x, k) {
                None
            } else {
                m.found(a, x)
            } by {
                lemma_lookup_without_key(s, k, x);
                if same(x, k) {
                    lemma_slot_same(m, x, k);
                }
            }
            assert(m.contents(a1) =~= before.remove_keys(class(k)));
            assert(m.keys_in_place(a1)) by {
                assert forall|q: usize, x: K|
                    #![trigger m.owns(LeafPtr::At(q)), holds(a1.entries(q), x)]
                    m.owns(LeafPtr::At(q)) && holds(a1.entries(q), x) implies m.slot(x)
                    == LeafPtr::At(q) by {
                    if q == p {
                        lemma_lookup_without_key(s, k, x);
                        assert(holds(a.entries(p), x));
                    } else {
                        assert(holds(a.entries(q), x));
                    }
                }
            }
            if is_obsolete(t) {
                assert(m.wf(a1)) by {
                    lemma_wf_in(m, a, a1);
                }
                assert(is_obsolete(a1.entries(p)));
                law_remove_obsolete_leaf(m, a1, holds(s, k), k, p);
            }
        },
    }
}

/// The keys of a leaf that is taken out all go to the next leaf.
proof fn lemma_slot_next<K: Ord + Clone>(m: NodeModel<K>, b: K, x: K)
    requires
        key_laws::<K>(),
        m.shape(),
        m.bound(x) == Some(b),
    ensures
        ({
            let t = without_key(m.children, b);
            let i = next_slot(t, index_of(m.children, b) + 1, false);
            NodeModel { children: t, ..m }.slot(x) == if i < t.len() {
                t[i].value
            } else {
                m.unbounded
            }
        }),
{
    let s = m.children;
    let t = without_key(s, b);
    let n = index_of(s, b);
    lemma_bound_held(m, x);
    lemma_seek(s, x, 0);
    assert(key_at(s, b, n));
    let i = next_slot(t, n + 1, false);
    lemma_next_slot(t, n + 1, false);
    assert forall|j: int| 0 <= j < i implies (#[trigger] t[j]).removed || lt(t[j].key, x) by {
        if j < n {
            assert(s[j].removed || lt(s[j].key, x));
        } else if j > n {
            assert(!is_scannable(t[j], false));
        }
    }
    if i < t.len() {
        assert(lt(s[n].key, s[i].key) || (same(s[n].key, s[i].key) && s[n].removed));
    }
    lemma_seek_is(t, x, 0, i);
}

/// A removal leaves the keys of other leaves where they are. The keys of the leaf that the key
/// belongs to stay there too, or all go to the next leaf.
proof fn lemma_remove_slots<K: Ord + Clone, V>(m: NodeModel<K>, a: ArenaModel<K, V>, k: K, x: K)
    requires
        key_laws::<K>(),
        m.wf(a),
    ensures
        ({
            let m2 = remove_outcome(m, a, k).1;
            &&& m.bound(x) != m.bound(k) ==> m2.slot(x) == m.slot(x)
            &&& m.bound(x) == m.bound(k) ==> m2.slot(x) == m2.slot(k) && m.slot(x) == m.slot(k)
        }),
{
    let m2 = remove_outcome(m, a, k).1;
    lemma_bound_held(m, k);
    lemma_bound_held(m, x);
    if let LeafPtr::At(p) = m.slot(k) {
        let t = without_key(a.entries(p), k);
        let bound = m.bound(k);
        if is_obsolete(t) && m.new_leaves is None && bound is Some {
            let b = bound->0;
            let n = m.with_handle(bound, LeafPtr::Null);
            lemma_replace_handle(m, a, bound, LeafPtr::Null);
            lemma_slot_replaced(m, bound, LeafPtr::Null, x);
            lemma_slot_replaced(m, bound, LeafPtr::Null, k);
            lemma_slot_removed(n, b, x);
            assert(m2 == (NodeModel { children: without_key(n.children, b), ..n }));
            lemma_slot_next(n, b, k);
            if m.bound(x) == bound {
                lemma_slot_next(n, b, x);
            }
        }
    }
}

/// Inserting a key that is not there and removing it again succeeds, and every lookup then gives
/// what it gave before.
///
/// A split clones values: after it, clones stand for the values that were there. If the node has
/// null handles, the removal can take out a leaf that is followed by a null handle; then the keys
/// of that leaf have no leaf any more.
pub proof fn law_insert_remove<K: Ord + Clone, V: Clone>(
    m: NodeModel<K>,
    a: ArenaModel<K, V>,
    k: K,
    v: V,
    m2: NodeModel<K>,
    a2: ArenaModel<K, V>,
)
    requires
        key_laws::<K>(),
        a.wf(),
        a2.wf(),
        m.wf(a),
        m2.wf(a2),
        m.keys_in_place(a),
        m.new_leaves is None,
        inserts(m, a, k, v, Ok(()), m2, a2),
    ensures
        ({
            let (r, m3, a3) = remove_outcome(m2, a2, k);
            let before = m.contents(a);
            let after = m3.contents(a3);
            &&& r == Ok::<bool, RemoveError>(true) || r == Err::<bool, RemoveError>(
                RemoveError::Coalesce(true),
            )
            &&& after.dom() == before.dom()
            &&& forall|x: K| #[trigger] before.dom().contains(x) ==> cloned(before[x], after[x])
            &&& m3.slot(k) is At ==> forall|x: K| #[trigger]
                m3.slot(x) is Null <==> m.slot(x) is Null
            &&& complete(m) ==> m3.slot(k) is At
        }),
{
    let (r, m3, a3) = remove_outcome(m2, a2, k);
    let before = m.contents(a);
    let between = m2.contents(a2);
    let after = m3.contents(a3);
    law_insert(m, a, k, v, Ok(()), m2, a2);
    law_remove(m2, a2, k);
    lemma_slot_owned(m, a, k);
    assert(between.dom().contains(k));
    assert forall|x: K| #[trigger] same(x, k) implies !before.dom().contains(x) by {
        lemma_slot_same(m, x, k);
        if let LeafPtr::At(q) = m.slot(k) {
            lemma_lookup_same(a.entries(q), x, k);
        }
    }
    assert(after.dom() =~= before.dom());
    let p = m.slot(k)->At_0;
    let split = !accepts(a.entries(p), k);
    if split {
        lemma_bound_held(m, k);
        assert(split_for(m, a, k, v, p, Ok(()), m2, a2));
    }
    assert forall|x: K| #[trigger] m2.slot(x) is Null <==> m.slot(x) is Null by {
        if split {
            lemma_split_slot(m, a, k, v, p, m2, a2, x);
            lemma_bound_held(m, x);
        }
    }
    assert forall|x: K| m3.slot(k) is At implies (#[trigger] m3.slot(x) is Null <==> m.slot(x)
        is Null) by {
        lemma_remove_slots(m2, a2, k, x);
        assert(m2.slot(x) is Null <==> m.slot(x) is Null);
    }
    if complete(m) {
        assert forall|x: K| #[trigger] m.slot(x) is At by {
            lemma_seek(m.children, x, 0);
        }
        lemma_remove_complete(m2, a2, k);
    }
}

/// If every key has a leaf, and there is an unbounded one, a removal leaves a leaf for its key.
pub proof fn lemma_remove_complete<K: Ord + Clone, V>(m: NodeModel<K>, a: ArenaModel<K, V>, k: K)
    requires
        key_laws::<K>(),
        a.wf(),
        m.wf(a),
        forall|x: K| #[trigger] m.slot(x) is At,
        m.unbounded is At,
    ensures
        remove_outcome(m, a, k).1.slot(k) is At,
{
    let m2 = remove_outcome(m, a, k).1;
    lemma_bound_held(m, k);
    if let LeafPtr::At(p) = m.slot(k) {
        let t = without_key(a.entries(p), k);
        let bound = m.bound(k);
        if is_obsolete(t) && m.new_leaves is None && bound is Some {
            let b = bound->0;
            let n = m.with_handle(bound, LeafPtr::Null);
            lemma_replace_handle(m, a, bound, LeafPtr::Null);
            lemma_remove_child(n, a, b);
            assert(m2 == (NodeModel { children: without_key(n.children, b), ..n }));
            lemma_slot_replaced(m, bound, LeafPtr::Null, k);
            lemma_slot_removed(n, b, k);
            lemma_bound_held(m2, k);
            if let Some(c) = m2.bound(k) {
                // The next bound is one that the node had before.
                let i = index_of(m2.children, c);
                assert(key_at(m2.children, c, i));
                assert(key_at(m.children, c, i));
                lemma_own_bound(m, c);
                lemma_own_bound(m2, c);
                lemma_bound_held(m2, c);
                lemma_remove_slots(m, a, k, c);
                assert(m.slot(c) is At);
            }
        }
    }
}

/// A bound belongs to the leaf that it is the bound of.
pub proof fn lemma_own_bound<K: Ord + Clone>(m: NodeModel<K>, c: K)
    requires
        key_laws::<K>(),
        m.shape(),
        holds(m.children, c),
    ensures
        alike(m.bound(c), Some(c)),
{
    let s = m.children;
    let i = seek(s, c, 0);
    let j = index_of(s, c);
    lemma_seek(s, c, 0);
    assert(key_at(s, c, j));
    if j < i {
        assert(s[j].removed || lt(s[j].key, c));
    }
    if i < j {
        assert(lt(s[i].key, s[j].key) || (same(s[i].key, s[j].key) && s[i].removed));
    }
}

/// Taking out an obsolete leaf takes out no entry. A node that lost a leaf by it does not own that
/// leaf any more.
pub proof fn law_remove_obsolete_leaf<K: Ord + Clone, V>(
    m: NodeModel<K>,
    a: ArenaModel<K, V>,
    removed: bool,
    k: K,
    leaf: usize,
)
    requires
        key_laws::<K>(),
        m.wf(a),
        m.keys_in_place(a),
        is_obsolete(a.entries(leaf)),
    ensures
        ({
            let (r, m2, a2) = obsolete_leaf_outcome(m, a, removed, k, m.bound(k), leaf);
            &&& m2.contents(a2) == m.contents(a)
            &&& m2.keys_in_place(a2)
            &&& m2 != m ==> !m2.owns(LeafPtr::At(leaf))
        }),
{
    let bound = m.bound(k);
    let (r, m2, a2) = obsolete_leaf_outcome(m, a, removed, k, bound, leaf);
    lemma_bound_held(m, k);
    lemma_links_only(a, leaf, leaf);
    if m.new_leaves is None && m.slot(k) == LeafPtr::At(leaf) && bound is Some {
        let b = bound->0;
        let n = m.with_handle(bound, LeafPtr::Null);
        lemma_handle_owned(m, bound, leaf);
        lemma_replace_handle(m, a, bound, LeafPtr::Null);
        lemma_remove_child(n, a, b);
        assert(m2.children == without_key(n.children, b));
        assert(m2 == (NodeModel { children: without_key(n.children, b), ..n }));
        // A key with that bound is in no leaf.
        assert forall|x: K| m.bound(x) == bound implies m.found(a, x) is None && m2.found(
            a2,
            x,
        ) is None by {
            lemma_bound_held(m, x);
            lemma_obsolete_for_good(a.entries(leaf), x, a.entries(leaf)[0].value);
            if let LeafPtr::At(q) = m2.slot(x) {
                if holds(a2.entries(q), x) {
                    lemma_slot_owned(m2, a, x);
                    assert(a2.entries(q) == a.entries(q));
                    if n.owns(LeafPtr::At(q)) {
                        assert(m.owns(LeafPtr::At(q)));
                        assert(m.slot(x) == LeafPtr::At(q));
                        assert(q == leaf);
                    }
                }
            }
        }
        assert forall|x: K| m.bound(x) != bound implies m2.slot(x) == m.slot(x) by {
            lemma_alike(m, x, k);
            lemma_slot_replaced(m, bound, LeafPtr::Null, x);
            lemma_slot_removed(n, b, x);
        }
        assert forall|x: K| #[trigger] m2.found(a2, x) == m.found(a, x) by {
            if m.bound(x) != bound {
                if let LeafPtr::At(q) = m.slot(x) {
                    assert(a2.entries(q) == a.entries(q));
                }
            }
        }
        assert(m2.contents(a2) =~= m.contents(a));
        assert forall|q: usize, x: K|
            #![trigger m2.owns(LeafPtr::At(q)), holds(a2.entries(q), x)]
            m2.owns(LeafPtr::At(q)) && holds(a2.entries(q), x) implies m2.slot(x)
            == LeafPtr::At(q) by {
            assert(a2.entries(q) == a.entries(q));
            assert(n.owns(LeafPtr::At(q)));
            assert(m.owns(LeafPtr::At(q)));
            assert(m.slot(x) == LeafPtr::At(q));
            lemma_bound_held(m, x);
            if m.bound(x) == bound {
                assert(q == leaf);
            }
        }
    }
}

/// An operation that still holds a leaf which the node has let go of has to start again, and
/// changes nothing.
pub proof fn law_stale_leaf<K: Ord + Clone, V: Clone>(
    m: NodeModel<K>,
    a: ArenaModel<K, V>,
    k: K,
    v: V,
    bound: Option<K>,
    leaf: usize,
    removed: bool,
)
    requires
        key_laws::<K>(),
        m.wf(a),
        !m.owns(LeafPtr::At(leaf)),
    ensures
        forall|r: Result<(), InsertError<K, V>>, m2: NodeModel<K>, a2: ArenaModel<K, V>|
            #[trigger] splits(m, a, k, v, bound, leaf, r, m2, a2) ==> {
                &&& r == Err::<(), InsertError<K, V>>(InsertError::Retry((k, v)))
                &&& m2 == m
                &&& a2 == a
            },
        full_leaf_outcome(m, removed, k, leaf) == Err::<bool, RemoveError>(
            RemoveError::Retry(removed),
        ),
        obsolete_leaf_outcome(m, a, removed, k, bound, leaf) == (
            Err::<bool, RemoveError>(RemoveError::Retry(removed)),
            m,
            a,
        ),
{
    lemma_slot_owned(m, a, k);
    if m.handle(bound) == LeafPtr::At(leaf) {
        lemma_handle_owned(m, bound, leaf);
    }
}

/// An entry is not lost to a split: the leaf that is split is full, so it refuses an entry that
/// comes late, and the insertion has to start again.
pub proof fn law_late_insert<K: Ord + Clone, V: Clone>(
    m: NodeModel<K>,
    a: ArenaModel<K, V>,
    k: K,
    v: V,
    r: Result<(), InsertError<K, V>>,
    m2: NodeModel<K>,
    a2: ArenaModel<K, V>,
    leaf: usize,
    x: K,
    w: V,
    bound: Option<K>,
)
    requires
        split_for(m, a, k, v, leaf, r, m2, a2),
        is_full(a.entries(leaf)),
        m2.wf(a2),
    ensures
        !accepts(a2.entries(leaf), x),
        forall|r3: Result<(), InsertError<K, V>>, m3: NodeModel<K>, a3: ArenaModel<K, V>|
            #[trigger] splits(m2, a2, x, w, bound, leaf, r3, m3, a3) ==> {
                &&& r3 == Err::<(), InsertError<K, V>>(InsertError::Retry((x, w)))
                &&& m3 == m2
                &&& a3 == a2
            },
{
    lemma_split_frame(m, a, k, v, leaf, r, m2, a2);
    let max = lemma_split_shape(m, a, k, v, leaf, r, m2, a2);
    if r is Ok {
        lemma_split_owns(m, a, k, v, leaf, m2, a2);
        law_stale_leaf(m2, a2, x, w, bound, leaf, false);
    }
}

/// A removal from a full leaf is not lost to a split: once a split has begun to copy the leaf, the
/// check that follows the removal asks for another attempt, while the split is under way and after
/// it.
pub proof fn law_check_sees_split<K: Ord + Clone, V: Clone>(
    m: NodeModel<K>,
    a: ArenaModel<K, V>,
    k: K,
    v: V,
    full: usize,
    r: Result<(), InsertError<K, V>>,
    m2: NodeModel<K>,
    a2: ArenaModel<K, V>,
    removed: bool,
    x: K,
)
    requires
        split_for(m, a, k, v, full, r, m2, a2),
        m2.wf(a2),
    ensures
        forall|locked: NodeModel<K>|
            locked.new_leaves is Some ==> #[trigger] full_leaf_outcome(locked, removed, x, full)
                == Err::<bool, RemoveError>(RemoveError::Retry(removed)),
        full_leaf_outcome(m2, removed, x, full) == Err::<bool, RemoveError>(
            RemoveError::Retry(removed),
        ),
{
    if r is Ok {
        lemma_split_owns(m, a, k, v, full, m2, a2);
        law_stale_leaf(m2, a2, x, v, None, full, removed);
    } else {
        let max = lemma_split_shape(m, a, k, v, full, r, m2, a2);
    }
}

} // verus!
