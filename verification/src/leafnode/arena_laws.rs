//! What the operations on a leaf node do to other leaves and other nodes.
use crate::arena::{lemma_discarded, lemma_linked_before, lemma_links_only, ArenaModel, LeafPtr};
use crate::error::InsertError;
use crate::leaf::laws::lemma_obsolete_for_good;
use crate::leaf::{
    accepts, holds, is_obsolete, lemma_seek, lemma_seek_is, live, live_at, seek, without_key, Entry,
};
use crate::leafnode::laws::{lemma_same_contents, lemma_slot_owned};
use crate::leafnode::merge::merge_outcome;
use crate::leafnode::model::{
    lemma_add_child, lemma_owns_active, lemma_remove_child, lemma_replace_handle, lemma_same_leaves,
    lemma_wf_in, NodeModel,
};
use crate::leafnode::release::discarded_at;
use crate::leafnode::routing::{lemma_bound_held, lemma_slot_added};
use crate::leafnode::split::{lemma_accepts_same, lemma_handle_owned, split_high, splits};
use crate::leafnode::split_laws::{lemma_split_frame, lemma_split_owns, split_for};
use crate::leafnode::write::{inserts, remove_outcome};
use crate::order::{bound_cloned, key_laws, lt, same};
use crate::scanner::{lemma_next_slot, next_slot};
use vstd::prelude::*;

verus! {

/// The two nodes have no leaf in common.
pub open spec fn apart<K: Ord>(m: NodeModel<K>, n: NodeModel<K>) -> bool {
    forall|p: usize| !(#[trigger] m.owns(LeafPtr::At(p)) && n.owns(LeafPtr::At(p)))
}

/// What links the leaves around a leaf that was replaced by `low` and `high`: the neighbours of
/// the leaf, and the new leaves between them.
pub open spec fn spliced<K, V>(
    a: ArenaModel<K, V>,
    leaf: usize,
    low: usize,
    high: usize,
    a2: ArenaModel<K, V>,
) -> bool {
    let prev = a.cells[leaf].backward;
    let next = a.cells[leaf].forward;
    &&& a2.cells[low].backward == prev
    &&& low != high ==> a2.cells[low].forward == LeafPtr::At(high) && a2.cells[high].backward
        == LeafPtr::At(low)
    &&& a2.cells[high].forward == next
    &&& prev matches LeafPtr::At(p) ==> a2.cells[p].forward == LeafPtr::At(low)
    &&& next matches LeafPtr::At(n) ==> a2.cells[n].backward == LeafPtr::At(high)
}

/// A split that succeeds puts the new leaves, the low-key leaf first, into the list where the full
/// leaf stood, and discards that one alone.
pub proof fn law_split_list<K: Ord + Clone, V: Clone>(
    m: NodeModel<K>,
    a: ArenaModel<K, V>,
    k: K,
    v: V,
    bound: Option<K>,
    full: usize,
    m2: NodeModel<K>,
    a2: ArenaModel<K, V>,
)
    requires
        a.wf(),
        a2.wf(),
        m.wf(a),
        splits(m, a, k, v, bound, full, Ok(()), m2, a2),
    ensures
        ({
            let low = a.next as usize;
            let high = if split_high(live(a.entries(full)), k, v).len() > 0 {
                (a.next + 1) as usize
            } else {
                low
            };
            &&& spliced(a, full, low, high, a2)
            &&& !a2.active(full)
            &&& forall|q: usize| #[trigger]
                a2.active(q) <==> (a.active(q) && q != full) || q == low || q == high
        }),
{
    let low = a.next as usize;
    lemma_handle_owned(m, bound, full);
    lemma_owns_active(m, a, full);
    assert(a.linked(full));
    let prev = a.cells[full].backward;
    let next = a.cells[full].forward;
    let f = choose|f: spec_fn(usize) -> int| a.in_line(f);
    if let LeafPtr::At(p) = prev {
        assert(a.active(p));
        assert(a.linked(p));
        assert(f(p) < f(full));
    }
    if let LeafPtr::At(p) = next {
        assert(a.active(p));
        assert(a.linked(p));
        assert(f(full) < f(p));
    }
    let b1 = a.allocated(a2.entries(low));
    if split_high(live(a.entries(full)), k, v).len() == 0 {
        let b2 = b1.linked_before(full, low);
        assert(a2 == b2.discarded(full));
        lemma_links_only(b1, full, low);
        lemma_links_only(b2, full, full);
        assert(a2.next == a.next + 1);
        assert(!a.cells.dom().contains(low));
        assert(!a.retired.contains(low)) by {
            if a.retired.contains(low) {
                assert(a.cells.dom().contains(low));
            }
        }
        assert(b2.cells[low].backward == prev);
        assert(b2.cells[full].backward == LeafPtr::At(low));
        assert(b2.cells[full].forward == next);
        assert forall|q: usize| #[trigger]
            a2.active(q) <==> (a.active(q) && q != full) || q == low by {}
    } else {
        let high = (a.next + 1) as usize;
        let b2 = b1.allocated(a2.entries(high));
        let b3 = b2.linked_before(full, low);
        let b4 = b3.linked_before(full, high);
        assert(a2 == b4.discarded(full));
        lemma_links_only(b2, full, low);
        lemma_links_only(b3, full, high);
        lemma_links_only(b4, full, full);
        assert(a2.next == a.next + 2);
        assert(!a.cells.dom().contains(low) && !a.cells.dom().contains(high));
        assert(!a.retired.contains(low)) by {
            if a.retired.contains(low) {
                assert(a.cells.dom().contains(low));
            }
        }
        assert(!a.retired.contains(high)) by {
            if a.retired.contains(high) {
                assert(a.cells.dom().contains(high));
            }
        }
        assert(b3.cells[low].backward == prev);
        assert(b3.cells[full].backward == LeafPtr::At(low));
        assert(b4.cells[low].forward == LeafPtr::At(high));
        assert(b4.cells[high].backward == LeafPtr::At(low));
        assert(b4.cells[full].backward == LeafPtr::At(high));
        assert(b4.cells[full].forward == next);
        assert forall|q: usize| #[trigger]
            a2.active(q) <==> (a.active(q) && q != full) || q == low || q == high by {}
    }
}

/// An insertion leaves other nodes as they are.
pub proof fn law_insert_apart<K: Ord + Clone, V: Clone>(
    m: NodeModel<K>,
    a: ArenaModel<K, V>,
    k: K,
    v: V,
    r: Result<(), InsertError<K, V>>,
    m2: NodeModel<K>,
    a2: ArenaModel<K, V>,
    other: NodeModel<K>,
)
    requires
        key_laws::<K>(),
        a.wf(),
        a2.wf(),
        m.wf(a),
        other.wf(a),
        apart(m, other),
        inserts(m, a, k, v, r, m2, a2),
    ensures
        other.wf(a2),
        other.contents(a2) == other.contents(a),
        other.keys_in_place(a) ==> other.keys_in_place(a2),
        apart(m2, other),
{
    lemma_slot_owned(m, a, k);
    if let LeafPtr::At(p) = m.slot(k) {
        let s = a.entries(p);
        if !accepts(s, k) && !holds(s, k) && m.new_leaves is None {
            lemma_bound_held(m, k);
            assert(split_for(m, a, k, v, p, r, m2, a2));
            lemma_split_frame(m, a, k, v, p, r, m2, a2);
            let low = a.next as usize;
            let high = (a.next + 1) as usize;
            if r is Ok {
                let bound = choose|bound: Option<K>|
                    bound_cloned(m.bound(k), bound) && #[trigger] splits(
                        m,
                        a,
                        k,
                        v,
                        bound,
                        p,
                        r,
                        m2,
                        a2,
                    );
                law_split_list(m, a, k, v, bound, p, m2, a2);
                lemma_split_owns(m, a, k, v, p, m2, a2);
            } else {
                let b1 = a.allocated(a2.entries(low));
                let b2 = b1.allocated(a2.entries(high));
                let b3 = b2.linked_before(p, low);
                lemma_links_only(b2, p, low);
                lemma_links_only(b3, p, high);
                lemma_same_leaves(m, m2);
            }
            assert forall|q: usize| other.owns(LeafPtr::At(q)) implies a2.active(q)
                && #[trigger] a2.entries(q) == a.entries(q) && q != low && (a2.next == a.next + 2
                ==> q != high) by {
                lemma_owns_active(other, a, q);
                assert(q < a.next);
                assert(!(m.owns(LeafPtr::At(q)) && other.owns(LeafPtr::At(q))));
            }
            assert forall|q: usize|
                !(#[trigger] m2.owns(LeafPtr::At(q)) && other.owns(LeafPtr::At(q))) by {
                assert(!(m.owns(LeafPtr::At(q)) && other.owns(LeafPtr::At(q))));
                if other.owns(LeafPtr::At(q)) {
                    lemma_owns_active(other, a, q);
                    assert(q < a.next);
                }
            }
        } else {
            assert forall|q: usize| other.owns(LeafPtr::At(q)) implies #[trigger] a2.entries(q)
                == a.entries(q) by {
                assert(!(m.owns(LeafPtr::At(q)) && other.owns(LeafPtr::At(q))));
            }
        }
    }
    lemma_wf_in(other, a, a2);
    lemma_same_contents(other, a, other, a2);
}

/// A removal leaves other nodes as they are.
pub proof fn law_remove_apart<K: Ord + Clone, V>(
    m: NodeModel<K>,
    a: ArenaModel<K, V>,
    k: K,
    other: NodeModel<K>,
)
    requires
        key_laws::<K>(),
        a.wf(),
        m.wf(a),
        other.wf(a),
        apart(m, other),
    ensures
        ({
            let (r, m2, a2) = remove_outcome(m, a, k);
            &&& other.wf(a2)
            &&& other.contents(a2) == other.contents(a)
            &&& other.keys_in_place(a) ==> other.keys_in_place(a2)
            &&& apart(m2, other)
        }),
{
    let (r, m2, a2) = remove_outcome(m, a, k);
    lemma_slot_owned(m, a, k);
    if let LeafPtr::At(p) = m.slot(k) {
        let a1 = a.with_entries(p, without_key(a.entries(p), k));
        lemma_links_only(a1, p, p);
        assert forall|q: usize| other.owns(LeafPtr::At(q)) implies a2.active(q)
            && #[trigger] a2.entries(q) == a.entries(q) by {
            lemma_owns_active(other, a, q);
            assert(!(m.owns(LeafPtr::At(q)) && other.owns(LeafPtr::At(q))));
            assert(q != p);
            assert(a1.entries(q) == a.entries(q));
        }
        let bound = m.bound(k);
        lemma_bound_held(m, k);
        let n = m.with_handle(bound, LeafPtr::Null);
        lemma_replace_handle(m, a, bound, LeafPtr::Null);
        if let Some(b) = bound {
            lemma_remove_child(n, a, b);
        }
        assert forall|q: usize|
            !(#[trigger] m2.owns(LeafPtr::At(q)) && other.owns(LeafPtr::At(q))) by {
            assert(!(m.owns(LeafPtr::At(q)) && other.owns(LeafPtr::At(q))));
            if m2.owns(LeafPtr::At(q)) && m2 != m {
                assert(n.owns(LeafPtr::At(q)));
            }
        }
        lemma_wf_in(other, a, a2);
        lemma_same_contents(other, a, other, a2);
    }
}

/// Freeing the discarded leaves leaves every node as it is. Those leaves are gone, and all others
/// are there as they were.
pub proof fn law_reclaim<K: Ord + Clone, V>(m: NodeModel<K>, a: ArenaModel<K, V>)
    requires
        key_laws::<K>(),
        a.wf(),
        m.wf(a),
    ensures
        m.wf(a.reclaimed()),
        m.contents(a.reclaimed()) == m.contents(a),
        m.keys_in_place(a) ==> m.keys_in_place(a.reclaimed()),
        a.reclaimed().next == a.next,
        forall|p: usize| !#[trigger] a.reclaimed().retired.contains(p),
        forall|p: usize| #[trigger] a.reclaimed().cells.dom().contains(p) <==> a.active(p),
        forall|p: usize| #[trigger]
            a.active(p) ==> a.reclaimed().cells[p] == a.cells[p],
{
    let b = a.reclaimed();
    lemma_wf_in(m, a, b);
    assert forall|p: usize| m.owns(LeafPtr::At(p)) implies #[trigger] b.entries(p) == a.entries(
        p,
    ) by {
        lemma_owns_active(m, a, p);
    }
    lemma_same_contents(m, a, m, b);
}

/// A merge that succeeds moves the entries of the left node to the right one, which then holds
/// the entries of both. `k`, the bound of the left node, is less than every bound and every key of
/// the right node, and no key of the left node is greater; `b` is the clone of it that the right
/// node gets.
pub proof fn law_merge<K: Ord + Clone, V>(
    m: NodeModel<K>,
    prev: NodeModel<K>,
    a: ArenaModel<K, V>,
    k: K,
    b: K,
)
    requires
        key_laws::<K>(),
        cloned(k, b),
        a.wf(),
        m.wf(a),
        prev.wf(a),
        m.keys_in_place(a),
        prev.keys_in_place(a),
        prev.unbounded is At,
        !m.owns(prev.unbounded),
        forall|i: int| !#[trigger] live_at(prev.children, i),
        forall|i: int| live_at(m.children, i) ==> lt(k, (#[trigger] m.children[i]).key),
        forall|x: K| #[trigger] m.contents(a).dom().contains(x) ==> lt(k, x),
        forall|x: K| #[trigger] prev.contents(a).dom().contains(x) ==> !lt(k, x),
    ensures
        ({
            let (merged, m2, prev2, a2) = merge_outcome(m, prev, a, k, b);
            &&& merged ==> {
                &&& m2.contents(a2) == m.contents(a).union_prefer_right(prev.contents(a))
                &&& prev2.contents(a2) == Map::<K, V>::empty()
                &&& m2.keys_in_place(a2)
            }
            &&& !merged ==> m2 == m && prev2 == prev && a2 == a
        }),
{
    let (merged, m2, prev2, a2) = merge_outcome(m, prev, a, k, b);
    let p = prev.unbounded->At_0;
    assert(prev.owns(LeafPtr::At(p)));
    lemma_owns_active(prev, a, p);
    // Every key belongs to the unbounded leaf of the left node.
    assert forall|x: K| #[trigger] prev.slot(x) == LeafPtr::At(p) && prev2.slot(x)
        == prev2.unbounded by {
        lemma_seek(prev.children, x, 0);
        let c = seek(prev.children, x, 0);
        if c < prev.children.len() {
            assert(live_at(prev.children, c));
        }
    }
    if merged {
        lemma_links_only(a, p, p);
        assert forall|x: K| #[trigger] prev2.found(a2, x) is None by {
            assert(prev.slot(x) == LeafPtr::At(p));
        }
        assert(prev2.contents(a2) =~= Map::<K, V>::empty());
        if is_obsolete(a.entries(p)) {
            assert forall|x: K| #[trigger] prev.found(a, x) is None by {
                assert(prev.slot(x) == LeafPtr::At(p));
                lemma_obsolete_for_good(a.entries(p), x, a.entries(p)[0].value);
            }
            assert forall|q: usize| m.owns(LeafPtr::At(q)) implies #[trigger] a2.entries(q)
                == a.entries(q) by {}
            lemma_same_contents(m, a, m2, a2);
            assert(m.contents(a) =~= m.contents(a).union_prefer_right(prev.contents(a)));
        } else {
            assert(same(k, b));
            lemma_accepts_same(m.children, k, b);
            lemma_add_child(m, a, b, p);
            assert forall|x: K| #[trigger] m2.slot(x) == if lt(k, x) {
                m.slot(x)
            } else {
                LeafPtr::At(p)
            } by {
                lemma_slot_added(m, b, LeafPtr::At(p), x);
                if !lt(k, x) {
                    lemma_below_all(m, k, x);
                    lemma_below_all(m, k, b);
                }
            }
            assert forall|x: K| #[trigger] m2.found(a2, x) == if lt(k, x) {
                m.found(a, x)
            } else {
                prev.found(a, x)
            } by {
                assert(prev.slot(x) == LeafPtr::At(p));
                assert(m2.slot(x) == if lt(k, x) {
                    m.slot(x)
                } else {
                    LeafPtr::At(p)
                });
            }
            assert forall|x: K| !lt(k, x) implies #[trigger] m.found(a, x) is None by {
                if m.found(a, x) is Some {
                    assert(m.contents(a).dom().contains(x));
                }
            }
            assert forall|x: K| lt(k, x) implies #[trigger] prev.found(a, x) is None by {
                if prev.found(a, x) is Some {
                    assert(prev.contents(a).dom().contains(x));
                }
            }
            assert(m2.contents(a2) =~= m.contents(a).union_prefer_right(prev.contents(a)));
            assert forall|q: usize, x: K|
                #![trigger m2.owns(LeafPtr::At(q)), holds(a2.entries(q), x)]
                m2.owns(LeafPtr::At(q)) && holds(a2.entries(q), x) implies m2.slot(x)
                == LeafPtr::At(q) by {
                assert(m2.slot(x) == if lt(k, x) {
                    m.slot(x)
                } else {
                    LeafPtr::At(p)
                });
                if q == p {
                    assert(prev.slot(x) == LeafPtr::At(p));
                    assert(prev.found(a, x) is Some);
                } else {
                    assert(m.owns(LeafPtr::At(q)));
                    assert(m.slot(x) == LeafPtr::At(q));
                    assert(m.found(a, x) is Some);
                }
            }
        }
    }
}

/// A key that is not greater than `k` belongs to the first leaf, if `k` is less than every bound.
proof fn lemma_below_all<K: Ord + Clone>(m: NodeModel<K>, k: K, x: K)
    requires
        key_laws::<K>(),
        m.shape(),
        forall|i: int| live_at(m.children, i) ==> lt(k, (#[trigger] m.children[i]).key),
        !lt(k, x),
    ensures
        seek(m.children, x, 0) == next_slot(m.children, 0, false),
{
    let c = next_slot(m.children, 0, false);
    lemma_next_slot(m.children, 0, false);
    if c < m.children.len() {
        assert(live_at(m.children, c));
        assert(lt(k, m.children[c].key));
    }
    assert forall|j: int| 0 <= j < c implies (#[trigger] m.children[j]).removed || lt(
        m.children[j].key,
        x,
    ) by {}
    lemma_seek_is(m.children, x, 0, c);
}

/// Changing the entries of a leaf changes nothing else.
pub proof fn law_with_entries<K, V>(a: ArenaModel<K, V>, p: usize, s: Seq<Entry<K, V>>)
    requires
        a.cells.dom().contains(p),
    ensures
        ({
            let b = a.with_entries(p, s);
            &&& b.entries(p) == s
            &&& b.cells[p].forward == a.cells[p].forward
            &&& b.cells[p].backward == a.cells[p].backward
            &&& b.cells.dom() == a.cells.dom()
            &&& b.retired == a.retired
            &&& b.next == a.next
            &&& forall|q: usize| q != p ==> #[trigger] b.cells[q] == a.cells[q]
        }),
{
    assert(a.with_entries(p, s).cells.dom() =~= a.cells.dom());
}

/// A new leaf gets a handle that no other leaf has or had, and stands in no list. No other leaf
/// changes.
pub proof fn law_allocated<K: Ord, V>(a: ArenaModel<K, V>, s: Seq<Entry<K, V>>)
    requires
        a.wf(),
        a.next < usize::MAX,
    ensures
        ({
            let b = a.allocated(s);
            let p = a.next as usize;
            &&& !a.cells.dom().contains(p)
            &&& b.active(p)
            &&& b.entries(p) == s
            &&& b.cells[p].forward is Null
            &&& b.cells[p].backward is Null
            &&& b.cells.dom() == a.cells.dom().insert(p)
            &&& b.retired == a.retired
            &&& b.next == a.next + 1
            &&& forall|q: usize| q != p ==> #[trigger] b.cells[q] == a.cells[q]
        }),
{
    let p = a.next as usize;
    assert(!a.cells.dom().contains(p));
    assert(!a.retired.contains(p));
    assert(a.allocated(s).cells.dom() =~= a.cells.dom().insert(p));
}

/// A leaf that is discarded leaves the list: its neighbours are linked to each other. It stays
/// readable, with its entries and links, and no other leaf changes.
pub proof fn law_discard<K: Ord, V>(a: ArenaModel<K, V>, p: usize)
    requires
        a.wf(),
        a.active(p),
    ensures
        ({
            let b = a.discarded(p);
            let prev = a.cells[p].backward;
            let next = a.cells[p].forward;
            &&& b.retired == a.retired.insert(p)
            &&& b.next == a.next
            &&& b.cells.dom() == a.cells.dom()
            &&& b.cells[p] == a.cells[p]
            &&& prev matches LeafPtr::At(q) ==> b.cells[q].forward == next && b.cells[q].backward
                == a.cells[q].backward
            &&& next matches LeafPtr::At(q) ==> b.cells[q].backward == prev && b.cells[q].forward
                == a.cells[q].forward
            &&& forall|q: usize| #[trigger] b.entries(q) == a.entries(q)
            &&& forall|q: usize|
                prev != LeafPtr::At(q) && next != LeafPtr::At(q) ==> #[trigger] b.cells[q]
                    == a.cells[q]
        }),
{
    lemma_discarded(a, p);
    lemma_not_own_neighbour(a, p);
}

/// The leaf that a handle leads to is discarded, and no other; without a leaf nothing changes.
pub proof fn law_discarded_at<K: Ord, V>(a: ArenaModel<K, V>, p: LeafPtr)
    requires
        a.wf(),
        a.sound(p),
    ensures
        p is Null ==> discarded_at(a, p) == a,
        forall|q: usize| #[trigger]
            discarded_at(a, p).active(q) <==> a.active(q) && p != LeafPtr::At(q),
        forall|q: usize| #[trigger] discarded_at(a, p).entries(q) == a.entries(q),
        discarded_at(a, p).cells.dom() == a.cells.dom(),
        discarded_at(a, p).next == a.next,
{
    if let LeafPtr::At(i) = p {
        lemma_discarded(a, i);
    }
}

/// A leaf that is put into the list stands between a leaf and the one that came before it. No other
/// leaf changes.
pub proof fn law_push_front<K: Ord, V>(a: ArenaModel<K, V>, at: usize, p: usize)
    requires
        a.wf(),
        a.active(at),
        a.active(p),
        at != p,
        a.cells[p].forward is Null,
        a.cells[p].backward is Null,
    ensures
        ({
            let b = a.linked_before(at, p);
            let prev = a.cells[at].backward;
            &&& b.retired == a.retired
            &&& b.next == a.next
            &&& b.cells.dom() == a.cells.dom()
            &&& b.cells[p].forward == LeafPtr::At(at)
            &&& b.cells[p].backward == prev
            &&& b.cells[at].backward == LeafPtr::At(p)
            &&& b.cells[at].forward == a.cells[at].forward
            &&& prev matches LeafPtr::At(q) ==> b.cells[q].forward == LeafPtr::At(p)
                && b.cells[q].backward == a.cells[q].backward
            &&& forall|q: usize| #[trigger] b.entries(q) == a.entries(q)
            &&& forall|q: usize|
                q != p && q != at && prev != LeafPtr::At(q) ==> #[trigger] b.cells[q] == a.cells[q]
        }),
{
    lemma_linked_before(a, at, p);
    lemma_not_own_neighbour(a, at);
    assert(a.linked(at));
    assert(a.linked(p));
}

/// No leaf is its own neighbour, and none is on both sides of another.
proof fn lemma_not_own_neighbour<K: Ord, V>(a: ArenaModel<K, V>, p: usize)
    requires
        a.wf(),
        a.active(p),
    ensures
        a.cells[p].forward != LeafPtr::At(p),
        a.cells[p].backward != LeafPtr::At(p),
        a.cells[p].forward is At ==> a.cells[p].forward != a.cells[p].backward,
{
    let f = choose|f: spec_fn(usize) -> int| a.in_line(f);
    assert(a.linked(p));
    if let LeafPtr::At(q) = a.cells[p].forward {
        assert(f(p) < f(q));
    }
    if let LeafPtr::At(q) = a.cells[p].backward {
        assert(a.active(q));
        assert(f(q) < f(p));
    }
}

} // verus!
