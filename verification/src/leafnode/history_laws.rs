//! What readers find in a leaf node while others change it.
//!
//! A history is the line of moments that a node and its arena go through while others work on
//! them, one change at a time. A reader takes its steps at some of these moments.
use crate::arena::{ArenaModel, LeafPtr};
use crate::leaf::{lemma_seek, live_at, lookup, seek, version};
use crate::leafnode::laws::lemma_slot_owned;
use crate::leafnode::model::NodeModel;
use crate::leafnode::probe::{changed, lemma_changed, same_bounds, settled, Attempt, Change, Probe};
use crate::leafnode::read::{first_leaf, lemma_handle_at};
use crate::leafnode::routing::{
    lemma_bound_held, lemma_bound_of_leaf, lemma_cloned_alike, lemma_handle_alike, lemma_seek_same,
};
use crate::leafnode::scan_laws::lemma_first_in_leaf;
use crate::order::{bound_cloned, key_laws, lt, same};
use crate::scanner::{is_scannable, lemma_next_slot, next_slot};
use vstd::prelude::*;

verus! {

/// A node and its arena at one moment.
pub struct Moment<K, V> {
    pub node: NodeModel<K>,
    pub arena: ArenaModel<K, V>,
}

/// The array of leaves moves on: its version never goes back, and as long as it stays the same the
/// bounds stay where they are.
pub open spec fn moves_on<K>(m: NodeModel<K>, n: NodeModel<K>) -> bool {
    &&& version(m.children).used <= version(n.children).used
    &&& version(m.children).removed <= version(n.children).removed
    &&& version(m.children) == version(n.children) ==> same_bounds(m.children, n.children)
}

/// Every leaf stays in memory, discarded or not, and what is found under the key in it stays too.
pub open spec fn keeps<K: Ord, V>(a: ArenaModel<K, V>, b: ArenaModel<K, V>, key: K) -> bool {
    forall|p: usize| #[trigger]
        a.cells.dom().contains(p) ==> b.cells.dom().contains(p) && lookup(b.entries(p), key)
            == lookup(a.entries(p), key)
}

/// The node is in order and has an entry with the key.
pub open spec fn has_key<K: Ord, V>(s: Moment<K, V>, key: K) -> bool {
    &&& s.arena.wf()
    &&& s.node.wf(s.arena)
    &&& s.node.found(s.arena, key) is Some
}

/// One moment follows on another.
pub open spec fn follows_on<K: Ord, V>(s: Moment<K, V>, t: Moment<K, V>, key: K) -> bool {
    moves_on(s.node, t.node) && keeps(s.arena, t.arena, key)
}

/// A line of moments in all of which the node has an entry with the key.
pub open spec fn history<K: Ord, V>(h: Seq<Moment<K, V>>, key: K) -> bool {
    &&& h.len() > 0
    &&& forall|i: int| 0 <= i < h.len() ==> has_key(#[trigger] h[i], key)
    &&& forall|i: int| 0 <= i < h.len() - 1 ==> follows_on(#[trigger] h[i], h[i + 1], key)
}

/// Any single change of the leaves of a node is one by which it moves on.
pub proof fn law_change_moves_on<K: Ord + Clone>(m: NodeModel<K>, c: Change<K>)
    requires
        key_laws::<K>(),
        m.shape(),
    ensures
        moves_on(m, changed(m, c)),
{
    lemma_changed(m, c);
}

/// Later moments of a history follow on earlier ones.
proof fn lemma_later<K: Ord, V>(h: Seq<Moment<K, V>>, key: K, i: int, j: int)
    requires
        history(h, key),
        0 <= i <= j < h.len(),
    ensures
        follows_on(h[i], h[j], key),
    decreases j - i,
{
    if i < j {
        lemma_later(h, key, i, j - 1);
        assert(follows_on(h[j - 1], h[j - 1 + 1], key));
        let s = h[i];
        let t = h[j - 1];
        let u = h[j];
        if version(s.node.children) == version(u.node.children) {
            assert(version(s.node.children) == version(t.node.children));
            assert forall|c: int| 0 <= c < s.node.children.len() implies (
            #[trigger] u.node.children[c]).key == s.node.children[c].key
                && u.node.children[c].removed == s.node.children[c].removed by {
                assert(t.node.children[c].key == s.node.children[c].key);
            }
        }
    }
}

/// Two histories, the second of which starts where the first ends, are one.
pub proof fn law_history_joined<K: Ord, V>(h: Seq<Moment<K, V>>, g: Seq<Moment<K, V>>, key: K)
    requires
        history(h, key),
        history(g, key),
        h.last() == g.first(),
    ensures
        history(h + g.drop_first(), key),
{
    let n = h.len() - 1;
    let j = h + g.drop_first();
    assert forall|i: int| 0 <= i < j.len() implies has_key(#[trigger] j[i], key) by {
        if i > n {
            assert(j[i] == g[i - n]);
        }
    }
    assert forall|i: int| 0 <= i < j.len() - 1 implies follows_on(
        #[trigger] j[i],
        j[i + 1],
        key,
    ) by {
        if i < n {
            assert(follows_on(h[i], h[i + 1], key));
        } else {
            assert(j[i] == g[i - n] && j[i + 1] == g[i - n + 1]);
            assert(follows_on(g[i - n], g[i - n + 1], key));
        }
    }
}

/// The version of the array is the same at two moments of a history, so it was the same between.
proof fn lemma_between<K: Ord, V>(h: Seq<Moment<K, V>>, key: K, t0: int, t1: int, t2: int)
    requires
        history(h, key),
        0 <= t0 <= t1 <= t2 < h.len(),
        version(h[t0].node.children) == version(h[t2].node.children),
    ensures
        same_bounds(h[t0].node.children, h[t1].node.children),
{
    lemma_later(h, key, t0, t1);
    lemma_later(h, key, t1, t2);
}

/// What a reader notes about the leaf under a bound.
pub open spec fn noted<K, V>(s: Moment<K, V>, bound: Option<K>) -> Probe<K> {
    Probe { unbounded: s.node.unbounded, bound, metadata: version(s.node.children) }
}

/// What comes of an attempt that starts at one moment, loads the handle at another, and checks the
/// version at a third.
pub open spec fn attempted<K: Ord, V>(
    s: Moment<K, V>,
    bound: Option<K>,
    t: Moment<K, V>,
    u: Moment<K, V>,
) -> Attempt {
    settled(noted(s, bound), t.node.handle(bound), version(u.node.children))
}

/// A search that others disturb does not miss a key that stays in the node: if it is not told to
/// start over, it gets at a leaf in which it finds the key, with the value that the node had for it
/// when the handle was loaded.
///
/// The search starts at the moment `t0`, loads the handle at `t1`, checks the version at `t2` and
/// looks into the leaf at `t3`. It notes a clone of the bound that it finds.
pub proof fn law_search_during<K: Ord + Clone, V>(
    h: Seq<Moment<K, V>>,
    key: K,
    bound: Option<K>,
    t0: int,
    t1: int,
    t2: int,
    t3: int,
)
    requires
        key_laws::<K>(),
        history(h, key),
        0 <= t0 <= t1 <= t2 <= t3 < h.len(),
        bound_cloned(h[t0].node.bound(key), bound),
    ensures
        match attempted(h[t0], bound, h[t1], h[t2]) {
            Attempt::Leaf(p) => {
                &&& h[t3].arena.cells.dom().contains(p)
                &&& lookup(h[t3].arena.entries(p), key) == h[t1].node.found(h[t1].arena, key)
                &&& lookup(h[t3].arena.entries(p), key) is Some
            },
            Attempt::Unlinked => false,
            Attempt::Again => t0 < t2,
        },
{
    let m = h[t0].node;
    let n = h[t1].node;
    assert(has_key(h[t0], key) && has_key(h[t1], key));
    lemma_bound_held(m, key);
    lemma_bound_held(n, key);
    lemma_cloned_alike(m.bound(key), bound);
    lemma_handle_alike(m, m.bound(key), bound);
    lemma_handle_alike(n, m.bound(key), bound);
    if version(m.children) == version(h[t2].node.children) {
        lemma_between(h, key, t0, t1, t2);
        lemma_seek_same(m.children, n.children, key, 0);
        lemma_seek(m.children, key, 0);
        lemma_slot_owned(n, h[t1].arena, key);
        lemma_later(h, key, t1, t3);
    }
}

/// A scan from a key that others disturb does not pass over a key that stays in the node: in the
/// leaf that `key` belongs to it comes to an entry that is not beyond `key`, if not before.
///
/// The scan starts at the moment `t0`, loads the handle of that leaf at `t1`, checks the version at
/// `t2` and looks into the leaf at `t3`. It notes a clone of the bound of that leaf.
pub proof fn law_from_during<K: Ord + Clone, V>(
    h: Seq<Moment<K, V>>,
    from: K,
    key: K,
    bound: Option<K>,
    t0: int,
    t1: int,
    t2: int,
    t3: int,
)
    requires
        key_laws::<K>(),
        history(h, key),
        0 <= t0 <= t1 <= t2 <= t3 < h.len(),
        !lt(key, from),
        bound_cloned(h[t0].node.bound(key), bound),
    ensures
        match attempted(h[t0], bound, h[t1], h[t2]) {
            Attempt::Leaf(p) => {
                let s = h[t3].arena.entries(p);
                let i = seek(s, from, 0);
                i < s.len() && !lt(key, s[i].key)
            },
            Attempt::Unlinked => false,
            Attempt::Again => t0 < t2,
        },
{
    law_search_during(h, key, bound, t0, t1, t2, t3);
    if let Attempt::Leaf(p) = attempted(h[t0], bound, h[t1], h[t2]) {
        assert(has_key(h[t3], key));
        lemma_first_in_leaf(h[t3].arena.entries(p), from, key);
    }
}

/// A scan that others disturb takes the leaves in their order: the leaf that it gets for a bound is
/// the one that stands under that bound when the handle is loaded, and a leaf that it gets before
/// that of a key takes smaller keys only. The bound that is noted is a clone of that in slot `i`.
pub proof fn law_scan_order_during<K: Ord + Clone, V>(
    h: Seq<Moment<K, V>>,
    key: K,
    i: int,
    bound: K,
    x: K,
    t0: int,
    t1: int,
    t2: int,
)
    requires
        key_laws::<K>(),
        history(h, key),
        0 <= t0 <= t1 <= t2 < h.len(),
        live_at(h[t0].node.children, i),
        cloned(h[t0].node.children[i].key, bound),
    ensures
        ({
            let s = h[t0].node.children;
            let n = h[t1].node;
            attempted(h[t0], Some(bound), h[t1], h[t2]) matches Attempt::Leaf(p) ==> {
                &&& live_at(n.children, i)
                &&& n.children[i].key == s[i].key
                &&& n.children[i].value == LeafPtr::At(p)
                &&& i < seek(s, key, 0) && n.slot(x) == LeafPtr::At(p) ==> lt(x, key)
            }
        }),
{
    let s = h[t0].node.children;
    let n = h[t1].node;
    assert(has_key(h[t0], key) && has_key(h[t1], key));
    if let Attempt::Leaf(p) = attempted(h[t0], Some(bound), h[t1], h[t2]) {
        lemma_between(h, key, t0, t1, t2);
        assert(n.children[i].key == s[i].key && n.children[i].removed == s[i].removed);
        lemma_handle_at(n, i);
        assert(same(s[i].key, bound));
        lemma_handle_alike(n, Some(s[i].key), Some(bound));
        if i < seek(s, key, 0) && n.slot(x) == LeafPtr::At(p) {
            lemma_seek(s, key, 0);
            assert(s[i].removed || lt(s[i].key, key));
            lemma_bound_of_leaf(n, x, Some(s[i].key), p);
            lemma_bound_held(n, x);
        }
    }
}

/// The bound of the leaf with the smallest keys.
pub open spec fn first_bound<K>(m: NodeModel<K>) -> Option<K> {
    let i = next_slot(m.children, 0, false);
    if i < m.children.len() {
        Some(m.children[i].key)
    } else {
        None
    }
}

/// A scan from the smallest key that others disturb gets the leaf that has the smallest keys when
/// the handle is loaded, and finds a key in it that belongs there and stays in the node. It notes a
/// clone of the bound of that leaf.
pub proof fn law_min_during<K: Ord + Clone, V>(
    h: Seq<Moment<K, V>>,
    key: K,
    bound: Option<K>,
    t0: int,
    t1: int,
    t2: int,
    t3: int,
)
    requires
        key_laws::<K>(),
        history(h, key),
        0 <= t0 <= t1 <= t2 <= t3 < h.len(),
        bound_cloned(first_bound(h[t0].node), bound),
    ensures
        match attempted(h[t0], bound, h[t1], h[t2]) {
            Attempt::Leaf(p) => {
                &&& first_leaf(h[t1].node) == LeafPtr::At(p)
                &&& h[t0].node.bound(key) == first_bound(h[t0].node) ==> lookup(
                    h[t3].arena.entries(p),
                    key,
                ) == h[t1].node.found(h[t1].arena, key)
            },
            Attempt::Unlinked => first_leaf(h[t1].node) is Null,
            Attempt::Again => t0 < t2,
        },
{
    let m = h[t0].node;
    let n = h[t1].node;
    let i = next_slot(m.children, 0, false);
    assert(has_key(h[t0], key) && has_key(h[t1], key));
    lemma_next_slot(m.children, 0, false);
    lemma_cloned_alike(first_bound(m), bound);
    lemma_handle_alike(m, first_bound(m), bound);
    lemma_handle_alike(n, first_bound(m), bound);
    if i < m.children.len() {
        lemma_handle_at(m, i);
    }
    if version(m.children) == version(h[t2].node.children) {
        lemma_between(h, key, t0, t1, t2);
        lemma_same_next_slot(m, n);
        if i < m.children.len() {
            assert(n.children[i].key == m.children[i].key);
            lemma_handle_at(n, i);
        }
        if m.bound(key) == first_bound(m) {
            law_search_during(h, key, bound, t0, t1, t2, t3);
        }
    }
}

/// Arrays with the same bounds are scanned alike.
proof fn lemma_same_next_slot<K>(m: NodeModel<K>, n: NodeModel<K>)
    requires
        same_bounds(m.children, n.children),
    ensures
        next_slot(n.children, 0, false) == next_slot(m.children, 0, false),
{
    let s = m.children;
    let t = n.children;
    let i = next_slot(s, 0, false);
    let j = next_slot(t, 0, false);
    lemma_next_slot(s, 0, false);
    lemma_next_slot(t, 0, false);
    if i < j {
        assert(!is_scannable(t[i], false));
        assert(t[i].removed == s[i].removed);
    }
    if j < i {
        assert(!is_scannable(s[j], false));
        assert(t[j].removed == s[j].removed);
    }
}

} // verus!
