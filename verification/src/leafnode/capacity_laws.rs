//! How much a leaf node holds.
use crate::arena::{ArenaModel, LeafPtr};
use crate::error::InsertError;
use crate::leaf::{accepts, holds, index_of, key_at, lemma_live, live, Entry, ARRAY_SIZE};
use crate::leafnode::laws::law_insert;
use crate::leafnode::list_laws::{handles, law_insert_list, listed};
use crate::leafnode::model::NodeModel;
use crate::leafnode::routing::lemma_bound_held;
use crate::leafnode::split_laws::{lemma_split_shape, split_for};
use crate::leafnode::split_node_laws::{lemma_row, row_of};
use crate::leafnode::write::inserts;
use crate::order::{key_laws, same};
use vstd::prelude::*;

verus! {

/// The keys that stand in an array of entries, removed or not.
pub open spec fn keys_of<K, V>(s: Seq<Entry<K, V>>) -> Set<K> {
    Seq::new(s.len(), |i: int| s[i].key).to_set()
}

/// The keys that stand in the first `n` leaves.
pub open spec fn keys_in<K, V>(a: ArenaModel<K, V>, h: Seq<LeafPtr>, n: int) -> Set<K>
    decreases n,
{
    if n <= 0 {
        Set::empty()
    } else {
        keys_in(a, h, n - 1).union(keys_of(a.entries(h[n - 1]->At_0)))
    }
}

/// There are at most as many keys as slots.
proof fn lemma_keys_in<K: Ord, V>(a: ArenaModel<K, V>, h: Seq<LeafPtr>, n: int)
    requires
        a.wf(),
        listed(h, a),
        0 <= n <= h.len(),
    ensures
        keys_in(a, h, n).finite(),
        keys_in(a, h, n).len() <= n * ARRAY_SIZE,
        forall|i: int, j: int|
            #![trigger a.entries(h[i]->At_0)[j]]
            0 <= i < n && 0 <= j < a.entries(h[i]->At_0).len() ==> keys_in(a, h, n).contains(
                a.entries(h[i]->At_0)[j].key,
            ),
    decreases n,
{
    if n > 0 {
        lemma_keys_in(a, h, n - 1);
        let s = a.entries(h[n - 1]->At_0);
        let keys = Seq::new(s.len(), |i: int| s[i].key);
        assert(a.active(h[n - 1]->At_0));
        assert(s.len() <= ARRAY_SIZE);
        keys.lemma_cardinality_of_set();
        vstd::seq_lib::seq_to_set_is_finite(keys);
        vstd::set_lib::lemma_len_union(keys_in(a, h, n - 1), keys_of(s));
        assert((n - 1) * ARRAY_SIZE + ARRAY_SIZE == n * ARRAY_SIZE) by (nonlinear_arith);
        assert forall|i: int, j: int|
            #![trigger a.entries(h[i]->At_0)[j]]
            0 <= i < n && 0 <= j < a.entries(h[i]->At_0).len() implies keys_in(a, h, n).contains(
            a.entries(h[i]->At_0)[j].key,
        ) by {
            if i == n - 1 {
                assert(keys[j] == s[j].key);
            }
        }
    }
}

/// No two of the keys compare equal.
pub open spec fn different<K: Ord>(keys: Seq<K>) -> bool {
    forall|i: int, j: int|
        0 <= i < keys.len() && 0 <= j < keys.len() && i != j ==> !same(
            #[trigger] keys[i],
            #[trigger] keys[j],
        )
}

/// A node has at most one entry for each slot of each leaf: no more than that many different keys
/// are found in it.
pub proof fn law_contents_bounded<K: Ord + Clone, V>(
    m: NodeModel<K>,
    a: ArenaModel<K, V>,
    keys: Seq<K>,
)
    requires
        key_laws::<K>(),
        a.wf(),
        m.wf(a),
        listed(handles(m), a),
        different(keys),
        forall|i: int| 0 <= i < keys.len() ==> m.contents(a).dom().contains(#[trigger] keys[i]),
    ensures
        keys.len() <= (ARRAY_SIZE + 1) * ARRAY_SIZE,
{
    let h = handles(m);
    let n = h.len() as int;
    lemma_live(m.children);
    assert(row_of(m).len() == live(m.children).len() + 1);
    assert(n <= ARRAY_SIZE + 1);
    lemma_keys_in(a, h, n);
    // The values of the keys that stand in the slots.
    let stored = Seq::new(keys.len(), |i: int| stored_key(m, a, keys[i]));
    assert forall|i: int| 0 <= i < keys.len() implies keys_in(a, h, n).contains(
        #[trigger] stored[i],
    ) && same(stored[i], keys[i]) by {
        let x = keys[i];
        assert(m.contents(a).dom().contains(x));
        let c = lemma_row(m, x);
        assert(h[c] == m.slot(x));
        let s = a.entries(h[c]->At_0);
        assert(key_at(s, x, index_of(s, x)));
        assert(keys_in(a, h, n).contains(a.entries(h[c]->At_0)[index_of(s, x)].key));
    }
    assert(stored.no_duplicates()) by {
        assert forall|i: int, j: int| 0 <= i < stored.len() && 0 <= j < stored.len() && i
            != j implies stored[i] != stored[j] by {
            assert(same(stored[i], keys[i]) && same(stored[j], keys[j]));
            assert(!same(keys[i], keys[j]));
        }
    }
    stored.unique_seq_to_set();
    assert(stored.to_set().subset_of(keys_in(a, h, n)));
    vstd::set_lib::lemma_len_subset(stored.to_set(), keys_in(a, h, n));
    assert(n * ARRAY_SIZE <= (ARRAY_SIZE + 1) * ARRAY_SIZE) by (nonlinear_arith)
        requires
            n <= ARRAY_SIZE + 1,
    ;
}

/// The value of a key that stands in its slot.
pub open spec fn stored_key<K: Ord, V>(m: NodeModel<K>, a: ArenaModel<K, V>, x: K) -> K {
    let s = a.entries(m.slot(x)->At_0);
    s[index_of(s, x)].key
}

/// A line of values from `v` to `w`, each a clone of the one before it.
pub open spec fn clone_line<V: Clone>(line: Seq<V>, v: V, w: V) -> bool {
    &&& line.len() > 0
    &&& line.first() == v
    &&& line.last() == w
    &&& forall|i: int| 0 < i < line.len() ==> cloned(line[i - 1], #[trigger] line[i])
}

/// `w` is `v`, or a clone of it, or a clone of that, and so on.
pub open spec fn copy_of<V: Clone>(v: V, w: V) -> bool {
    exists|line: Seq<V>| clone_line(line, v, w)
}

/// Clones that are equal to what they are made of.
pub open spec fn faithful_clones<V: Clone>() -> bool {
    forall|v: V, w: V| #[trigger] cloned(v, w) ==> v == w
}

/// A clone of a copy is a copy.
pub proof fn lemma_copy_of<V: Clone>(v: V, u: V, w: V)
    requires
        copy_of(v, u),
        cloned(u, w),
    ensures
        copy_of(v, w),
{
    let line = choose|line: Seq<V>| clone_line(line, v, u);
    let longer = line.push(w);
    assert(longer.first() == line.first());
    assert forall|i: int| 0 < i < longer.len() implies cloned(
        longer[i - 1],
        #[trigger] longer[i],
    ) by {
        if i < line.len() {
            assert(cloned(line[i - 1], line[i]));
        }
    }
    assert(clone_line(longer, v, w));
}

/// If clones are equal to what they are made of, so is the end of a line of clones.
proof fn lemma_faithful<V: Clone>(line: Seq<V>, v: V, w: V, i: int)
    requires
        faithful_clones::<V>(),
        clone_line(line, v, w),
        0 <= i < line.len(),
    ensures
        line[i] == v,
    decreases i,
{
    if i > 0 {
        lemma_faithful(line, v, w, i - 1);
        assert(cloned(line[i - 1], line[i]));
    }
}

/// A node as it is made, with an unbounded leaf that nothing was put into yet.
pub open spec fn fresh<K: Ord, V>(m: NodeModel<K>, a: ArenaModel<K, V>) -> bool {
    &&& a.wf()
    &&& m.wf(a)
    &&& m.children.len() == 0
    &&& m.new_leaves is None
    &&& m.unbounded matches LeafPtr::At(p) && a.entries(p).len() == 0
}

/// A fresh node is given entries one after another, and takes them all: the states of the node and
/// of the arena from first to last.
pub open spec fn insert_run<K: Ord + Clone, V: Clone>(
    nodes: Seq<NodeModel<K>>,
    arenas: Seq<ArenaModel<K, V>>,
    given: Seq<(K, V)>,
) -> bool {
    &&& nodes.len() == given.len() + 1
    &&& arenas.len() == given.len() + 1
    &&& fresh(nodes[0], arenas[0])
    &&& forall|i: int| 0 <= i < given.len() ==> #[trigger] insert_at(nodes, arenas, given, i)
}

/// The insertion in place `i` of a run succeeds.
pub open spec fn insert_at<K: Ord + Clone, V: Clone>(
    nodes: Seq<NodeModel<K>>,
    arenas: Seq<ArenaModel<K, V>>,
    given: Seq<(K, V)>,
    i: int,
) -> bool {
    &&& arenas[i + 1].wf()
    &&& nodes[i + 1].wf(arenas[i + 1])
    &&& inserts(
        nodes[i],
        arenas[i],
        given[i].0,
        given[i].1,
        Ok(()),
        nodes[i + 1],
        arenas[i + 1],
    )
}

/// The key is one of the first `n` that are given.
pub open spec fn among<K: Ord, V>(given: Seq<(K, V)>, n: int, x: K) -> bool {
    exists|i: int| 0 <= i < n && same(x, (#[trigger] given[i]).0)
}

/// What a run of insertions keeps: the node holds what it was given.
proof fn lemma_insert_run<K: Ord + Clone, V: Clone>(
    nodes: Seq<NodeModel<K>>,
    arenas: Seq<ArenaModel<K, V>>,
    given: Seq<(K, V)>,
    n: int,
)
    requires
        key_laws::<K>(),
        insert_run(nodes, arenas, given),
        0 <= n <= given.len(),
    ensures
        ({
            let m = nodes[n];
            let a = arenas[n];
            let keys = Seq::new(n as nat, |i: int| given[i].0);
            &&& a.wf()
            &&& m.wf(a)
            &&& m.new_leaves is None
            &&& m.keys_in_place(a)
            &&& listed(handles(m), a)
            &&& different(keys)
            &&& forall|x: K| #[trigger]
                m.contents(a).dom().contains(x) <==> among(given, n, x)
            &&& forall|i: int|
                0 <= i < n ==> copy_of(
                    (#[trigger] given[i]).1,
                    m.contents(a)[given[i].0],
                )
        }),
    decreases n,
{
    let m = nodes[n];
    let a = arenas[n];
    let keys = Seq::new(n as nat, |i: int| given[i].0);
    let empty = Seq::<LeafPtr>::empty();
    if n == 0 {
        lemma_fresh_node(m, a);
    } else {
        let last = n - 1;
        let m1 = nodes[last];
        let a1 = arenas[last];
        let (k, v) = given[last];
        let keys1 = Seq::new(last as nat, |i: int| given[i].0);
        lemma_insert_run(nodes, arenas, given, last);
        assert(insert_at(nodes, arenas, given, last));
        law_insert(m1, a1, k, v, Ok(()), m, a);
        assert(empty + handles(m1) + empty =~= handles(m1));
        assert(empty + handles(m) + empty =~= handles(m));
        law_insert_list(m1, a1, k, v, Ok(()), m, a, empty, empty);
        let before = m1.contents(a1);
        let after = m.contents(a);
        assert(!before.dom().contains(k));
        assert forall|x: K| #[trigger] after.dom().contains(x) <==> among(given, n, x) by {
            if before.dom().contains(x) {
                let i = choose|i: int| 0 <= i < last && same(x, (#[trigger] given[i]).0);
                assert(same(x, given[i].0));
            }
            if same(x, k) {
                assert(same(x, given[last].0));
            }
            if among(given, n, x) {
                let i = choose|i: int| 0 <= i < n && same(x, (#[trigger] given[i]).0);
                if i < last {
                    assert(among(given, last, x));
                }
            }
        }
        assert forall|i: int| 0 <= i < last implies !same(#[trigger] keys[i], k) by {
            if same(keys[i], k) {
                assert(same(k, given[i].0));
                assert(among(given, last, k));
            }
        }
        assert(different(keys)) by {
            assert forall|i: int, j: int| 0 <= i < keys.len() && 0 <= j < keys.len() && i
                != j implies !same(#[trigger] keys[i], #[trigger] keys[j]) by {
                if i < last && j < last {
                    assert(!same(keys1[i], keys1[j]));
                } else if i < last {
                    assert(!same(keys[i], k));
                } else {
                    assert(!same(keys[j], k));
                }
            }
        }
        assert forall|i: int| 0 <= i < n implies copy_of(
            (#[trigger] given[i]).1,
            after[given[i].0],
        ) by {
            if i < last {
                assert(same(given[i].0, given[i].0));
                assert(among(given, last, given[i].0));
                assert(before.dom().contains(given[i].0));
                lemma_copy_of(given[i].1, before[given[i].0], after[given[i].0]);
            } else {
                assert(clone_line(seq![v], v, v));
                assert(same(k, k));
                lemma_copy_of(v, v, after[k]);
            }
        }
    }
}

/// A fresh node holds nothing.
proof fn lemma_fresh_node<K: Ord + Clone, V>(m: NodeModel<K>, a: ArenaModel<K, V>)
    requires
        key_laws::<K>(),
        fresh(m, a),
    ensures
        m.keys_in_place(a),
        listed(handles(m), a),
        forall|x: K| m.found(a, x) is None,
{
    assert(live(m.children) =~= Seq::empty());
    assert(handles(m) =~= seq![m.unbounded]);
    assert forall|p: usize, x: K|
        #![trigger m.owns(LeafPtr::At(p)), holds(a.entries(p), x)]
        m.owns(LeafPtr::At(p)) && holds(a.entries(p), x) implies m.slot(x) == LeafPtr::At(p) by {
        let i = index_of(a.entries(p), x);
        assert(key_at(a.entries(p), x, i));
    }
    assert forall|x: K| m.found(a, x) is None by {
        let s = a.entries(m.unbounded->At_0);
        if holds(s, x) {
            assert(key_at(s, x, index_of(s, x)));
        }
    }
}

/// A fresh node that is given entries with different keys, one after another, takes them until it
/// has no room for another leaf, and then says so. By then it has at most as many entries as its
/// leaves have slots, and all of them are still there.
///
/// A split clones values, so what is found is the value that was given, or a clone of it, or a
/// clone of that, and so on.
pub proof fn law_capacity<K: Ord + Clone, V: Clone>(
    nodes: Seq<NodeModel<K>>,
    arenas: Seq<ArenaModel<K, V>>,
    given: Seq<(K, V)>,
    k: K,
    v: V,
    r: Result<(), InsertError<K, V>>,
    m2: NodeModel<K>,
    a2: ArenaModel<K, V>,
)
    requires
        key_laws::<K>(),
        insert_run(nodes, arenas, given),
        forall|i: int| 0 <= i < given.len() ==> !same((#[trigger] given[i]).0, k),
        a2.wf(),
        m2.wf(a2),
        inserts(nodes.last(), arenas.last(), k, v, r, m2, a2),
    ensures
        r is Ok || r == Err::<(), InsertError<K, V>>(InsertError::Full((k, v))),
        given.len() <= (ARRAY_SIZE + 1) * ARRAY_SIZE,
        r is Ok ==> given.len() < (ARRAY_SIZE + 1) * ARRAY_SIZE,
        forall|i: int|
            0 <= i < given.len() ==> {
                let found = m2.found(a2, (#[trigger] given[i]).0);
                &&& found is Some
                &&& copy_of(given[i].1, found->0)
                &&& faithful_clones::<V>() ==> found == Some(given[i].1)
            },
{
    let n = given.len() as int;
    let m = nodes[n];
    let a = arenas[n];
    let keys = Seq::new(n as nat, |i: int| given[i].0);
    lemma_insert_run(nodes, arenas, given, n);
    assert forall|i: int| 0 <= i < n implies m.contents(a).dom().contains(#[trigger] keys[i]) by {
        assert(same(given[i].0, given[i].0));
        assert(among(given, n, keys[i]));
    }
    law_contents_bounded(m, a, keys);
    law_insert(m, a, k, v, r, m2, a2);
    assert(!m.contents(a).dom().contains(k)) by {
        if among(given, n, k) {
            let i = choose|i: int| 0 <= i < n && same(k, (#[trigger] given[i]).0);
            assert(same(given[i].0, k));
        }
    }
    // The key has a leaf, and the node is not locked.
    let j = lemma_row(m, k);
    assert(handles(m)[j] == m.slot(k));
    lemma_bound_held(m, k);
    let p = m.slot(k)->At_0;
    if !accepts(a.entries(p), k) {
        assert(split_for(m, a, k, v, p, r, m2, a2));
        let max = lemma_split_shape(m, a, k, v, p, r, m2, a2);
    }
    if r is Ok {
        let nodes2 = nodes.push(m2);
        let arenas2 = arenas.push(a2);
        let given2 = given.push((k, v));
        assert(insert_run(nodes2, arenas2, given2)) by {
            assert forall|i: int| 0 <= i < given2.len() implies #[trigger] insert_at(
                nodes2,
                arenas2,
                given2,
                i,
            ) by {
                if i < n {
                    assert(insert_at(nodes, arenas, given, i));
                }
            }
        }
        lemma_insert_run(nodes2, arenas2, given2, n + 1);
        let keys2 = Seq::new((n + 1) as nat, |i: int| given2[i].0);
        assert forall|i: int| 0 <= i < n + 1 implies m2.contents(a2).dom().contains(
            #[trigger] keys2[i],
        ) by {
            assert(same(given2[i].0, given2[i].0));
            assert(among(given2, n + 1, keys2[i]));
        }
        law_contents_bounded(m2, a2, keys2);
    }
    assert forall|i: int| 0 <= i < given.len() implies {
        let found = m2.found(a2, (#[trigger] given[i]).0);
        &&& found is Some
        &&& copy_of(given[i].1, found->0)
        &&& faithful_clones::<V>() ==> found == Some(given[i].1)
    } by {
        let x = given[i].0;
        assert(keys[i] == x);
        assert(m.contents(a).dom().contains(x));
        assert(m2.contents(a2).dom().contains(x));
        let w = m2.contents(a2)[x];
        lemma_copy_of(given[i].1, m.contents(a)[x], w);
        if faithful_clones::<V>() {
            let line = choose|line: Seq<V>| clone_line(line, given[i].1, w);
            lemma_faithful(line, given[i].1, w, line.len() - 1);
        }
    }
}

} // verus!
