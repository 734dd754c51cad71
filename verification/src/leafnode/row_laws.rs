//! What becomes of the row of leaves of a node when the array of leaves is changed.
use crate::arena::LeafPtr;
use crate::leaf::{
    accepts, holds, index_of, key_at, lemma_live, lemma_seek_after, live, live_at, mark_removed,
    seek_after, with_entry, without_key, Entry,
};
use crate::leafnode::model::NodeModel;
use crate::leafnode::split_node_laws::{lemma_routes_once, routes, row_of, takes};
use crate::order::{alike, key_laws, lt, same};
use vstd::prelude::*;

verus! {

/// The live entries of two arrays in a row.
proof fn lemma_live_add<K, V>(s: Seq<Entry<K, V>>, t: Seq<Entry<K, V>>)
    ensures
        live(s + t) == live(s) + live(t),
    decreases t.len(),
{
    if t.len() == 0 {
        assert(s + t =~= s);
        assert(live(s) + live(t) =~= live(s));
    } else {
        lemma_live_add(s, t.drop_last());
        assert((s + t).drop_last() =~= s + t.drop_last());
        assert(live(s + t) =~= live(s) + live(t));
    }
}

/// The live entries before, in, and after a slot.
proof fn lemma_live_around<K, V>(s: Seq<Entry<K, V>>, i: int)
    requires
        0 <= i < s.len(),
    ensures
        live(s) == live(s.take(i)) + live(seq![s[i]]) + live(s.skip(i + 1)),
        live(seq![s[i]]) == if s[i].removed {
            Seq::<Entry<K, V>>::empty()
        } else {
            seq![s[i]]
        },
{
    let one = seq![s[i]];
    assert(one.drop_last() =~= Seq::empty());
    assert(live(one.drop_last()) =~= Seq::empty());
    assert(live(one) =~= if s[i].removed {
        Seq::<Entry<K, V>>::empty()
    } else {
        seq![s[i]]
    });
    lemma_live_add(s.take(i), one);
    lemma_live_add(s.take(i) + one, s.skip(i + 1));
    assert(s =~= s.take(i) + one + s.skip(i + 1));
}

/// Overwriting the entry in a slot overwrites it among the live ones.
proof fn lemma_live_update<K, V>(s: Seq<Entry<K, V>>, i: int, e: Entry<K, V>)
    requires
        live_at(s, i),
    ensures
        ({
            let r = live(s.take(i)).len() as int;
            &&& 0 <= r < live(s).len()
            &&& live(s)[r] == s[i]
            &&& !e.removed ==> live(s.update(i, e)) == live(s).update(r, e)
            &&& e.removed ==> live(s.update(i, e)) == live(s).remove(r)
        }),
{
    let t = s.update(i, e);
    let r = live(s.take(i)).len() as int;
    lemma_live_around(s, i);
    lemma_live_around(t, i);
    assert(t.take(i) =~= s.take(i));
    assert(t.skip(i + 1) =~= s.skip(i + 1));
    if e.removed {
        assert(live(t) =~= live(s).remove(r));
    } else {
        assert(live(t) =~= live(s).update(r, e));
    }
}

/// An entry that is inserted is inserted among the live ones.
proof fn lemma_live_insert<K, V>(s: Seq<Entry<K, V>>, i: int, e: Entry<K, V>)
    requires
        0 <= i <= s.len(),
        !e.removed,
    ensures
        live(s).len() == live(s.take(i)).len() + live(s.skip(i)).len(),
        live(s.insert(i, e)) == live(s).insert(live(s.take(i)).len() as int, e),
        live(s) == live(s.take(i)) + live(s.skip(i)),
{
    let t = s.insert(i, e);
    lemma_live_around(t, i);
    assert(t.take(i) =~= s.take(i));
    assert(t.skip(i + 1) =~= s.skip(i));
    lemma_live_add(s.take(i), s.skip(i));
    assert(s.take(i) + s.skip(i) =~= s);
    assert(live(t) =~= live(s).insert(live(s.take(i)).len() as int, e));
}

/// No two leaves of a row have the same bound.
pub proof fn lemma_row_bounds<K: Ord + Clone>(m: NodeModel<K>, i: int, j: int)
    requires
        key_laws::<K>(),
        m.shape(),
        0 <= i < row_of(m).len(),
        0 <= j < row_of(m).len(),
        alike(row_of(m)[i].0, row_of(m)[j].0),
    ensures
        i == j,
{
    let l = live(m.children);
    let e = row_of(m);
    lemma_live(m.children);
    assert(e.len() == l.len() + 1);
    if i < l.len() && j < l.len() {
        assert(live_at(l, i) && live_at(l, j));
        if i < j {
            assert(lt(l[i].key, l[j].key) || (same(l[i].key, l[j].key) && l[i].removed));
        } else if j < i {
            assert(lt(l[j].key, l[i].key) || (same(l[i].key, l[j].key) && l[j].removed));
        }
    }
}

/// Replacing the handle under a bound replaces it in the row.
pub proof fn lemma_row_replaced<K: Ord + Clone>(
    m: NodeModel<K>,
    bound: Option<K>,
    p: LeafPtr,
    j: int,
)
    requires
        key_laws::<K>(),
        m.shape(),
        bound matches Some(k) ==> holds(m.children, k),
        0 <= j < row_of(m).len(),
        row_of(m)[j].0 == bound,
    ensures
        row_of(m.with_handle(bound, p)) == row_of(m).update(j, (bound, p)),
{
    let s = m.children;
    let m2 = m.with_handle(bound, p);
    let e = row_of(m);
    match bound {
        Some(k) => {
            let i = index_of(s, k);
            assert(key_at(s, k, i));
            let entry = Entry { key: s[i].key, value: p, removed: s[i].removed };
            lemma_live_update(s, i, entry);
            let r = live(s.take(i)).len() as int;
            assert(alike(e[r].0, Some(k)));
            lemma_row_bounds(m, r, j);
            assert(m2.children == s.update(i, entry));
        },
        None => {
            lemma_row_bounds(m, e.len() - 1, j);
        },
    }
    assert(row_of(m2) =~= e.update(j, (bound, p)));
}

/// A leaf that is added under a new bound goes into the row before the leaf that the bound belongs
/// to.
pub proof fn lemma_row_added<K: Ord + Clone>(m: NodeModel<K>, k: K, p: LeafPtr, j: int)
    requires
        key_laws::<K>(),
        m.shape(),
        accepts(m.children, k),
        routes(row_of(m), k, j),
    ensures
        row_of(NodeModel { children: with_entry(m.children, k, p), ..m }) == row_of(m).insert(
            j,
            (Some(k), p),
        ),
{
    let s = m.children;
    let l = live(s);
    let e = row_of(m);
    let m2 = NodeModel { children: with_entry(s, k, p), ..m };
    let entry = Entry { key: k, value: p, removed: false };
    let n = seek_after(s, k, 0);
    lemma_seek_after(s, k, 0);
    lemma_live_insert(s, n, entry);
    let r = live(s.take(n)).len() as int;
    assert(e.len() == l.len() + 1);
    // The leaves before the new one do not take its bound, the next one does.
    let head = s.take(n);
    let tail = s.skip(n);
    assert forall|i: int| 0 <= i < r implies !takes(#[trigger] e[i], k) by {
        assert(l[i] == live(head)[i]);
        let d = lemma_live_source(head, i);
        assert(s[d] == l[i]);
        assert(!lt(k, s[d].key));
        if same(s[d].key, k) {
            assert(key_at(s, k, d));
        }
    }
    assert(takes(e[r], k)) by {
        if r < l.len() {
            assert(l[r] == live(tail)[0]);
            let d = lemma_live_source(tail, 0);
            assert(s[d + n] == l[r]);
            assert(lt(k, s[d + n].key));
        }
    }
    assert(routes(e, k, r));
    lemma_routes_once(e, k, r, j);
    assert(row_of(m2) =~= e.insert(j, (Some(k), p)));
}

/// Where a live entry comes from.
pub proof fn lemma_live_source<K, V>(s: Seq<Entry<K, V>>, j: int) -> (i: int)
    requires
        0 <= j < live(s).len(),
    ensures
        live_at(s, i),
        s[i] == live(s)[j],
    decreases s.len(),
{
    let n = s.len() - 1;
    if s.len() == 0 {
        0
    } else if s.last().removed {
        lemma_live_source(s.drop_last(), j)
    } else if j == live(s.drop_last()).len() {
        n
    } else {
        lemma_live_source(s.drop_last(), j)
    }
}

/// A bound that is removed is removed from the row.
pub proof fn lemma_row_removed<K: Ord + Clone>(m: NodeModel<K>, k: K, j: int)
    requires
        key_laws::<K>(),
        m.shape(),
        holds(m.children, k),
        0 <= j < row_of(m).len(),
        row_of(m)[j].0 == Some(k),
    ensures
        row_of(NodeModel { children: without_key(m.children, k), ..m }) == row_of(m).remove(j),
{
    let s = m.children;
    let e = row_of(m);
    let m2 = NodeModel { children: without_key(s, k), ..m };
    let i = index_of(s, k);
    assert(key_at(s, k, i));
    lemma_live_update(s, i, mark_removed(s[i]));
    let r = live(s.take(i)).len() as int;
    assert(alike(e[r].0, Some(k)));
    lemma_row_bounds(m, r, j);
    assert(row_of(m2) =~= e.remove(j));
}

} // verus!
