//! What the operations on a leaf do to what is found in it.
use crate::leaf::{
    accepts, copied, count_removed, entries_wf, high_half, holds, index_of, is_full, is_obsolete,
    key_at, lemma_copied_sorted, lemma_count_removed, lemma_count_removed_insert,
    lemma_count_removed_update, lemma_index_of, lemma_live, lemma_seek, lemma_seek_after,
    lemma_with_entry, lemma_without_key, live, live_at, lookup, low_half, seek, seek_after, sorted,
    version, with_entry, with_value, without_key, Entry, ARRAY_SIZE,
};
use crate::order::{key_laws, lt, same};
use vstd::prelude::*;

verus! {

/// An entry that was added is found, and nothing else changes.
pub proof fn lemma_lookup_with_entry<K: Ord + Clone, V>(s: Seq<Entry<K, V>>, k: K, v: V, x: K)
    requires
        key_laws::<K>(),
        entries_wf(s),
    ensures
        lookup(with_entry(s, k, v), x) == if accepts(s, k) && same(x, k) {
            Some(v)
        } else {
            lookup(s, x)
        },
{
    if accepts(s, k) {
        lemma_with_entry(s, k, v);
        let n = seek_after(s, k, 0);
        let t = with_entry(s, k, v);
        if same(x, k) {
            assert(key_at(t, x, n));
            lemma_index_of(t, x, n);
        } else {
            if holds(s, x) {
                let i = index_of(s, x);
                assert(key_at(s, x, i));
                let j = if i < n {
                    i
                } else {
                    i + 1
                };
                assert(t[j] == s[i]);
                assert(key_at(t, x, j));
                lemma_index_of(t, x, j);
            }
            if holds(t, x) {
                let j = index_of(t, x);
                assert(key_at(t, x, j));
                let i = if j < n {
                    j
                } else {
                    j - 1
                };
                assert(t[j] == s[i]);
                assert(key_at(s, x, i));
            }
        }
    }
}

/// A key that was removed is not found, and nothing else changes.
pub proof fn lemma_lookup_without_key<K: Ord + Clone, V>(s: Seq<Entry<K, V>>, k: K, x: K)
    requires
        key_laws::<K>(),
        entries_wf(s),
    ensures
        lookup(without_key(s, k), x) == if same(x, k) {
            None
        } else {
            lookup(s, x)
        },
{
    lemma_without_key(s, k);
    let t = without_key(s, k);
    if same(x, k) {
        if holds(t, x) {
            assert(key_at(t, k, index_of(t, x)));
        }
    } else {
        if holds(s, x) {
            let i = index_of(s, x);
            assert(key_at(s, x, i));
            if holds(s, k) {
                assert(key_at(s, k, index_of(s, k)));
            }
            assert(t[i] == s[i]);
            assert(key_at(t, x, i));
            lemma_index_of(t, x, i);
        }
        if holds(t, x) {
            let i = index_of(t, x);
            assert(key_at(t, x, i));
            assert(key_at(s, x, i));
        }
    }
}

/// Only live entries are found.
pub proof fn lemma_lookup_live<K: Ord + Clone, V>(s: Seq<Entry<K, V>>, x: K)
    requires
        key_laws::<K>(),
        sorted(s),
    ensures
        lookup(live(s), x) == lookup(s, x),
{
    lemma_live(s);
    let l = live(s);
    if holds(s, x) {
        let i = index_of(s, x);
        assert(key_at(s, x, i));
        let j = choose|j: int| live_at(l, j) && #[trigger] l[j] == s[i];
        assert(key_at(l, x, j));
        lemma_index_of(l, x, j);
    }
    if holds(l, x) {
        let j = index_of(l, x);
        assert(key_at(l, x, j));
        let i = choose|i: int| live_at(s, i) && #[trigger] s[i] == l[j];
        assert(key_at(s, x, i));
    }
}

/// A copy holds clones of the same entries.
pub proof fn lemma_lookup_copied<K: Ord + Clone, V: Clone>(
    a: Seq<Entry<K, V>>,
    b: Seq<Entry<K, V>>,
    x: K,
)
    requires
        key_laws::<K>(),
        sorted(a),
        copied(a, b),
    ensures
        holds(a, x) == holds(b, x),
        holds(a, x) ==> cloned(lookup(a, x)->0, lookup(b, x)->0),
{
    lemma_copied_sorted(a, b);
    if holds(a, x) {
        let i = index_of(a, x);
        assert(key_at(a, x, i));
        assert(same(a[i].key, b[i].key));
        assert(key_at(b, x, i));
        lemma_index_of(b, x, i);
    }
    if holds(b, x) {
        let i = index_of(b, x);
        assert(key_at(b, x, i));
        assert(same(a[i].key, b[i].key));
        assert(key_at(a, x, i));
    }
}

/// What is found in an array is found in the part before `n` or in the part from `n` on.
pub proof fn lemma_lookup_parts<K: Ord + Clone, V>(s: Seq<Entry<K, V>>, n: int, x: K)
    requires
        key_laws::<K>(),
        sorted(s),
        0 <= n <= s.len(),
    ensures
        sorted(s.take(n)),
        sorted(s.skip(n)),
        lookup(s, x) == if holds(s.take(n), x) {
            lookup(s.take(n), x)
        } else {
            lookup(s.skip(n), x)
        },
{
    let l = s.take(n);
    let h = s.skip(n);
    assert forall|i: int, j: int| 0 <= i < j < l.len() implies lt(
        (#[trigger] l[i]).key,
        (#[trigger] l[j]).key,
    ) || (same(l[i].key, l[j].key) && l[i].removed) by {
        assert(l[i] == s[i] && l[j] == s[j]);
    }
    assert forall|i: int, j: int| 0 <= i < j < h.len() implies lt(
        (#[trigger] h[i]).key,
        (#[trigger] h[j]).key,
    ) || (same(h[i].key, h[j].key) && h[i].removed) by {
        assert(h[i] == s[i + n] && h[j] == s[j + n]);
    }
    if holds(l, x) {
        let i = index_of(l, x);
        assert(key_at(l, x, i));
        assert(key_at(s, x, i));
        lemma_index_of(s, x, i);
    } else if holds(h, x) {
        let i = index_of(h, x);
        assert(key_at(h, x, i));
        assert(key_at(s, x, i + n));
        lemma_index_of(s, x, i + n);
    }
    if holds(s, x) {
        let i = index_of(s, x);
        assert(key_at(s, x, i));
        if i < n {
            assert(key_at(l, x, i));
        } else {
            assert(h[i - n] == s[i]);
            assert(key_at(h, x, i - n));
        }
    }
}

/// Each entry that is added or removed gives the leaf a new version, and an operation that
/// changes nothing keeps it.
pub proof fn lemma_version<K: Ord + Clone, V>(s: Seq<Entry<K, V>>, k: K, v: V)
    requires
        key_laws::<K>(),
        entries_wf(s),
    ensures
        accepts(s, k) ==> {
            &&& version(with_entry(s, k, v)).used == version(s).used + 1
            &&& version(with_entry(s, k, v)).removed == version(s).removed
        },
        !accepts(s, k) ==> with_entry(s, k, v) == s,
        holds(s, k) ==> {
            &&& version(without_key(s, k)).used == version(s).used
            &&& version(without_key(s, k)).removed == version(s).removed + 1
        },
        !holds(s, k) ==> without_key(s, k) == s,
{
    lemma_count_removed(s);
    if accepts(s, k) {
        lemma_with_entry(s, k, v);
        lemma_count_removed_insert(
            s,
            seek_after(s, k, 0),
            Entry { key: k, value: v, removed: false },
        );
    }
    if holds(s, k) {
        assert(key_at(s, k, index_of(s, k)));
        lemma_count_removed_update(s, index_of(s, k));
        lemma_count_removed(without_key(s, k));
        lemma_without_key(s, k);
    }
}

/// A leaf that lost its last entry is obsolete and takes no entry any more.
pub proof fn lemma_obsolete_for_good<K: Ord + Clone, V>(s: Seq<Entry<K, V>>, k: K, v: V)
    requires
        is_obsolete(s),
    ensures
        is_full(s),
        forall|x: K| lookup(s, x) is None,
        with_entry(s, k, v) == s,
        without_key(s, k) == s,
{
    assert forall|x: K| !holds(s, x) by {
        if holds(s, x) {
            let i = index_of(s, x);
            assert(key_at(s, x, i));
            assert(s[i].removed);
        }
    }
}

/// A leaf that is full stays full.
pub proof fn law_full_for_good<K: Ord + Clone, V>(s: Seq<Entry<K, V>>, k: K, v: V)
    requires
        key_laws::<K>(),
        entries_wf(s),
        is_full(s),
    ensures
        with_entry(s, k, v) == s,
        is_full(without_key(s, k)),
{
    lemma_without_key(s, k);
    if is_obsolete(s) {
        lemma_obsolete_for_good(s, k, v);
    }
}

/// A leaf takes a new entry exactly if it has a free slot, has not lost all of its entries, and has
/// no live entry with the key; entries that were removed do not stand in the way. The entry goes
/// behind all entries with keys that are not greater, and the others stay as they are. A leaf that
/// refuses an entry stays as it is.
pub proof fn law_leaf_insert<K: Ord + Clone, V>(s: Seq<Entry<K, V>>, k: K, v: V)
    requires
        key_laws::<K>(),
        entries_wf(s),
    ensures
        ({
            let taken = exists|i: int|
                0 <= i < s.len() && !(#[trigger] s[i]).removed && same(s[i].key, k);
            let room = s.len() < ARRAY_SIZE && (s.len() == 0 || exists|i: int|
                0 <= i < s.len() && !(#[trigger] s[i]).removed);
            let t = with_entry(s, k, v);
            &&& holds(s, k) <==> taken
            &&& is_full(s) <==> !room
            &&& accepts(s, k) <==> room && !taken
            &&& taken || !room ==> t == s
            &&& room && !taken ==> exists|n: int|
                {
                    &&& 0 <= n <= s.len()
                    &&& t == #[trigger] s.insert(n, Entry { key: k, value: v, removed: false })
                    &&& forall|j: int| 0 <= j < n ==> !lt(k, (#[trigger] s[j]).key)
                    &&& forall|j: int| n <= j < s.len() ==> lt(k, (#[trigger] s[j]).key)
                }
        }),
{
    if exists|i: int| 0 <= i < s.len() && !(#[trigger] s[i]).removed && same(s[i].key, k) {
        let i = choose|i: int|
            0 <= i < s.len() && !(#[trigger] s[i]).removed && same(s[i].key, k);
        assert(key_at(s, k, i));
    }
    if holds(s, k) {
        assert(key_at(s, k, index_of(s, k)));
    }
    lemma_seek_after(s, k, 0);
    let n = seek_after(s, k, 0);
    assert(s.insert(n, Entry { key: k, value: v, removed: false }).len() == s.len() + 1);
}

/// A removal marks the live entry with the key, if there is one, and changes nothing else.
pub proof fn law_leaf_remove<K: Ord + Clone, V>(s: Seq<Entry<K, V>>, k: K)
    requires
        key_laws::<K>(),
        entries_wf(s),
    ensures
        ({
            let t = without_key(s, k);
            &&& t.len() == s.len()
            &&& forall|i: int|
                #![trigger t[i]]
                0 <= i < s.len() ==> {
                    &&& t[i].key == s[i].key
                    &&& t[i].value == s[i].value
                    &&& t[i].removed == (s[i].removed || same(s[i].key, k))
                }
        }),
{
    let t = without_key(s, k);
    assert forall|i: int| 0 <= i < s.len() implies (#[trigger] t[i]).removed == (s[i].removed
        || same(s[i].key, k)) by {
        if !s[i].removed && same(s[i].key, k) {
            assert(key_at(s, k, i));
            lemma_index_of(s, k, i);
        } else if holds(s, k) {
            assert(key_at(s, k, index_of(s, k)));
        }
    }
}

/// A leaf is obsolete if it has lost all of its entries, and full if it is obsolete or all slots
/// were written. Its version counts the slots that were written and the entries that were removed.
pub proof fn law_leaf_state<K: Ord, V>(s: Seq<Entry<K, V>>)
    requires
        entries_wf(s),
    ensures
        is_obsolete(s) <==> s.len() > 0 && s.filter(|e: Entry<K, V>| !e.removed).len() == 0,
        is_full(s) <==> s.len() == ARRAY_SIZE || is_obsolete(s),
        version(s).used == s.len(),
        version(s).removed == s.filter(|e: Entry<K, V>| e.removed).len(),
        live(s) == s.filter(|e: Entry<K, V>| !e.removed),
{
    lemma_live_filter(s);
    lemma_count_filter(s);
    lemma_count_removed(s);
    if is_obsolete(s) {
        assert(live(s).len() == 0) by {
            lemma_live_none(s);
        }
    }
    if s.len() > 0 && live(s).len() == 0 {
        assert forall|i: int| 0 <= i < s.len() implies (#[trigger] s[i]).removed by {
            lemma_live_some(s, i);
        }
    }
}

/// The live part is what is left when removed entries are filtered out.
pub proof fn lemma_live_filter<K, V>(s: Seq<Entry<K, V>>)
    ensures
        live(s) == s.filter(|e: Entry<K, V>| !e.removed),
    decreases s.len(),
{
    reveal(Seq::filter);
    if s.len() > 0 {
        lemma_live_filter(s.drop_last());
    } else {
        assert(s =~= Seq::empty());
    }
}

/// Removed entries are counted one by one.
proof fn lemma_count_filter<K, V>(s: Seq<Entry<K, V>>)
    ensures
        count_removed(s) == s.filter(|e: Entry<K, V>| e.removed).len(),
    decreases s.len(),
{
    reveal(Seq::filter);
    if s.len() > 0 {
        lemma_count_filter(s.drop_last());
    }
}

/// An array of removed entries has no live part.
proof fn lemma_live_none<K, V>(s: Seq<Entry<K, V>>)
    requires
        forall|i: int| 0 <= i < s.len() ==> (#[trigger] s[i]).removed,
    ensures
        live(s).len() == 0,
    decreases s.len(),
{
    if s.len() > 0 {
        assert(s[s.len() - 1].removed);
        assert forall|i: int| 0 <= i < s.drop_last().len() implies (
        #[trigger] s.drop_last()[i]).removed by {
            assert(s[i].removed);
        }
        lemma_live_none(s.drop_last());
    }
}

/// A live entry is in the live part.
proof fn lemma_live_some<K, V>(s: Seq<Entry<K, V>>, i: int)
    requires
        0 <= i < s.len(),
    ensures
        !s[i].removed ==> live(s).len() > 0,
    decreases s.len(),
{
    if i < s.len() - 1 {
        assert(s.drop_last()[i] == s[i]);
        lemma_live_some(s.drop_last(), i);
    }
}

/// A value is found under a key exactly if it is the value of a live entry with that key.
pub proof fn law_leaf_search<K: Ord + Clone, V>(s: Seq<Entry<K, V>>, k: K, v: V)
    requires
        key_laws::<K>(),
        entries_wf(s),
    ensures
        lookup(s, k) == Some(v) <==> exists|i: int|
            0 <= i < s.len() && !(#[trigger] s[i]).removed && same(s[i].key, k) && s[i].value == v,
        lookup(s, k) is None <==> forall|i: int|
            0 <= i < s.len() && !(#[trigger] s[i]).removed ==> !same(s[i].key, k),
{
    if holds(s, k) {
        let i = index_of(s, k);
        assert(key_at(s, k, i));
        assert(!s[i].removed && same(s[i].key, k));
    }
    if exists|i: int|
        0 <= i < s.len() && !(#[trigger] s[i]).removed && same(s[i].key, k) && s[i].value == v {
        let i = choose|i: int|
            0 <= i < s.len() && !(#[trigger] s[i]).removed && same(s[i].key, k) && s[i].value == v;
        assert(key_at(s, k, i));
        lemma_index_of(s, k, i);
    }
    if forall|i: int| 0 <= i < s.len() && !(#[trigger] s[i]).removed ==> !same(s[i].key, k) {
        if holds(s, k) {
            assert(key_at(s, k, index_of(s, k)));
        }
    }
    if lookup(s, k) is None {
        assert forall|i: int| 0 <= i < s.len() && !(#[trigger] s[i]).removed implies !same(
            s[i].key,
            k,
        ) by {
            if same(s[i].key, k) {
                assert(key_at(s, k, i));
            }
        }
    }
}

/// A search for the minimum live entry whose key is not less than `k` ends with it: it is live, its
/// key is not less than `k`, and no other such entry has a smaller key. If the search ends behind
/// the last slot, all live keys are less than `k`.
pub proof fn law_leaf_lower_bound<K: Ord + Clone, V>(s: Seq<Entry<K, V>>, k: K)
    requires
        key_laws::<K>(),
        entries_wf(s),
    ensures
        ({
            let n = seek(s, k, 0);
            &&& 0 <= n <= s.len()
            &&& n < s.len() ==> !s[n].removed && !lt(s[n].key, k)
            &&& n < s.len() ==> forall|j: int|
                0 <= j < s.len() && !(#[trigger] s[j]).removed && !lt(s[j].key, k) ==> n <= j
                    && !lt(s[j].key, s[n].key)
            &&& n == s.len() ==> forall|j: int|
                0 <= j < s.len() && !(#[trigger] s[j]).removed ==> lt(s[j].key, k)
        }),
{
    let n = seek(s, k, 0);
    lemma_seek(s, k, 0);
    if n < s.len() {
        assert forall|j: int|
            0 <= j < s.len() && !(#[trigger] s[j]).removed && !lt(s[j].key, k) implies n <= j
            && !lt(s[j].key, s[n].key) by {
            if n < j {
                assert(lt(s[n].key, s[j].key) || (same(s[n].key, s[j].key) && s[n].removed));
            }
        }
    }
}

/// The last of the live entries is one with the greatest key.
pub proof fn law_leaf_max<K: Ord + Clone, V>(s: Seq<Entry<K, V>>)
    requires
        key_laws::<K>(),
        entries_wf(s),
    ensures
        live(s).len() > 0 <==> exists|i: int| 0 <= i < s.len() && !(#[trigger] s[i]).removed,
        live(s).len() > 0 ==> {
            &&& exists|i: int|
                0 <= i < s.len() && !(#[trigger] s[i]).removed && s[i] == live(s).last()
            &&& forall|j: int|
                0 <= j < s.len() && !(#[trigger] s[j]).removed ==> !lt(
                    live(s).last().key,
                    s[j].key,
                )
        },
{
    if live(s).len() > 0 {
        let i = lemma_live_last(s);
        assert(!s[i].removed);
        assert forall|j: int| 0 <= j < s.len() && !(#[trigger] s[j]).removed implies !lt(
            s[i].key,
            s[j].key,
        ) by {
            if j < i {
                assert(lt(s[j].key, s[i].key) || (same(s[j].key, s[i].key) && s[j].removed));
            }
        }
    }
    if exists|i: int| 0 <= i < s.len() && !(#[trigger] s[i]).removed {
        let i = choose|i: int| 0 <= i < s.len() && !(#[trigger] s[i]).removed;
        lemma_live_some(s, i);
    }
}

/// The last live entry is followed by removed ones only.
proof fn lemma_live_last<K, V>(s: Seq<Entry<K, V>>) -> (i: int)
    requires
        live(s).len() > 0,
    ensures
        0 <= i < s.len(),
        s[i] == live(s).last(),
        !s[i].removed,
        forall|j: int| i < j < s.len() ==> (#[trigger] s[j]).removed,
    decreases s.len(),
{
    if s.last().removed {
        let i = lemma_live_last(s.drop_last());
        assert forall|j: int| i < j < s.len() implies (#[trigger] s[j]).removed by {
            if j < s.len() - 1 {
                assert(s.drop_last()[j].removed);
            }
        }
        i
    } else {
        s.len() - 1
    }
}

/// A leaf that is distributed loses no live entry and their order: the low-key leaf gets the first
/// ones, up to half the slots' worth, and the high-key leaf the rest.
pub proof fn law_leaf_distribute<K: Ord, V>(s: Seq<Entry<K, V>>)
    requires
        entries_wf(s),
    ensures
        ({
            let all = s.filter(|e: Entry<K, V>| !e.removed);
            &&& low_half(live(s)) + high_half(live(s)) == all
            &&& 2 * low_half(live(s)).len() <= ARRAY_SIZE
            &&& high_half(live(s)).len() > 0 ==> 2 * low_half(live(s)).len() == ARRAY_SIZE
        }),
{
    lemma_live_filter(s);
    let l = live(s);
    assert(low_half(l) + high_half(l) =~= l);
}

/// Overwriting the value in a slot changes nothing else.
pub proof fn law_leaf_store<K, V>(s: Seq<Entry<K, V>>, n: int, v: V)
    requires
        0 <= n < s.len(),
    ensures
        ({
            let t = with_value(s, n, v);
            &&& t.len() == s.len()
            &&& t[n] == (Entry { key: s[n].key, value: v, removed: s[n].removed })
            &&& forall|i: int| 0 <= i < s.len() && i != n ==> #[trigger] t[i] == s[i]
        }),
{
}

} // verus!
