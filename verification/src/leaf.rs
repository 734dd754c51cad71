//! A leaf: a bounded array of entries in key order.
//!
//! A slot that was written once is never reused: removing an entry only marks it. A leaf whose
//! every entry was removed is obsolete and takes no new entries.
pub mod laws;

use crate::order::{compare, key_laws, lt, same, KeyOrder};
use vstd::prelude::*;

verus! {

/// The number of slots in a leaf.
pub const ARRAY_SIZE: usize = 12;

/// A slot of a leaf that was written.
#[derive(Clone)]
pub struct Entry<K, V> {
    pub key: K,
    pub value: V,
    /// The entry was removed; the slot stays occupied.
    pub removed: bool,
}

/// The version of a leaf: it changes with each entry that is added or removed.
#[derive(Clone, Copy, PartialEq, Eq, Structural, Debug)]
pub struct Metadata {
    /// The number of slots written.
    pub used: usize,
    /// The number of entries removed.
    pub removed: usize,
}

/// A bounded array of entries in key order.
#[derive(Clone)]
pub struct Leaf<K, V> {
    entries: Vec<Entry<K, V>>,
}

// ---------------------------------------------------------------------------------------------
// The entries of a leaf as a sequence
// ---------------------------------------------------------------------------------------------
/// The entry at `i` is there and has not been removed.
pub open spec fn live_at<K, V>(s: Seq<Entry<K, V>>, i: int) -> bool {
    0 <= i < s.len() && !s[i].removed
}

/// Keys ascend, and of several entries with one key only the last can be live.
pub open spec fn sorted<K: Ord, V>(s: Seq<Entry<K, V>>) -> bool {
    forall|i: int, j: int|
        0 <= i < j < s.len() ==> lt((#[trigger] s[i]).key, (#[trigger] s[j]).key) || (same(
            s[i].key,
            s[j].key,
        ) && s[i].removed)
}

/// A well-formed array of entries.
pub open spec fn entries_wf<K: Ord, V>(s: Seq<Entry<K, V>>) -> bool {
    &&& s.len() <= ARRAY_SIZE
    &&& sorted(s)
}

/// Every entry was removed, and there was one.
pub open spec fn is_obsolete<K, V>(s: Seq<Entry<K, V>>) -> bool {
    &&& s.len() > 0
    &&& forall|i: int| 0 <= i < s.len() ==> (#[trigger] s[i]).removed
}

/// No entry can be added.
pub open spec fn is_full<K, V>(s: Seq<Entry<K, V>>) -> bool {
    s.len() == ARRAY_SIZE || is_obsolete(s)
}

/// The live entry with key `k` stands at `i`.
pub open spec fn key_at<K: Ord, V>(s: Seq<Entry<K, V>>, k: K, i: int) -> bool {
    live_at(s, i) && same(s[i].key, k)
}

/// There is a live entry with key `k`.
pub open spec fn holds<K: Ord, V>(s: Seq<Entry<K, V>>, k: K) -> bool {
    exists|i: int| key_at(s, k, i)
}

/// Where the live entry with key `k` stands.
pub open spec fn index_of<K: Ord, V>(s: Seq<Entry<K, V>>, k: K) -> int {
    choose|i: int| key_at(s, k, i)
}

/// The value found under `k`.
pub open spec fn lookup<K: Ord, V>(s: Seq<Entry<K, V>>, k: K) -> Option<V> {
    if holds(s, k) {
        Some(s[index_of(s, k)].value)
    } else {
        None
    }
}

/// The first index from `i` on that holds a live entry whose key is not less than `k`, or the
/// length.
pub open spec fn seek<K: Ord, V>(s: Seq<Entry<K, V>>, k: K, i: int) -> int
    decreases s.len() - i,
{
    if i < 0 || i >= s.len() {
        s.len() as int
    } else if !s[i].removed && !lt(s[i].key, k) {
        i
    } else {
        seek(s, k, i + 1)
    }
}

/// The first index from `i` on that holds a key greater than `k`, or the length.
pub open spec fn seek_after<K: Ord, V>(s: Seq<Entry<K, V>>, k: K, i: int) -> int
    decreases s.len() - i,
{
    if i < 0 || i >= s.len() {
        s.len() as int
    } else if lt(k, s[i].key) {
        i
    } else {
        seek_after(s, k, i + 1)
    }
}

/// The live entries in key order.
pub open spec fn live<K, V>(s: Seq<Entry<K, V>>) -> Seq<Entry<K, V>>
    decreases s.len(),
{
    if s.len() == 0 {
        Seq::empty()
    } else if s.last().removed {
        live(s.drop_last())
    } else {
        live(s.drop_last()).push(s.last())
    }
}

/// The number of removed entries.
pub open spec fn count_removed<K, V>(s: Seq<Entry<K, V>>) -> nat
    decreases s.len(),
{
    if s.len() == 0 {
        0
    } else {
        count_removed(s.drop_last()) + if s.last().removed {
            1nat
        } else {
            0nat
        }
    }
}

/// The version of the array.
pub open spec fn version<K, V>(s: Seq<Entry<K, V>>) -> Metadata {
    Metadata { used: s.len() as usize, removed: count_removed(s) as usize }
}

/// No entry was removed.
pub open spec fn all_live<K, V>(s: Seq<Entry<K, V>>) -> bool {
    forall|i: int| 0 <= i < s.len() ==> !(#[trigger] s[i]).removed
}

/// A new entry with key `k` is taken.
pub open spec fn accepts<K: Ord, V>(s: Seq<Entry<K, V>>, k: K) -> bool {
    !is_full(s) && !holds(s, k)
}

/// The array after an attempt to add an entry: a refused entry changes nothing.
pub open spec fn with_entry<K: Ord, V>(s: Seq<Entry<K, V>>, k: K, v: V) -> Seq<Entry<K, V>> {
    if accepts(s, k) {
        s.insert(seek_after(s, k, 0), Entry { key: k, value: v, removed: false })
    } else {
        s
    }
}

/// The entry, marked as removed.
pub open spec fn mark_removed<K, V>(e: Entry<K, V>) -> Entry<K, V> {
    Entry { key: e.key, value: e.value, removed: true }
}

/// The array after an attempt to remove `k`.
pub open spec fn without_key<K: Ord, V>(s: Seq<Entry<K, V>>, k: K) -> Seq<Entry<K, V>> {
    if holds(s, k) {
        s.update(index_of(s, k), mark_removed(s[index_of(s, k)]))
    } else {
        s
    }
}

/// The array after a value was overwritten.
pub open spec fn with_value<K, V>(s: Seq<Entry<K, V>>, i: int, v: V) -> Seq<Entry<K, V>> {
    s.update(i, Entry { key: s[i].key, value: v, removed: s[i].removed })
}

/// `b` is a clone of `a`, entry by entry.
pub open spec fn copied<K: Clone, V: Clone>(a: Seq<Entry<K, V>>, b: Seq<Entry<K, V>>) -> bool {
    &&& a.len() == b.len()
    &&& forall|i: int|
        0 <= i < a.len() ==> {
            &&& cloned(a[i].key, (#[trigger] b[i]).key)
            &&& b[i].removed == a[i].removed
            &&& cloned(a[i].value, b[i].value)
        }
}

/// The entries that go to the low-key leaf when a leaf is split.
pub open spec fn low_half<K, V>(s: Seq<Entry<K, V>>) -> Seq<Entry<K, V>> {
    s.take(if s.len() < ARRAY_SIZE / 2 {
        s.len() as int
    } else {
        (ARRAY_SIZE / 2) as int
    })
}

/// The entries that go to the high-key leaf when a leaf is split.
pub open spec fn high_half<K, V>(s: Seq<Entry<K, V>>) -> Seq<Entry<K, V>> {
    s.skip(if s.len() < ARRAY_SIZE / 2 {
        s.len() as int
    } else {
        (ARRAY_SIZE / 2) as int
    })
}

// ---------------------------------------------------------------------------------------------
// Lemmas on sequences of entries
// ---------------------------------------------------------------------------------------------
/// A key has one live entry at most.
pub proof fn lemma_index_of<K: Ord + Clone, V>(s: Seq<Entry<K, V>>, k: K, i: int)
    requires
        key_laws::<K>(),
        sorted(s),
        key_at(s, k, i),
    ensures
        holds(s, k),
        index_of(s, k) == i,
{
    let j = index_of(s, k);
    assert(key_at(s, k, j));
    if i < j {
        assert(lt(s[i].key, s[j].key) || s[i].removed);
    }
    if j < i {
        assert(lt(s[j].key, s[i].key) || s[j].removed);
    }
}

/// Values of the same key are looked up alike.
pub proof fn lemma_lookup_same<K: Ord + Clone, V>(s: Seq<Entry<K, V>>, x: K, y: K)
    requires
        key_laws::<K>(),
        sorted(s),
        same(x, y),
    ensures
        holds(s, x) == holds(s, y),
        holds(s, x) ==> index_of(s, x) == index_of(s, y),
        lookup(s, x) == lookup(s, y),
{
    if holds(s, x) {
        let i = index_of(s, x);
        assert(key_at(s, x, i));
        assert(key_at(s, y, i));
        lemma_index_of(s, y, i);
    }
    if holds(s, y) {
        let i = index_of(s, y);
        assert(key_at(s, y, i));
        assert(key_at(s, x, i));
    }
}

/// What a search for a key finds.
pub proof fn lemma_seek<K: Ord, V>(s: Seq<Entry<K, V>>, k: K, i: int)
    requires
        0 <= i <= s.len(),
    ensures
        i <= seek(s, k, i) <= s.len(),
        seek(s, k, i) < s.len() ==> live_at(s, seek(s, k, i)) && !lt(s[seek(s, k, i)].key, k),
        forall|j: int|
            i <= j < seek(s, k, i) ==> (#[trigger] s[j]).removed || lt(s[j].key, k),
    decreases s.len() - i,
{
    if i < s.len() && !(!s[i].removed && !lt(s[i].key, k)) {
        lemma_seek(s, k, i + 1);
    }
}

/// What a search for a key must find.
pub proof fn lemma_seek_is<K: Ord, V>(s: Seq<Entry<K, V>>, k: K, i: int, r: int)
    requires
        0 <= i <= r <= s.len(),
        r < s.len() ==> live_at(s, r) && !lt(s[r].key, k),
        forall|j: int| i <= j < r ==> (#[trigger] s[j]).removed || lt(s[j].key, k),
    ensures
        seek(s, k, i) == r,
    decreases r - i,
{
    if i < r {
        assert(s[i].removed || lt(s[i].key, k));
        lemma_seek_is(s, k, i + 1, r);
    }
}

/// Where a new entry with a key goes.
pub proof fn lemma_seek_after<K: Ord + Clone, V>(s: Seq<Entry<K, V>>, k: K, i: int)
    requires
        key_laws::<K>(),
        sorted(s),
        0 <= i <= s.len(),
    ensures
        i <= seek_after(s, k, i) <= s.len(),
        forall|j: int| seek_after(s, k, i) <= j < s.len() ==> lt(k, (#[trigger] s[j]).key),
        forall|j: int| i <= j < seek_after(s, k, i) ==> !lt(k, (#[trigger] s[j]).key),
    decreases s.len() - i,
{
    if i < s.len() {
        if lt(k, s[i].key) {
            assert forall|j: int| i <= j < s.len() implies lt(k, (#[trigger] s[j]).key) by {
                if i < j {
                    assert(lt(s[i].key, s[j].key) || same(s[i].key, s[j].key));
                }
            }
        } else {
            lemma_seek_after(s, k, i + 1);
        }
    }
}

/// An array is obsolete if all of its entries count as removed.
pub proof fn lemma_count_removed<K, V>(s: Seq<Entry<K, V>>)
    ensures
        count_removed(s) <= s.len(),
        is_obsolete(s) <==> s.len() > 0 && count_removed(s) == s.len(),
    decreases s.len(),
{
    if s.len() > 0 {
        let t = s.drop_last();
        lemma_count_removed(t);
        if is_obsolete(s) {
            if t.len() > 0 {
                assert forall|i: int| 0 <= i < t.len() implies (#[trigger] t[i]).removed by {
                    assert(s[i].removed);
                }
            }
            assert(s[s.len() - 1].removed);
        }
        if count_removed(s) == s.len() {
            assert forall|i: int| 0 <= i < s.len() implies (#[trigger] s[i]).removed by {
                if i < t.len() {
                    assert(t[i].removed);
                }
            }
        }
    }
}

/// A live entry that is removed counts.
pub proof fn lemma_count_removed_update<K, V>(s: Seq<Entry<K, V>>, i: int)
    requires
        live_at(s, i),
    ensures
        count_removed(s.update(i, mark_removed(s[i]))) == count_removed(s) + 1,
    decreases s.len(),
{
    let t = s.update(i, mark_removed(s[i]));
    if i == s.len() - 1 {
        assert(t.drop_last() =~= s.drop_last());
    } else {
        lemma_count_removed_update(s.drop_last(), i);
        assert(t.drop_last() =~= s.drop_last().update(i, mark_removed(s[i])));
    }
}

/// A live entry that is inserted does not count.
pub proof fn lemma_count_removed_insert<K, V>(s: Seq<Entry<K, V>>, i: int, e: Entry<K, V>)
    requires
        0 <= i <= s.len(),
        !e.removed,
    ensures
        count_removed(s.insert(i, e)) == count_removed(s),
    decreases s.len(),
{
    let t = s.insert(i, e);
    if i == s.len() {
        assert(t.drop_last() =~= s);
    } else {
        lemma_count_removed_insert(s.drop_last(), i, e);
        assert(t.drop_last() =~= s.drop_last().insert(i, e));
    }
}

/// The live part of an array holds its live entries and no others, in order.
pub proof fn lemma_live<K: Ord + Clone, V>(s: Seq<Entry<K, V>>)
    requires
        key_laws::<K>(),
        sorted(s),
    ensures
        live(s).len() <= s.len(),
        sorted(live(s)),
        forall|j: int| 0 <= j < live(s).len() ==> live_at(live(s), j),
        forall|j: int|
            0 <= j < live(s).len() ==> exists|i: int|
                live_at(s, i) && #[trigger] s[i] == #[trigger] live(s)[j],
        forall|i: int|
            live_at(s, i) ==> exists|j: int|
                live_at(live(s), j) && #[trigger] live(s)[j] == #[trigger] s[i],
    decreases s.len(),
{
    if s.len() > 0 {
        let t = s.drop_last();
        let n = s.len() - 1;
        assert forall|i: int, j: int| 0 <= i < j < t.len() implies lt(
            (#[trigger] t[i]).key,
            (#[trigger] t[j]).key,
        ) || (same(t[i].key, t[j].key) && t[i].removed) by {
            assert(lt(s[i].key, s[j].key) || (same(s[i].key, s[j].key) && s[i].removed));
        }
        lemma_live(t);
        let l = live(s);
        assert forall|j: int| 0 <= j < l.len() implies exists|i: int|
            live_at(s, i) && #[trigger] s[i] == #[trigger] l[j] by {
            if j < live(t).len() {
                assert(l[j] == live(t)[j]);
                let i = choose|i: int| live_at(t, i) && #[trigger] t[i] == live(t)[j];
                assert(live_at(s, i) && s[i] == l[j]);
            } else {
                assert(live_at(s, n) && s[n] == l[j]);
            }
        }
        assert forall|i: int| live_at(s, i) implies exists|j: int|
            live_at(l, j) && #[trigger] l[j] == #[trigger] s[i] by {
            if i < n {
                assert(live_at(t, i));
                let j = choose|j: int| live_at(live(t), j) && #[trigger] live(t)[j] == t[i];
                assert(live_at(l, j) && l[j] == s[i]);
            } else {
                assert(live_at(l, l.len() - 1) && l[l.len() - 1] == s[i]);
            }
        }
        assert forall|i: int, j: int| 0 <= i < j < l.len() implies lt(
            (#[trigger] l[i]).key,
            (#[trigger] l[j]).key,
        ) || (same(l[i].key, l[j].key) && l[i].removed) by {
            if j < live(t).len() {
                assert(l[i] == live(t)[i] && l[j] == live(t)[j]);
            } else {
                assert(l[i] == live(t)[i]);
                let a = choose|a: int| live_at(t, a) && #[trigger] t[a] == live(t)[i];
                assert(lt(s[a].key, s[n].key) || s[a].removed);
            }
        }
    }
}

/// A copy of an array in order is in order.
pub proof fn lemma_copied_sorted<K: Ord + Clone, V: Clone>(
    a: Seq<Entry<K, V>>,
    b: Seq<Entry<K, V>>,
)
    requires
        key_laws::<K>(),
        sorted(a),
        copied(a, b),
    ensures
        sorted(b),
        forall|i: int| 0 <= i < a.len() ==> same(a[i].key, (#[trigger] b[i]).key),
{
    assert forall|i: int, j: int| 0 <= i < j < b.len() implies lt(
        (#[trigger] b[i]).key,
        (#[trigger] b[j]).key,
    ) || (same(b[i].key, b[j].key) && b[i].removed) by {
        assert(lt(a[i].key, a[j].key) || (same(a[i].key, a[j].key) && a[i].removed));
        assert(cloned(a[i].key, b[i].key) && cloned(a[j].key, b[j].key));
        assert(same(a[i].key, b[i].key) && same(a[j].key, b[j].key));
    }
}

/// An attempt to add an entry keeps the array in order.
pub proof fn lemma_with_entry<K: Ord + Clone, V>(s: Seq<Entry<K, V>>, k: K, v: V)
    requires
        key_laws::<K>(),
        entries_wf(s),
    ensures
        entries_wf(with_entry(s, k, v)),
        accepts(s, k) ==> {
            let p = seek_after(s, k, 0);
            &&& 0 <= p <= s.len()
            &&& with_entry(s, k, v).len() == s.len() + 1
            &&& key_at(with_entry(s, k, v), k, p)
        },
{
    if accepts(s, k) {
        lemma_seek_after(s, k, 0);
        let p = seek_after(s, k, 0);
        let e = Entry { key: k, value: v, removed: false };
        let t = s.insert(p, e);
        assert forall|i: int, j: int| 0 <= i < j < t.len() implies lt(
            (#[trigger] t[i]).key,
            (#[trigger] t[j]).key,
        ) || (same(t[i].key, t[j].key) && t[i].removed) by {
            let si = if i < p {
                i
            } else {
                i - 1
            };
            let sj = if j < p {
                j
            } else {
                j - 1
            };
            if i != p {
                assert(t[i] == s[si]);
            }
            if j != p {
                assert(t[j] == s[sj]);
            }
            if i == p {
                assert(lt(k, s[sj].key));
            } else if j == p {
                assert(!lt(k, s[si].key));
                if !s[si].removed {
                    if same(s[si].key, k) {
                        assert(key_at(s, k, si));
                    }
                }
            }
        }
    }
}

/// Cloned values take the same entries in the same places.
pub proof fn lemma_copied_with_entry<K: Ord + Clone, V: Clone>(
    a: Seq<Entry<K, V>>,
    b: Seq<Entry<K, V>>,
    k: K,
    v: V,
    l: K,
    w: V,
)
    requires
        key_laws::<K>(),
        sorted(a),
        copied(a, b),
        cloned(k, l),
        cloned(v, w),
    ensures
        copied(with_entry(a, k, v), with_entry(b, l, w)),
{
    lemma_copied_sorted(a, b);
    lemma_seek_after(a, k, 0);
    lemma_seek_after_same(a, b, k, l, 0);
    assert(same(k, l));
    if holds(a, k) {
        let i = index_of(a, k);
        assert(key_at(a, k, i));
        assert(same(a[i].key, b[i].key));
        assert(key_at(b, l, i));
    }
    if holds(b, l) {
        let i = index_of(b, l);
        assert(key_at(b, l, i));
        assert(same(a[i].key, b[i].key));
        assert(key_at(a, k, i));
    }
    if is_obsolete(a) {
        assert forall|i: int| 0 <= i < b.len() implies (#[trigger] b[i]).removed by {
            assert(a[i].removed);
        }
    }
    if is_obsolete(b) {
        assert forall|i: int| 0 <= i < a.len() implies (#[trigger] a[i]).removed by {
            assert(b[i].removed);
        }
    }
    assert(is_obsolete(a) == is_obsolete(b));
}

/// Entries with the same keys take new entries in the same places.
pub proof fn lemma_seek_after_same<K: Ord + Clone, V, W>(
    a: Seq<Entry<K, V>>,
    b: Seq<Entry<K, W>>,
    k: K,
    l: K,
    i: int,
)
    requires
        key_laws::<K>(),
        a.len() == b.len(),
        0 <= i <= a.len(),
        forall|j: int| 0 <= j < a.len() ==> same(a[j].key, (#[trigger] b[j]).key),
        same(k, l),
    ensures
        seek_after(a, k, i) == seek_after(b, l, i),
    decreases a.len() - i,
{
    if i < a.len() {
        assert(same(a[i].key, b[i].key));
        assert(lt(k, a[i].key) <==> lt(k, b[i].key));
        assert(lt(k, b[i].key) <==> lt(l, b[i].key));
        lemma_seek_after_same(a, b, k, l, i + 1);
    }
}

/// An array without removed entries is its own live part.
pub proof fn lemma_live_all<K, V>(s: Seq<Entry<K, V>>)
    requires
        all_live(s),
    ensures
        live(s) == s,
    decreases s.len(),
{
    if s.len() > 0 {
        lemma_live_all(s.drop_last());
        assert(!s[s.len() - 1].removed);
        assert(s.drop_last().push(s.last()) =~= s);
    }
}

/// An attempt to remove a key keeps the array in order.
pub proof fn lemma_without_key<K: Ord + Clone, V>(s: Seq<Entry<K, V>>, k: K)
    requires
        key_laws::<K>(),
        entries_wf(s),
    ensures
        entries_wf(without_key(s, k)),
        without_key(s, k).len() == s.len(),
        !holds(without_key(s, k), k),
{
    let t = without_key(s, k);
    if holds(s, k) {
        let i = index_of(s, k);
        assert(key_at(s, k, i));
        assert forall|a: int, b: int| 0 <= a < b < t.len() implies lt(
            (#[trigger] t[a]).key,
            (#[trigger] t[b]).key,
        ) || (same(t[a].key, t[b].key) && t[a].removed) by {
            assert(lt(s[a].key, s[b].key) || (same(s[a].key, s[b].key) && s[a].removed));
        }
        if holds(t, k) {
            let j = index_of(t, k);
            assert(key_at(t, k, j));
            assert(key_at(s, k, j));
            lemma_index_of(s, k, j);
        }
    }
}

// ---------------------------------------------------------------------------------------------
// The leaf
// ---------------------------------------------------------------------------------------------
impl<K, V> View for Leaf<K, V> {
    type V = Seq<Entry<K, V>>;

    closed spec fn view(&self) -> Seq<Entry<K, V>> {
        self.entries@
    }
}

impl<K: Clone + Ord, V> Leaf<K, V> {
    /// The entries are in order and fit the slots.
    pub open spec fn wf(self) -> bool {
        entries_wf(self@)
    }

    /// An empty leaf.
    pub fn new() -> (leaf: Self)
        ensures
            leaf.wf(),
            leaf@ == Seq::<Entry<K, V>>::empty(),
    {
        Leaf { entries: Vec::new() }
    }

    /// The number of slots that were written.
    pub fn used(&self) -> (n: usize)
        ensures
            n == self@.len(),
    {
        self.entries.len()
    }

    /// The entry in a slot.
    pub fn entry(&self, index: usize) -> (e: &Entry<K, V>)
        requires
            index < self@.len(),
        ensures
            *e == self@[index as int],
    {
        &self.entries[index]
    }

    /// Overwrites the value of a slot.
    pub fn store(&mut self, index: usize, value: V)
        requires
            old(self).wf(),
            index < old(self)@.len(),
        ensures
            final(self).wf(),
            final(self)@ == with_value(old(self)@, index as int, value),
    {
        let old_entry = self.entries.remove(index);
        self.entries.insert(index, Entry { key: old_entry.key, value, removed: old_entry.removed });
        proof {
            let s = old(self)@;
            let t = with_value(s, index as int, value);
            assert(self@ =~= t);
            assert forall|a: int, b: int| 0 <= a < b < t.len() implies lt(
                (#[trigger] t[a]).key,
                (#[trigger] t[b]).key,
            ) || (same(t[a].key, t[b].key) && t[a].removed) by {
                assert(lt(s[a].key, s[b].key) || (same(s[a].key, s[b].key) && s[a].removed));
            }
        }
    }

    /// The version of the leaf.
    pub fn metadata(&self) -> (m: Metadata)
        requires
            self.wf(),
        ensures
            m == version(self@),
    {
        let mut removed: usize = 0;
        let mut i: usize = 0;
        while i < self.entries.len()
            invariant
                i <= self.entries.len(),
                removed <= i,
                removed == count_removed(self@.take(i as int)),
            decreases self.entries.len() - i,
        {
            proof {
                assert(self@.take(i + 1).drop_last() =~= self@.take(i as int));
                assert(self@.take(i + 1).last() == self@[i as int]);
            }
            if self.entries[i].removed {
                removed = removed + 1;
            }
            i = i + 1;
        }
        proof {
            assert(self@.take(i as int) =~= self@);
        }
        Metadata { used: self.entries.len(), removed }
    }

    /// Whether the leaf still has the given version.
    pub fn validate(&self, metadata: Metadata) -> (b: bool)
        requires
            self.wf(),
        ensures
            b == (version(self@) == metadata),
    {
        let current = self.metadata();
        current == metadata
    }

    /// Whether every entry was removed.
    pub fn obsolete(&self) -> (b: bool)
        requires
            self.wf(),
        ensures
            b == is_obsolete(self@),
    {
        let m = self.metadata();
        proof {
            lemma_count_removed(self@);
        }
        m.used > 0 && m.removed == m.used
    }

    /// Whether no entry can be added.
    pub fn full(&self) -> (b: bool)
        requires
            self.wf(),
        ensures
            b == is_full(self@),
    {
        self.entries.len() == ARRAY_SIZE || self.obsolete()
    }

    /// The slot of the minimum live entry whose key is not less than the given key, or the number
    /// of slots written.
    pub fn lower_bound(&self, key: &K) -> (index: usize)
        requires
            key_laws::<K>(),
            self.wf(),
        ensures
            index == seek(self@, *key, 0),
            index <= self@.len(),
            index < self@.len() ==> live_at(self@, index as int) && !lt(
                self@[index as int].key,
                *key,
            ),
    {
        let mut i: usize = 0;
        while i < self.entries.len()
            invariant
                key_laws::<K>(),
                i <= self.entries.len(),
                seek(self@, *key, 0) == seek(self@, *key, i as int),
            decreases self.entries.len() - i,
        {
            let e = &self.entries[i];
            if !e.removed {
                match compare(&e.key, key) {
                    KeyOrder::Less => {},
                    _ => {
                        return i;
                    },
                }
            }
            i = i + 1;
        }
        i
    }

    /// The minimum live entry whose key is not less than the given key, and the version of the
    /// leaf that was looked at.
    pub fn min_greater_equal(&self, key: &K) -> (r: (Option<(&K, &V)>, Metadata))
        requires
            key_laws::<K>(),
            self.wf(),
        ensures
            r.1 == version(self@),
            r.0 is Some <==> seek(self@, *key, 0) < self@.len(),
            r.0 matches Some((k, v)) ==> {
                let e = self@[seek(self@, *key, 0)];
                *k == e.key && *v == e.value
            },
    {
        let i = self.lower_bound(key);
        let m = self.metadata();
        if i < self.entries.len() {
            let e = &self.entries[i];
            (Some((&e.key, &e.value)), m)
        } else {
            (None, m)
        }
    }

    /// The slot of the live entry with the given key, or the number of slots written.
    pub fn position(&self, key: &K) -> (index: usize)
        requires
            key_laws::<K>(),
            self.wf(),
        ensures
            index < self@.len() <==> holds(self@, *key),
            index <= self@.len(),
            holds(self@, *key) ==> key_at(self@, *key, index as int) && index == index_of(
                self@,
                *key,
            ),
    {
        let i = self.lower_bound(key);
        proof {
            lemma_seek(self@, *key, 0);
            if holds(self@, *key) {
                let j = index_of(self@, *key);
                assert(key_at(self@, *key, j));
                if j < i {
                    assert(self@[j].removed || lt(self@[j].key, *key));
                }
                if i < j {
                    assert(lt(self@[i as int].key, self@[j].key) || self@[i as int].removed);
                }
            }
        }
        if i < self.entries.len() {
            match compare(&self.entries[i].key, key) {
                KeyOrder::Equal => {
                    proof {
                        assert(key_at(self@, *key, i as int));
                        lemma_index_of(self@, *key, i as int);
                    }
                    return i;
                },
                _ => {},
            }
        }
        self.entries.len()
    }

    /// The value under the given key.
    pub fn search(&self, key: &K) -> (r: Option<&V>)
        requires
            key_laws::<K>(),
            self.wf(),
        ensures
            r is Some <==> holds(self@, *key),
            r matches Some(v) ==> lookup(self@, *key) == Some(*v),
    {
        let i = self.position(key);
        if i < self.entries.len() {
            Some(&self.entries[i].value)
        } else {
            None
        }
    }

    /// The live entry with the greatest key.
    pub fn max(&self) -> (r: Option<(&K, &V)>)
        requires
            self.wf(),
        ensures
            r is Some <==> live(self@).len() > 0,
            r matches Some((k, v)) ==> *k == live(self@).last().key && *v == live(
                self@,
            ).last().value,
    {
        let mut i: usize = self.entries.len();
        proof {
            assert(self@.take(i as int) =~= self@);
        }
        while i > 0
            invariant
                i <= self.entries.len(),
                live(self@.take(i as int)) == live(self@),
            decreases i,
        {
            proof {
                assert(self@.take(i as int).drop_last() =~= self@.take(i - 1));
                assert(self@.take(i as int).last() == self@[i - 1]);
            }
            i = i - 1;
            let e = &self.entries[i];
            if !e.removed {
                return Some((&e.key, &e.value));
            }
        }
        None
    }

    /// Adds an entry.
    ///
    /// An entry that is refused is handed back; the flag says whether its key is taken, and the
    /// leaf is full if it is not.
    pub fn insert(&mut self, key: K, value: V) -> (r: Option<((K, V), bool)>)
        requires
            key_laws::<K>(),
            old(self).wf(),
        ensures
            final(self).wf(),
            final(self)@ == with_entry(old(self)@, key, value),
            r is None <==> accepts(old(self)@, key),
            r matches Some((e, duplicated)) ==> e == (key, value) && duplicated == holds(
                old(self)@,
                key,
            ),
    {
        proof {
            lemma_with_entry(self@, key, value);
        }
        if self.position(&key) < self.entries.len() {
            return Some(((key, value), true));
        }
        if self.full() {
            return Some(((key, value), false));
        }
        let mut i: usize = 0;
        while i < self.entries.len()
            invariant_except_break
                i <= self.entries.len(),
                seek_after(self@, key, 0) == seek_after(self@, key, i as int),
            invariant
                key_laws::<K>(),
                self@ == old(self)@,
            ensures
                i == seek_after(self@, key, 0),
                i <= self.entries.len(),
            decreases self.entries.len() - i,
        {
            match compare(&key, &self.entries[i].key) {
                KeyOrder::Less => {
                    break ;
                },
                _ => {},
            }
            i = i + 1;
        }
        self.entries.insert(i, Entry { key, value, removed: false });
        None
    }

    /// Removes the entry with the given key.
    ///
    /// The flags say whether there was one, whether the leaf is full now, and whether it is
    /// obsolete now.
    pub fn remove(&mut self, key: &K) -> (r: (bool, bool, bool))
        requires
            key_laws::<K>(),
            old(self).wf(),
        ensures
            final(self).wf(),
            final(self)@ == without_key(old(self)@, *key),
            r.0 == holds(old(self)@, *key),
            r.1 == is_full(final(self)@),
            r.2 == is_obsolete(final(self)@),
    {
        proof {
            lemma_without_key(self@, *key);
        }
        let i = self.position(key);
        let removed = i < self.entries.len();
        if removed {
            let e = self.entries.remove(i);
            self.entries.insert(i, Entry { key: e.key, value: e.value, removed: true });
            proof {
                assert(self@ =~= without_key(old(self)@, *key));
            }
        }
        (removed, self.full(), self.obsolete())
    }
}

impl<K: Clone + Ord, V: Clone> Leaf<K, V> {
    /// Copies the live entries into two new leaves: the first half of the slots' worth into the
    /// low-key leaf, the rest into the high-key leaf. A leaf that would be empty is not made.
    pub fn distribute(&self) -> (r: (Option<Leaf<K, V>>, Option<Leaf<K, V>>))
        requires
            key_laws::<K>(),
            self.wf(),
        ensures
            ({
                let all = live(self@);
                &&& r.0 is Some <==> all.len() > 0
                &&& r.1 is Some <==> all.len() > ARRAY_SIZE / 2
                &&& r.0 matches Some(low) ==> low.wf() && copied(low_half(all), low@)
                &&& r.1 matches Some(high) ==> high.wf() && copied(high_half(all), high@)
            }),
    {
        let mut low: Vec<Entry<K, V>> = Vec::new();
        let mut high: Vec<Entry<K, V>> = Vec::new();
        let mut i: usize = 0;
        while i < self.entries.len()
            invariant
                key_laws::<K>(),
                self.wf(),
                i <= self.entries.len(),
                ({
                    let all = live(self@.take(i as int));
                    &&& low@.len() < ARRAY_SIZE / 2 ==> high@.len() == 0
                    &&& copied(low_half(all), low@)
                    &&& copied(high_half(all), high@)
                }),
            decreases self.entries.len() - i,
        {
            let ghost all = live(self@.take(i as int));
            let ghost next = live(self@.take(i + 1));
            proof {
                assert(self@.take(i + 1).drop_last() =~= self@.take(i as int));
                assert(self@.take(i + 1).last() == self@[i as int]);
            }
            let e = &self.entries[i];
            if !e.removed {
                let copy = Entry { key: e.key.clone(), value: e.value.clone(), removed: false };
                proof {
                    assert(cloned(e.key, copy.key));
                }
                if low.len() < ARRAY_SIZE / 2 {
                    low.push(copy);
                    proof {
                        assert(low_half(next) =~= low_half(all).push(*e));
                        assert(high_half(next) =~= high_half(all));
                    }
                } else {
                    high.push(copy);
                    proof {
                        assert(low_half(next) =~= low_half(all));
                        assert(high_half(next) =~= high_half(all).push(*e));
                    }
                }
            }
            i = i + 1;
        }
        proof {
            assert(self@.take(i as int) =~= self@);
            lemma_live(self@);
            let all = live(self@);
            lemma_copied_sorted(low_half(all), low@);
            lemma_copied_sorted(high_half(all), high@);
        }
        let low_leaf = if low.len() > 0 {
            Some(Leaf { entries: low })
        } else {
            None
        };
        let high_leaf = if high.len() > 0 {
            Some(Leaf { entries: high })
        } else {
            None
        };
        (low_leaf, high_leaf)
    }
}

} // verus!
