//! A scanner walks the entries of one leaf in key order.
use crate::leaf::{seek, version, Entry, Leaf, Metadata};
use crate::order::key_laws;
use vstd::prelude::*;

verus! {

/// Walks the entries of a leaf in key order.
pub struct LeafScanner<'a, K, V> {
    leaf: &'a Leaf<K, V>,
    /// The slot that is looked at next.
    position: usize,
    /// The slot of the entry handed out last.
    current: Option<usize>,
    include_removed: bool,
}

/// A scanner hands the entry out.
pub open spec fn is_scannable<K, V>(e: Entry<K, V>, include_removed: bool) -> bool {
    include_removed || !e.removed
}

/// The first slot from `i` on that a scanner hands out, or the length.
pub open spec fn next_slot<K, V>(s: Seq<Entry<K, V>>, i: int, include_removed: bool) -> int
    decreases s.len() - i,
{
    if i < 0 || i >= s.len() {
        s.len() as int
    } else if is_scannable(s[i], include_removed) {
        i
    } else {
        next_slot(s, i + 1, include_removed)
    }
}

/// The next slot is the first one that is handed out.
pub proof fn lemma_next_slot<K, V>(s: Seq<Entry<K, V>>, i: int, include_removed: bool)
    requires
        0 <= i <= s.len(),
    ensures
        i <= next_slot(s, i, include_removed) <= s.len(),
        forall|j: int|
            i <= j < next_slot(s, i, include_removed) ==> !is_scannable(
                #[trigger] s[j],
                include_removed,
            ),
        next_slot(s, i, include_removed) < s.len() ==> is_scannable(
            s[next_slot(s, i, include_removed)],
            include_removed,
        ),
    decreases s.len() - i,
{
    if i < s.len() && !is_scannable(s[i], include_removed) {
        lemma_next_slot(s, i + 1, include_removed);
    }
}

/// A scanner that stands at slot `i` hands out the rest of the entries, without those that were
/// removed unless it is to include them, one after another and in their order: the entry that it
/// hands out next is the first of them, and what is left for it then are the others. It comes to
/// its end exactly if there are none left.
pub proof fn law_scan<K, V>(s: Seq<Entry<K, V>>, i: int, include_removed: bool)
    requires
        0 <= i <= s.len(),
    ensures
        ({
            let n = next_slot(s, i, include_removed);
            let wanted = |e: Entry<K, V>| include_removed || !e.removed;
            &&& i <= n <= s.len()
            &&& n == s.len() ==> s.skip(i).filter(wanted).len() == 0
            &&& n < s.len() ==> s.skip(i).filter(wanted) == seq![s[n]] + s.skip(n + 1).filter(
                wanted,
            )
        }),
    decreases s.len() - i,
{
    let wanted = |e: Entry<K, V>| include_removed || !e.removed;
    reveal(Seq::filter);
    if i < s.len() {
        law_scan(s, i + 1, include_removed);
        lemma_next_slot(s, i, include_removed);
        s.skip(i + 1).lemma_filter_prepend(s[i], wanted);
        assert(seq![s[i]] + s.skip(i + 1) =~= s.skip(i));
    } else {
        assert(s.skip(i) =~= Seq::empty());
    }
}

impl<'a, K: Clone + Ord, V> LeafScanner<'a, K, V> {
    /// The entries of the leaf that is scanned.
    pub closed spec fn entries(self) -> Seq<Entry<K, V>> {
        self.leaf@
    }

    /// The slot that is looked at next.
    pub closed spec fn position(self) -> int {
        self.position as int
    }

    /// The slot of the entry handed out last.
    pub closed spec fn current(self) -> Option<int> {
        match self.current {
            Some(i) => Some(i as int),
            None => None,
        }
    }

    /// Removed entries are handed out too.
    pub closed spec fn includes_removed(self) -> bool {
        self.include_removed
    }

    /// The scanner stands inside its leaf.
    pub closed spec fn wf(self) -> bool {
        &&& self.leaf.wf()
        &&& self.position <= self.leaf@.len()
        &&& self.current matches Some(i) ==> i < self.leaf@.len()
    }

    /// A scanner over the live entries of a leaf.
    pub fn new(leaf: &'a Leaf<K, V>) -> (scanner: Self)
        requires
            leaf.wf(),
        ensures
            scanner.wf(),
            scanner.entries() == leaf@,
            scanner.position() == 0,
            scanner.current() is None,
            !scanner.includes_removed(),
    {
        LeafScanner { leaf, position: 0, current: None, include_removed: false }
    }

    /// A scanner over all entries of a leaf.
    pub fn new_including_removed(leaf: &'a Leaf<K, V>) -> (scanner: Self)
        requires
            leaf.wf(),
        ensures
            scanner.wf(),
            scanner.entries() == leaf@,
            scanner.position() == 0,
            scanner.current() is None,
            scanner.includes_removed(),
    {
        LeafScanner { leaf, position: 0, current: None, include_removed: true }
    }

    /// A scanner that starts with the minimum live entry whose key is not less than the given
    /// key, if there is such an entry.
    pub fn from(leaf: &'a Leaf<K, V>, key: &K) -> (r: Option<Self>)
        requires
            key_laws::<K>(),
            leaf.wf(),
        ensures
            r is Some <==> seek(leaf@, *key, 0) < leaf@.len(),
            r matches Some(scanner) ==> {
                &&& scanner.wf()
                &&& scanner.entries() == leaf@
                &&& scanner.position() == seek(leaf@, *key, 0)
                &&& scanner.current() is None
                &&& !scanner.includes_removed()
            },
    {
        let position = leaf.lower_bound(key);
        if position < leaf.used() {
            Some(LeafScanner { leaf, position, current: None, include_removed: false })
        } else {
            None
        }
    }

    /// The version of the leaf.
    pub fn metadata(&self) -> (m: Metadata)
        requires
            self.wf(),
        ensures
            m == version(self.entries()),
    {
        self.leaf.metadata()
    }

    /// Hands out the next entry.
    pub fn next(&mut self) -> (r: Option<(&'a K, &'a V)>)
        requires
            old(self).wf(),
        ensures
            final(self).wf(),
            final(self).entries() == old(self).entries(),
            final(self).includes_removed() == old(self).includes_removed(),
            ({
                let s = old(self).entries();
                let n = next_slot(s, old(self).position(), old(self).includes_removed());
                match r {
                    Some((k, v)) => {
                        &&& n < s.len()
                        &&& *k == s[n].key
                        &&& *v == s[n].value
                        &&& final(self).position() == n + 1
                        &&& final(self).current() == Some(n)
                    },
                    None => {
                        &&& n == s.len()
                        &&& final(self).position() == n
                        &&& final(self).current() is None
                    },
                }
            }),
    {
        let leaf = self.leaf;
        let include_removed = self.include_removed;
        let mut i: usize = self.position;
        while i < leaf.used()
            invariant
                i <= leaf@.len(),
                leaf == self.leaf,
                *self == *old(self),
                include_removed == self.include_removed,
                next_slot(leaf@, old(self).position as int, include_removed) == next_slot(
                    leaf@,
                    i as int,
                    include_removed,
                ),
                old(self).wf(),
            decreases leaf@.len() - i,
        {
            let e = leaf.entry(i);
            if include_removed || !e.removed {
                self.position = i + 1;
                self.current = Some(i);
                return Some((&e.key, &e.value));
            }
            i = i + 1;
        }
        self.position = i;
        self.current = None;
        None
    }

    /// Whether the entry handed out last is a removed one.
    pub fn removed(&self) -> (b: bool)
        requires
            self.wf(),
            self.current() is Some,
        ensures
            b == self.entries()[self.current()->0].removed,
    {
        match self.current {
            Some(i) => self.leaf.entry(i).removed,
            None => false,
        }
    }
}

} // verus!
