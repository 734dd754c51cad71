//! The order of keys.
use core::cmp::Ordering;
use vstd::prelude::*;
use vstd::std_specs::cmp::OrdSpec;

verus! {

/// `a` comes before `b`.
pub open spec fn lt<K: Ord>(a: K, b: K) -> bool {
    a.cmp_spec(&b) == Ordering::Less
}

/// `a` and `b` compare equal: they are the same key, though they need not be the same value.
pub open spec fn same<K: Ord>(a: K, b: K) -> bool {
    a.cmp_spec(&b) == Ordering::Equal
}

/// The bounds are the same key, or there is none.
pub open spec fn alike<K: Ord>(a: Option<K>, b: Option<K>) -> bool {
    match (a, b) {
        (Some(x), Some(y)) => same(x, y),
        (None, None) => true,
        _ => false,
    }
}

/// The second bound is a clone of the first, or there is none.
pub open spec fn bound_cloned<K: Clone>(a: Option<K>, b: Option<K>) -> bool {
    match (a, b) {
        (Some(x), Some(y)) => cloned(x, y),
        (None, None) => true,
        _ => false,
    }
}

/// All values of a key.
pub open spec fn class<K: Ord>(k: K) -> Set<K> {
    Set::new(|x: K| same(x, k))
}

/// What the `Ord` and `Clone` impls of a key type owe a sorted container: `cmp` is a total order
/// up to keys that compare equal, and a clone compares equal to what it is made of.
pub open spec fn key_laws<K: Ord + Clone>() -> bool {
    &&& K::obeys_cmp_spec()
    &&& forall|a: K, b: K| (#[trigger] a.cmp_spec(&b) == Ordering::Greater) <==> lt(b, a)
    &&& forall|a: K| #[trigger] same(a, a)
    &&& forall|a: K, b: K| #[trigger] same(a, b) <==> !lt(a, b) && !lt(b, a)
    &&& forall|a: K, b: K, c: K| #[trigger] lt(a, b) && #[trigger] lt(b, c) ==> lt(a, c)
    &&& forall|a: K, b: K, c: K| #[trigger] lt(a, b) && !#[trigger] lt(c, b) ==> lt(a, c)
    &&& forall|a: K, b: K, c: K| #[trigger] lt(a, b) && !#[trigger] lt(a, c) ==> lt(c, b)
    &&& forall|a: K, b: K| #[trigger] cloned(a, b) ==> same(a, b)
}

/// How two keys compare.
#[derive(Clone, Copy, PartialEq, Eq, Structural, Debug)]
pub enum KeyOrder {
    Less,
    Equal,
    Greater,
}

/// Compares two keys.
pub fn compare<K: Ord + Clone>(a: &K, b: &K) -> (r: KeyOrder)
    requires
        key_laws::<K>(),
    ensures
        r is Less <==> lt(*a, *b),
        r is Equal <==> same(*a, *b),
        r is Greater <==> lt(*b, *a),
{
    match a.cmp(b) {
        Ordering::Less => KeyOrder::Less,
        Ordering::Equal => KeyOrder::Equal,
        Ordering::Greater => KeyOrder::Greater,
    }
}

/// The primitive integers are lawful keys.
pub proof fn lemma_integer_keys()
    ensures
        key_laws::<u8>(),
        key_laws::<u16>(),
        key_laws::<u32>(),
        key_laws::<u64>(),
        key_laws::<u128>(),
        key_laws::<usize>(),
        key_laws::<i8>(),
        key_laws::<i16>(),
        key_laws::<i32>(),
        key_laws::<i64>(),
        key_laws::<i128>(),
        key_laws::<isize>(),
{
}

} // verus!
