use scc::order::{compare, KeyOrder};
use scc::{Leaf, LeafArena, LeafPtr};

fn leaf_of(key: u64) -> Leaf<u64, u64> {
    let mut leaf = Leaf::new();
    leaf.insert(key, key);
    leaf
}

/// The keys of the leaves from the given one on, and the handles on the way back.
fn walk(arena: &LeafArena<u64, u64>, first: usize) -> (Vec<u64>, Vec<usize>) {
    let mut keys = Vec::new();
    let mut at = first;
    loop {
        keys.push(arena.cell(at).leaf.entry(0).key);
        match arena.cell(at).forward {
            LeafPtr::At(next) => at = next,
            LeafPtr::Null => break,
        }
    }
    let mut back = vec![at];
    while let LeafPtr::At(previous) = arena.cell(at).backward {
        back.push(previous);
        at = previous;
    }
    (keys, back)
}

#[test]
fn identifiers_are_given_out_once() {
    let mut arena: LeafArena<u64, u64> = LeafArena::new();
    assert_eq!(arena.reserve(), 0);
    assert_eq!(arena.adopt(leaf_of(1)), 1);
    assert_eq!(arena.reserve(), 2);
    assert_eq!(arena.adopt(leaf_of(2)), 3);
}

#[test]
fn null_handle_is_null() {
    assert!(LeafPtr::Null.is_null());
    assert!(!LeafPtr::At(0).is_null());
}

#[test]
fn push_front_puts_a_leaf_right_before_another() {
    let mut arena = LeafArena::new();
    let c = arena.adopt(leaf_of(3));
    let a = arena.adopt(leaf_of(1));
    let b = arena.adopt(leaf_of(2));
    arena.push_front(c, a);
    arena.push_front(c, b);
    assert_eq!(walk(&arena, a), (vec![1, 2, 3], vec![c, b, a]));
}

#[test]
fn discard_takes_a_leaf_out_of_the_list() {
    let mut arena = LeafArena::new();
    let c = arena.adopt(leaf_of(3));
    let a = arena.adopt(leaf_of(1));
    let b = arena.adopt(leaf_of(2));
    arena.push_front(c, a);
    arena.push_front(c, b);
    arena.discard(b);
    assert_eq!(walk(&arena, a), (vec![1, 3], vec![c, a]));
    // A discarded leaf stays readable until it is reclaimed.
    assert_eq!(arena.cell(b).leaf.search(&2), Some(&2));
    arena.discard(a);
    assert_eq!(walk(&arena, c), (vec![3], vec![c]));
}

#[test]
fn reclaim_keeps_the_other_leaves() {
    let mut arena = LeafArena::new();
    let b = arena.adopt(leaf_of(2));
    let a = arena.adopt(leaf_of(1));
    arena.push_front(b, a);
    arena.discard(b);
    arena.reclaim();
    assert_eq!(walk(&arena, a), (vec![1], vec![a]));
    assert_eq!(arena.adopt(leaf_of(3)), 2);
}

#[test]
fn entries_are_added_and_removed_by_handle() {
    let mut arena = LeafArena::new();
    let a = arena.adopt(leaf_of(1));
    let b = arena.adopt(leaf_of(2));
    assert_eq!(arena.leaf_insert(a, 5, 50), None);
    assert_eq!(arena.leaf_insert(a, 5, 51), Some(((5, 51), true)));
    assert_eq!(arena.cell(a).leaf.search(&5), Some(&50));
    assert_eq!(arena.cell(b).leaf.search(&5), None);
    assert_eq!(arena.leaf_remove(a, &5), (true, false, false));
    assert_eq!(arena.leaf_remove(b, &2), (true, true, true));
    assert_eq!(arena.cell(a).leaf.search(&1), Some(&1));
}

#[test]
fn keys_compare_as_their_type_says() {
    assert_eq!(compare(&1u64, &2), KeyOrder::Less);
    assert_eq!(compare(&2u64, &2), KeyOrder::Equal);
    assert_eq!(compare(&-1i64, &-2), KeyOrder::Greater);
}
