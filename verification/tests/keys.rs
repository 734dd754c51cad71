use scc::{InsertError, LeafArena, LeafNode, RemoveError};
use std::cmp::Ordering;

/// A key that is ordered by its number alone, and that counts how often it was cloned.
#[derive(Debug)]
struct Tagged {
    number: u64,
    copies: u64,
}

impl Clone for Tagged {
    fn clone(&self) -> Self {
        Tagged { number: self.number, copies: self.copies + 1 }
    }
}

impl PartialEq for Tagged {
    fn eq(&self, other: &Self) -> bool {
        self.number == other.number
    }
}

impl Eq for Tagged {}

impl PartialOrd for Tagged {
    fn partial_cmp(&self, other: &Self) -> Option<Ordering> {
        Some(self.cmp(other))
    }
}

impl Ord for Tagged {
    fn cmp(&self, other: &Self) -> Ordering {
        self.number.cmp(&other.number)
    }
}

fn tagged(number: u64) -> Tagged {
    Tagged { number, copies: 0 }
}

fn filled(n: u64, arena: &mut LeafArena<Tagged, u64>) -> LeafNode<Tagged> {
    let mut node = LeafNode::new(true, arena);
    for number in 0..n {
        assert_eq!(node.insert(tagged(number), 10 * number, arena), Ok(()));
    }
    node
}

#[test]
fn keys_that_compare_equal_are_one_key() {
    let mut arena = LeafArena::new();
    let mut node = filled(30, &mut arena);
    let other = Tagged { number: 7, copies: 1000 };
    assert_eq!(node.search(&other, &arena), Ok(Some(&70)));
    match node.insert(other, 1, &mut arena) {
        Err(InsertError::Duplicated((key, 1))) => assert_eq!((key.number, key.copies), (7, 1000)),
        _ => panic!(),
    }
    assert_eq!(node.search(&tagged(7), &arena), Ok(Some(&70)));
    assert_eq!(node.remove(&Tagged { number: 7, copies: 2000 }, &mut arena), Ok(true));
    assert_eq!(node.search(&tagged(7), &arena), Ok(None));
}

#[test]
fn split_leaves_stand_under_clones_of_keys() {
    let mut arena = LeafArena::new();
    let node = filled(30, &mut arena);
    for number in 0..30 {
        assert_eq!(node.search(&tagged(number), &arena), Ok(Some(&(10 * number))));
    }
    // The entry was cloned into the new leaf, its key once more to be the bound of the leaf, and
    // the bound on the way out.
    let (bound, _) = node.locate(&tagged(3));
    let bound = bound.unwrap();
    assert_eq!((bound.number, bound.copies), (5, 3));
    let mut scanner = node.min(&arena).unwrap();
    let (key, _) = scanner.next().unwrap();
    assert_eq!((key.number, key.copies), (0, 1));
}

#[test]
fn cloned_keys_survive_a_node_split_and_a_merge() {
    let mut arena = LeafArena::new();
    let mut node = filled(84, &mut arena);
    assert!(matches!(
        node.insert(tagged(84), 840, &mut arena),
        Err(InsertError::Full((Tagged { number: 84, copies: 0 }, 840)))
    ));
    let mut low = LeafNode::new(false, &mut arena);
    let mut high = LeafNode::new(false, &mut arena);
    let middle = node.split_leaf_node(&mut low, &mut high, &arena).unwrap();
    assert_eq!(middle.number, 41);
    for number in 0..=84 {
        let home = if number <= 41 { &low } else { &high };
        assert_eq!(home.search(&tagged(number), &arena), Ok(Some(&(10 * number))));
    }
    node.unlink(&mut arena);
    for number in 0..36 {
        let removed = low.remove(&tagged(number), &mut arena);
        assert!(matches!(removed, Ok(true) | Err(RemoveError::Coalesce(true))));
    }
    assert!(high.try_merge(&middle, &mut low, &mut arena));
    for number in 36..=84 {
        assert_eq!(high.search(&tagged(number), &arena), Ok(Some(&(10 * number))));
    }
}
