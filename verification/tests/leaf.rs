use scc::leaf::{Metadata, ARRAY_SIZE};
use scc::{Leaf, LeafScanner};

/// A leaf with the keys 10, 20, .. and values that are ten times as great.
fn filled(n: u64) -> Leaf<u64, u64> {
    let mut leaf = Leaf::new();
    for i in 1..=n {
        assert_eq!(leaf.insert(10 * i, 100 * i), None);
    }
    leaf
}

fn keys(leaf: &Leaf<u64, u64>) -> Vec<u64> {
    let mut scanner = LeafScanner::new(leaf);
    let mut keys = Vec::new();
    while let Some((key, _)) = scanner.next() {
        keys.push(*key);
    }
    keys
}

#[test]
fn new_leaf_is_empty() {
    let leaf: Leaf<u64, u64> = Leaf::new();
    assert_eq!(leaf.used(), 0);
    assert!(!leaf.full());
    assert!(!leaf.obsolete());
    assert_eq!(leaf.search(&1), None);
    assert_eq!(leaf.max(), None);
}

#[test]
fn insert_keeps_key_order() {
    let mut leaf = Leaf::new();
    for key in [3u64, 1, 4, 2] {
        assert_eq!(leaf.insert(key, key * key), None);
    }
    assert_eq!(keys(&leaf), vec![1, 2, 3, 4]);
    assert_eq!(leaf.search(&3), Some(&9));
    assert_eq!(leaf.search(&5), None);
    assert_eq!(leaf.max(), Some((&4, &16)));
}

#[test]
fn insert_refuses_a_taken_key() {
    let mut leaf = filled(2);
    assert_eq!(leaf.insert(10, 7), Some(((10, 7), true)));
    assert_eq!(leaf.search(&10), Some(&100));
}

#[test]
fn insert_refuses_when_full() {
    let mut leaf = filled(12);
    assert_eq!(ARRAY_SIZE, 12);
    assert!(leaf.full());
    assert_eq!(leaf.insert(5, 7), Some(((5, 7), false)));
    assert_eq!(leaf.insert(20, 7), Some(((20, 7), true)));
    assert_eq!(leaf.used(), 12);
}

#[test]
fn removed_slots_stay_occupied() {
    let mut leaf = filled(12);
    assert_eq!(leaf.remove(&30), (true, true, false));
    assert_eq!(leaf.remove(&30), (false, true, false));
    assert_eq!(leaf.search(&30), None);
    assert_eq!(leaf.used(), 12);
    assert!(leaf.entry(2).removed);
    assert_eq!(leaf.insert(30, 7), Some(((30, 7), false)));
}

#[test]
fn removed_key_can_come_back() {
    let mut leaf = filled(2);
    assert_eq!(leaf.remove(&10), (true, false, false));
    assert_eq!(leaf.insert(10, 7), None);
    assert_eq!(leaf.search(&10), Some(&7));
    assert_eq!(leaf.used(), 3);
    assert_eq!(keys(&leaf), vec![10, 20]);
}

#[test]
fn emptied_leaf_is_obsolete_for_good() {
    let mut leaf = filled(2);
    assert_eq!(leaf.remove(&10), (true, false, false));
    assert_eq!(leaf.remove(&20), (true, true, true));
    assert!(leaf.obsolete());
    assert_eq!(leaf.insert(30, 7), Some(((30, 7), false)));
    assert_eq!(leaf.max(), None);
}

#[test]
fn metadata_changes_with_each_entry() {
    let mut leaf = filled(2);
    let first = leaf.metadata();
    assert_eq!(first, Metadata { used: 2, removed: 0 });
    assert!(leaf.validate(first));
    leaf.insert(30, 300);
    assert!(!leaf.validate(first));
    let second = leaf.metadata();
    assert_eq!(second, Metadata { used: 3, removed: 0 });
    leaf.insert(30, 7);
    leaf.remove(&40);
    leaf.store(0, 7);
    assert!(leaf.validate(second));
    leaf.remove(&30);
    assert_eq!(leaf.metadata(), Metadata { used: 3, removed: 1 });
}

#[test]
fn min_greater_equal_skips_removed_entries() {
    let mut leaf = filled(4);
    leaf.remove(&20);
    let metadata = Metadata { used: 4, removed: 1 };
    assert_eq!(leaf.min_greater_equal(&5), (Some((&10, &100)), metadata));
    assert_eq!(leaf.min_greater_equal(&10), (Some((&10, &100)), metadata));
    assert_eq!(leaf.min_greater_equal(&11), (Some((&30, &300)), metadata));
    assert_eq!(leaf.min_greater_equal(&20), (Some((&30, &300)), metadata));
    assert_eq!(leaf.min_greater_equal(&41), (None, metadata));
    assert_eq!(leaf.lower_bound(&11), 2);
    assert_eq!(leaf.lower_bound(&41), 4);
}

#[test]
fn position_is_that_of_the_live_entry() {
    let mut leaf = filled(3);
    assert_eq!(leaf.position(&20), 1);
    assert_eq!(leaf.position(&25), 3);
    leaf.remove(&20);
    assert_eq!(leaf.position(&20), 3);
    leaf.insert(20, 7);
    assert_eq!(leaf.position(&20), 2);
}

#[test]
fn store_overwrites_the_value() {
    let mut leaf = filled(3);
    leaf.store(1, 7);
    assert_eq!(leaf.search(&20), Some(&7));
    assert_eq!(keys(&leaf), vec![10, 20, 30]);
}

#[test]
fn max_skips_removed_entries() {
    let mut leaf = filled(3);
    leaf.remove(&30);
    assert_eq!(leaf.max(), Some((&20, &200)));
}

#[test]
fn distribute_halves_the_live_entries() {
    let mut leaf = filled(12);
    leaf.remove(&10);
    let (low, high) = leaf.distribute();
    assert_eq!(keys(&low.unwrap()), vec![20, 30, 40, 50, 60, 70]);
    assert_eq!(keys(&high.unwrap()), vec![80, 90, 100, 110, 120]);
}

#[test]
fn distribute_makes_no_empty_leaf() {
    let mut leaf = filled(6);
    let (low, high) = leaf.distribute();
    assert_eq!(low.unwrap().used(), 6);
    assert!(high.is_none());
    for key in [10, 20, 30, 40, 50, 60] {
        leaf.remove(&key);
    }
    let (low, high) = leaf.distribute();
    assert!(low.is_none());
    assert!(high.is_none());
}

#[test]
fn scanner_hands_out_live_entries() {
    let mut leaf = filled(3);
    leaf.remove(&20);
    let mut scanner = LeafScanner::new(&leaf);
    assert_eq!(scanner.metadata(), leaf.metadata());
    assert_eq!(scanner.next(), Some((&10, &100)));
    assert_eq!(scanner.next(), Some((&30, &300)));
    assert_eq!(scanner.next(), None);
    assert_eq!(scanner.next(), None);
}

#[test]
fn scanner_can_include_removed_entries() {
    let mut leaf = filled(3);
    leaf.remove(&20);
    let mut scanner = LeafScanner::new_including_removed(&leaf);
    assert_eq!(scanner.next(), Some((&10, &100)));
    assert!(!scanner.removed());
    assert_eq!(scanner.next(), Some((&20, &200)));
    assert!(scanner.removed());
    assert_eq!(scanner.next(), Some((&30, &300)));
    assert!(!scanner.removed());
    assert_eq!(scanner.next(), None);
}

#[test]
fn scanner_can_start_at_a_key() {
    let mut leaf = filled(4);
    leaf.remove(&20);
    let mut scanner = LeafScanner::from(&leaf, &15).unwrap();
    assert_eq!(scanner.next(), Some((&30, &300)));
    assert_eq!(scanner.next(), Some((&40, &400)));
    assert_eq!(scanner.next(), None);
    assert!(LeafScanner::from(&leaf, &41).is_none());
    assert!(LeafScanner::from(&leaf, &40).is_some());
}
