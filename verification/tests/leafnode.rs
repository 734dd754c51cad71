use scc::leafnode::split::divide;
use scc::{
    InsertError, Leaf, LeafArena, LeafNode, LeafNodeLocker, LeafPtr, LeafScanner, NewLeaves,
    RemoveError, SearchError,
};

/// A node with the keys below `n`, and values that are ten times as great.
fn filled(n: u64, arena: &mut LeafArena<u64, u64>) -> LeafNode<u64> {
    let mut node = LeafNode::new(true, arena);
    for key in 0..n {
        assert_eq!(node.insert(key, 10 * key, arena), Ok(()));
    }
    node
}

fn keys(scanner: Option<LeafScanner<u64, u64>>) -> Vec<u64> {
    let mut scanner = scanner.unwrap();
    let mut keys = Vec::new();
    while let Some((key, _)) = scanner.next() {
        keys.push(*key);
    }
    keys
}

/// The handles of the leaves from the given one on.
fn list(first: usize, arena: &LeafArena<u64, u64>) -> Vec<usize> {
    let mut handles = vec![first];
    let mut at = first;
    while let LeafPtr::At(next) = arena.cell(at).forward {
        assert_eq!(arena.cell(next).backward, LeafPtr::At(at));
        handles.push(next);
        at = next;
    }
    handles
}

#[test]
fn new_node_has_an_identifier_of_its_own() {
    let mut arena: LeafArena<u64, u64> = LeafArena::new();
    let first = LeafNode::new(true, &mut arena);
    let second = LeafNode::new(false, &mut arena);
    assert_eq!(first.id(), 0);
    assert_eq!(first.locate(&7), (None, LeafPtr::At(1)));
    assert_eq!(second.id(), 2);
    assert_eq!(second.locate(&7), (None, LeafPtr::Null));
}

#[test]
fn new_node_is_not_obsolete() {
    let mut arena: LeafArena<u64, u64> = LeafArena::new();
    let node = LeafNode::new(true, &mut arena);
    assert!(!node.obsolete(false));
    assert!(!node.obsolete(true));
    assert_eq!(node.search(&1, &arena), Ok(None));
}

#[test]
fn node_without_leaves_asks_for_a_retry() {
    let mut arena: LeafArena<u64, u64> = LeafArena::new();
    let mut node = LeafNode::new(false, &mut arena);
    assert_eq!(node.search(&1, &arena), Err(SearchError::Retry));
    assert_eq!(node.insert(1, 10, &mut arena), Err(InsertError::Retry((1, 10))));
    assert_eq!(node.remove(&1, &mut arena), Err(RemoveError::Retry(false)));
    assert!(node.min(&arena).is_none());
    assert!(node.from(&1, &arena).is_none());
}

#[test]
fn inserted_entries_are_found() {
    let mut arena = LeafArena::new();
    let node = filled(84, &mut arena);
    for key in 0..84 {
        assert_eq!(node.search(&key, &arena), Ok(Some(&(10 * key))));
    }
    assert_eq!(node.search(&84, &arena), Ok(None));
}

#[test]
fn descending_keys_are_found() {
    let mut arena = LeafArena::new();
    let mut node = LeafNode::new(true, &mut arena);
    for key in (0..60u64).rev() {
        assert_eq!(node.insert(key, key, &mut arena), Ok(()));
    }
    for key in 0..60 {
        assert_eq!(node.search(&key, &arena), Ok(Some(&key)));
    }
}

#[test]
fn string_keys_are_found() {
    let mut arena = LeafArena::new();
    let mut node = LeafNode::new(true, &mut arena);
    for i in 0..40 {
        let key = format!("key {}", (i * 7) % 40);
        assert_eq!(node.insert(key, i, &mut arena), Ok(()));
    }
    for i in 0..40 {
        let key = format!("key {}", (i * 7) % 40);
        assert_eq!(node.search(&key, &arena), Ok(Some(&i)));
    }
    assert_eq!(node.remove(&format!("key {}", 3), &mut arena), Ok(true));
    assert_eq!(node.search(&format!("key {}", 3), &arena), Ok(None));
}

#[test]
fn taken_key_is_refused() {
    let mut arena = LeafArena::new();
    let mut node = filled(12, &mut arena);
    assert_eq!(node.insert(3, 7, &mut arena), Err(InsertError::Duplicated((3, 7))));
    assert_eq!(node.search(&3, &arena), Ok(Some(&30)));
}

#[test]
fn full_leaf_is_split_in_two() {
    let mut arena = LeafArena::new();
    let mut node = filled(12, &mut arena);
    assert_eq!(node.locate(&3), (None, LeafPtr::At(1)));
    assert_eq!(node.insert(12, 120, &mut arena), Ok(()));
    assert_eq!(node.locate(&0), (Some(5), LeafPtr::At(2)));
    assert_eq!(node.locate(&5), (Some(5), LeafPtr::At(2)));
    assert_eq!(node.locate(&6), (None, LeafPtr::At(3)));
    assert_eq!(keys(node.min(&arena)), vec![0, 1, 2, 3, 4, 5]);
    assert_eq!(keys(node.from(&6, &arena)), vec![6, 7, 8, 9, 10, 11, 12]);
    assert_eq!(list(2, &arena), vec![2, 3]);
}

#[test]
fn split_puts_a_low_key_into_the_low_leaf() {
    let mut arena = LeafArena::new();
    let mut node = LeafNode::new(true, &mut arena);
    for i in 1..=12u64 {
        assert_eq!(node.insert(10 * i, i, &mut arena), Ok(()));
    }
    assert_eq!(node.insert(35, 0, &mut arena), Ok(()));
    assert_eq!(node.locate(&35), (Some(60), LeafPtr::At(2)));
    assert_eq!(keys(node.min(&arena)), vec![10, 20, 30, 35, 40, 50, 60]);
    // A key between the halves goes up.
    assert_eq!(node.insert(65, 0, &mut arena), Ok(()));
    assert_eq!(node.locate(&65), (None, LeafPtr::At(3)));
}

#[test]
fn leaf_with_few_live_entries_is_replaced_by_one() {
    let mut arena = LeafArena::new();
    let mut node = filled(12, &mut arena);
    for key in 0..6 {
        assert_eq!(node.remove(&key, &mut arena), Ok(true));
    }
    assert_eq!(node.insert(12, 120, &mut arena), Ok(()));
    assert_eq!(node.locate(&0), (None, LeafPtr::At(2)));
    assert_eq!(keys(node.min(&arena)), vec![6, 7, 8, 9, 10, 11, 12]);
    assert_eq!(list(2, &arena), vec![2]);
}

#[test]
fn obsolete_unbounded_leaf_is_replaced() {
    let mut arena = LeafArena::new();
    let mut node = filled(2, &mut arena);
    assert_eq!(node.remove(&0, &mut arena), Ok(true));
    assert_eq!(node.remove(&1, &mut arena), Ok(true));
    assert!(keys(node.min(&arena)).is_empty());
    assert_eq!(node.insert(1, 7, &mut arena), Ok(()));
    assert_eq!(node.locate(&1), (None, LeafPtr::At(2)));
    assert_eq!(node.search(&1, &arena), Ok(Some(&7)));
}

#[test]
fn removed_entries_are_not_found() {
    let mut arena = LeafArena::new();
    let mut node = filled(10, &mut arena);
    assert_eq!(node.remove(&4, &mut arena), Ok(true));
    assert_eq!(node.remove(&4, &mut arena), Ok(false));
    assert_eq!(node.remove(&99, &mut arena), Ok(false));
    for key in 0..10 {
        let expected = if key == 4 { None } else { Some(10 * key) };
        assert_eq!(node.search(&key, &arena), Ok(expected.as_ref()));
    }
}

#[test]
fn last_bounded_leaf_leads_to_coalesce() {
    let mut arena = LeafArena::new();
    let mut node = filled(13, &mut arena);
    for key in 0..5 {
        assert_eq!(node.remove(&key, &mut arena), Ok(true));
    }
    assert!(!node.obsolete(false));
    assert_eq!(node.remove(&5, &mut arena), Err(RemoveError::Coalesce(true)));
    assert!(node.obsolete(false));
    assert!(!node.obsolete(true));
    assert_eq!(node.locate(&3), (None, LeafPtr::At(3)));
    assert_eq!(list(3, &arena), vec![3]);
    assert_eq!(arena.cell(3).backward, LeafPtr::Null);
    for key in 6..12 {
        assert_eq!(node.remove(&key, &mut arena), Ok(true));
    }
    assert_eq!(node.remove(&12, &mut arena), Err(RemoveError::Coalesce(true)));
    assert_eq!(node.remove(&12, &mut arena), Err(RemoveError::Coalesce(false)));
}

#[test]
fn bounded_leaf_among_others_is_taken_out() {
    let mut arena = LeafArena::new();
    let mut node = filled(19, &mut arena);
    assert_eq!(list(2, &arena), vec![2, 4, 5]);
    for key in 6..12 {
        assert_eq!(node.remove(&key, &mut arena), Ok(true));
    }
    assert_eq!(list(2, &arena), vec![2, 5]);
    assert_eq!(node.locate(&8), (None, LeafPtr::At(5)));
    assert_eq!(node.locate(&2), (Some(5), LeafPtr::At(2)));
    assert_eq!(node.insert(8, 7, &mut arena), Ok(()));
    assert_eq!(node.search(&8, &arena), Ok(Some(&7)));
}

#[test]
fn min_starts_with_the_smallest_key() {
    let mut arena = LeafArena::new();
    let mut node = filled(13, &mut arena);
    assert_eq!(node.remove(&0, &mut arena), Ok(true));
    assert_eq!(node.min(&arena).unwrap().next(), Some((&1, &10)));
}

#[test]
fn from_starts_with_the_next_key() {
    let mut arena = LeafArena::new();
    let mut node = filled(13, &mut arena);
    assert_eq!(keys(node.from(&4, &arena)), vec![4, 5]);
    // The leaf of the key has nothing to offer: the next one has.
    assert_eq!(node.remove(&5, &mut arena), Ok(true));
    assert_eq!(node.from(&5, &arena).unwrap().next(), Some((&6, &60)));
    assert_eq!(keys(node.from(&12, &arena)), vec![12]);
    assert!(node.from(&13, &arena).is_none());
}

#[test]
fn node_without_room_is_full() {
    let mut arena = LeafArena::new();
    let mut node = filled(84, &mut arena);
    assert_eq!(node.insert(84, 840, &mut arena), Err(InsertError::Full((84, 840))));
    let new_leaves = node.new_leaves().as_ref().unwrap();
    assert_eq!(new_leaves.origin_leaf_key, None);
    assert_eq!(new_leaves.origin_leaf_ptr, LeafPtr::At(25));
    assert_eq!(new_leaves.low_key_leaf, LeafPtr::At(26));
    assert_eq!(new_leaves.high_key_leaf, LeafPtr::At(27));
    // The entries are still there, and the node is locked.
    for key in 0..84 {
        assert_eq!(node.search(&key, &arena), Ok(Some(&(10 * key))));
    }
    assert_eq!(node.search(&84, &arena), Ok(None));
    assert!(LeafNodeLocker::lock(&mut node).is_none());
    assert_eq!(node.insert(84, 840, &mut arena), Err(InsertError::Retry((84, 840))));
    assert_eq!(node.insert(83, 7, &mut arena), Err(InsertError::Duplicated((83, 7))));
    assert_eq!(node.remove(&80, &mut arena), Err(RemoveError::Retry(true)));
}

#[test]
fn full_node_is_split_in_two() {
    let mut arena = LeafArena::new();
    let mut node = filled(84, &mut arena);
    assert_eq!(node.insert(84, 840, &mut arena), Err(InsertError::Full((84, 840))));
    let mut low = LeafNode::new(false, &mut arena);
    let mut high = LeafNode::new(false, &mut arena);
    assert_eq!(node.split_leaf_node(&mut low, &mut high, &arena), Some(41));
    for key in 0..=84 {
        let (home, other) = if key <= 41 { (&low, &high) } else { (&high, &low) };
        assert_eq!(home.search(&key, &arena), Ok(Some(&(10 * key))));
        assert_eq!(other.search(&key, &arena), Ok(None));
    }
    assert_eq!(low.locate(&35), (Some(35), LeafPtr::At(12)));
    assert_eq!(low.locate(&36), (None, LeafPtr::At(14)));
    assert_eq!(high.locate(&77), (Some(77), LeafPtr::At(26)));
    assert_eq!(high.locate(&78), (None, LeafPtr::At(27)));
}

#[test]
fn bounded_leaf_without_room_is_split_with_the_node() {
    let mut arena = LeafArena::new();
    let mut node = LeafNode::new(true, &mut arena);
    for key in 0..84u64 {
        assert_eq!(node.insert(10 * key, key, &mut arena), Ok(()));
    }
    // The first leaf has six entries, and six more fit.
    for key in 1..7 {
        assert_eq!(node.insert(key, 0, &mut arena), Ok(()));
    }
    assert_eq!(node.insert(7, 0, &mut arena), Err(InsertError::Full((7, 0))));
    let mut low = LeafNode::new(false, &mut arena);
    let mut high = LeafNode::new(false, &mut arena);
    assert_eq!(node.split_leaf_node(&mut low, &mut high, &arena), Some(350));
    assert_eq!(keys(low.min(&arena)), vec![0, 1, 2, 3, 4, 5]);
    assert_eq!(low.locate(&6).0, Some(50));
    assert_eq!(low.search(&7, &arena), Ok(Some(&0)));
    assert_eq!(high.search(&830, &arena), Ok(Some(&83)));
}

#[test]
fn split_node_lets_go_of_its_leaves() {
    let mut arena = LeafArena::new();
    let mut node = filled(84, &mut arena);
    assert_eq!(node.insert(84, 840, &mut arena), Err(InsertError::Full((84, 840))));
    let mut low = LeafNode::new(false, &mut arena);
    let mut high = LeafNode::new(false, &mut arena);
    assert!(node.split_leaf_node(&mut low, &mut high, &arena).is_some());
    assert_eq!(list(2, &arena).last(), Some(&25));
    node.unlink(&mut arena);
    assert_eq!(node.search(&1, &arena), Err(SearchError::Retry));
    assert_eq!(node.insert(1, 10, &mut arena), Err(InsertError::Retry((1, 10))));
    assert_eq!(node.remove(&1, &mut arena), Err(RemoveError::Retry(false)));
    assert!(node.min(&arena).is_none());
    assert!(node.from(&1, &arena).is_none());
    // The leaf that was split left the list, the new ones took its place.
    assert_eq!(list(2, &arena), vec![2, 4, 6, 8, 10, 12, 14, 16, 18, 20, 22, 24, 26, 27]);
    arena.reclaim();
    assert_eq!(low.search(&1, &arena), Ok(Some(&10)));
    assert_eq!(high.search(&84, &arena), Ok(Some(&840)));
}

#[test]
fn rollback_undoes_the_insertion() {
    let mut arena = LeafArena::new();
    let mut node = filled(84, &mut arena);
    let before = list(2, &arena);
    assert_eq!(node.insert(84, 840, &mut arena), Err(InsertError::Full((84, 840))));
    assert_ne!(list(2, &arena), before);
    node.rollback(&mut arena);
    assert_eq!(list(2, &arena), before);
    for key in 0..84 {
        assert_eq!(node.search(&key, &arena), Ok(Some(&(10 * key))));
    }
    assert_eq!(node.remove(&80, &mut arena), Ok(true));
    let locker = LeafNodeLocker::lock(&mut node).unwrap();
    locker.unlock(&mut node);
}

#[test]
fn node_is_locked_once() {
    let mut arena: LeafArena<u64, u64> = LeafArena::new();
    let mut node = LeafNode::<u64>::new(true, &mut arena);
    let locker = LeafNodeLocker::lock(&mut node).unwrap();
    assert!(LeafNodeLocker::lock(&mut node).is_none());
    locker.unlock(&mut node);
    assert!(LeafNodeLocker::lock(&mut node).is_some());
}

#[test]
fn locked_node_does_not_change_its_leaves() {
    let mut arena = LeafArena::new();
    let mut node = filled(13, &mut arena);
    for key in 0..5 {
        assert_eq!(node.remove(&key, &mut arena), Ok(true));
    }
    let locker = LeafNodeLocker::lock(&mut node).unwrap();
    assert_eq!(node.remove(&5, &mut arena), Err(RemoveError::Retry(true)));
    assert_eq!(node.locate(&5), (Some(5), LeafPtr::At(2)));
    // An entry that needs no other leaf is taken.
    assert_eq!(node.insert(13, 130, &mut arena), Ok(()));
    locker.unlock(&mut node);
    assert_eq!(node.remove(&5, &mut arena), Err(RemoveError::Coalesce(false)));
}

#[test]
fn new_leaves_of_a_lock_are_none() {
    let lock: NewLeaves<u64> = NewLeaves::new();
    assert_eq!(lock.origin_leaf_key, None);
    assert_eq!(lock.origin_leaf_ptr, LeafPtr::Null);
    assert_eq!(lock.low_key_leaf, LeafPtr::Null);
    assert_eq!(lock.high_key_leaf, LeafPtr::Null);
}

/// Two neighbours: the left one has lost its bounded leaves, and its bound is 41.
fn neighbours(arena: &mut LeafArena<u64, u64>) -> (LeafNode<u64>, LeafNode<u64>) {
    let mut node = filled(84, arena);
    assert_eq!(node.insert(84, 840, arena), Err(InsertError::Full((84, 840))));
    let mut low = LeafNode::new(false, arena);
    let mut high = LeafNode::new(false, arena);
    assert_eq!(node.split_leaf_node(&mut low, &mut high, arena), Some(41));
    node.unlink(arena);
    for key in 0..35 {
        assert_eq!(low.remove(&key, arena), Ok(true));
    }
    assert_eq!(low.remove(&35, arena), Err(RemoveError::Coalesce(true)));
    (low, high)
}

#[test]
fn merge_moves_the_last_leaf() {
    let mut arena = LeafArena::new();
    let (mut low, mut high) = neighbours(&mut arena);
    assert_eq!(high.locate(&40), (Some(47), LeafPtr::At(16)));
    assert!(high.try_merge(&41, &mut low, &mut arena));
    assert!(low.obsolete(true));
    assert_eq!(low.search(&40, &arena), Err(SearchError::Retry));
    assert_eq!(high.locate(&40), (Some(41), LeafPtr::At(14)));
    for key in 36..=84 {
        assert_eq!(high.search(&key, &arena), Ok(Some(&(10 * key))));
    }
}

#[test]
fn merge_discards_an_obsolete_leaf() {
    let mut arena = LeafArena::new();
    let (mut low, mut high) = neighbours(&mut arena);
    for key in 36..41 {
        assert_eq!(low.remove(&key, &mut arena), Ok(true));
    }
    assert_eq!(low.remove(&41, &mut arena), Err(RemoveError::Coalesce(true)));
    assert_eq!(list(14, &arena)[1], 16);
    assert!(high.try_merge(&41, &mut low, &mut arena));
    assert!(low.obsolete(true));
    assert_eq!(high.locate(&40), (Some(47), LeafPtr::At(16)));
    assert_eq!(arena.cell(16).backward, LeafPtr::Null);
    assert_eq!(high.search(&42, &arena), Ok(Some(&420)));
}

#[test]
fn merge_needs_both_locks() {
    let mut arena = LeafArena::new();
    let (mut low, mut high) = neighbours(&mut arena);
    let locker = LeafNodeLocker::lock(&mut high).unwrap();
    assert!(!high.try_merge(&41, &mut low, &mut arena));
    locker.unlock(&mut high);
    let locker = LeafNodeLocker::lock(&mut low).unwrap();
    assert!(!high.try_merge(&41, &mut low, &mut arena));
    locker.unlock(&mut low);
    assert!(!low.obsolete(true));
    assert!(high.try_merge(&41, &mut low, &mut arena));
    // Both are unlocked again.
    assert!(LeafNodeLocker::lock(&mut high).is_some());
    assert!(LeafNodeLocker::lock(&mut low).is_some());
}

#[test]
fn locked_nodes_are_not_merged_whatever_they_hold() {
    let mut arena = LeafArena::new();
    let mut left: LeafNode<u64> = LeafNode::new(false, &mut arena);
    let mut right = filled(3, &mut arena);
    assert_eq!(left.unbounded_leaf(), LeafPtr::Null);
    let locker = LeafNodeLocker::lock(&mut right).unwrap();
    assert!(!right.try_merge(&50, &mut left, &mut arena));
    assert!(LeafNodeLocker::lock(&mut right).is_none());
    assert!(left.new_leaves().is_none());
    locker.unlock(&mut right);
    let locker = LeafNodeLocker::lock(&mut left).unwrap();
    assert!(!right.try_merge(&50, &mut left, &mut arena));
    assert!(right.new_leaves().is_none());
    assert!(left.new_leaves().is_some());
    locker.unlock(&mut left);
    assert_eq!(right.search(&2, &arena), Ok(Some(&20)));
}

#[test]
fn first_refusal_of_different_keys_is_for_want_of_room() {
    for step in [1u64, 29, 57] {
        let mut arena = LeafArena::new();
        let mut node = LeafNode::new(true, &mut arena);
        let mut given = Vec::new();
        let refused = loop {
            let key = (given.len() as u64 * step) % 200;
            match node.insert(key, 10 * key, &mut arena) {
                Ok(()) => given.push(key),
                Err(error) => break (key, error),
            }
        };
        assert_eq!(refused.1, InsertError::Full((refused.0, 10 * refused.0)));
        assert!(given.len() <= 156);
        for key in given {
            assert_eq!(node.search(&key, &arena), Ok(Some(&(10 * key))));
        }
    }
}

#[test]
fn insertion_is_undone_by_a_removal() {
    let mut arena = LeafArena::new();
    let mut node = LeafNode::new(true, &mut arena);
    for key in 0..12u64 {
        assert_eq!(node.insert(10 * key, key, &mut arena), Ok(()));
    }
    // The insertion splits the leaf.
    assert_eq!(node.insert(35, 7, &mut arena), Ok(()));
    assert_eq!(node.remove(&35, &mut arena), Ok(true));
    for key in 0..120 {
        let expected = if key % 10 == 0 { Some(key / 10) } else { None };
        assert_eq!(node.search(&key, &arena), Ok(expected.as_ref()));
    }
    // The removal takes out the last bounded leaf.
    for key in 0..5 {
        assert_eq!(node.remove(&(10 * key), &mut arena), Ok(true));
    }
    let locker = LeafNodeLocker::lock(&mut node).unwrap();
    assert_eq!(node.remove(&50, &mut arena), Err(RemoveError::Retry(true)));
    locker.unlock(&mut node);
    assert_eq!(node.search(&5, &arena), Ok(None));
    assert_eq!(node.insert(5, 7, &mut arena), Ok(()));
    assert_eq!(node.remove(&5, &mut arena), Err(RemoveError::Coalesce(true)));
    assert_eq!(node.search(&5, &arena), Ok(None));
    assert_eq!(node.search(&60, &arena), Ok(Some(&6)));
}

#[test]
fn node_tells_whether_it_has_its_leaves() {
    let mut arena = LeafArena::new();
    let mut node = filled(13, &mut arena);
    assert!(node.linked());
    assert_eq!(node.unbounded_leaf(), LeafPtr::At(3));
    node.unlink(&mut arena);
    assert!(!node.linked());
    assert_eq!(node.unbounded_leaf(), LeafPtr::Null);
}

#[test]
fn lock_is_given_once_over_a_run_of_steps() {
    let mut arena = LeafArena::new();
    let mut node = filled(84, &mut arena);
    let locker = LeafNodeLocker::lock(&mut node).unwrap();
    assert!(LeafNodeLocker::lock(&mut node).is_none());
    assert_eq!(node.insert(84, 840, &mut arena), Err(InsertError::Retry((84, 840))));
    locker.unlock(&mut node);
    assert_eq!(node.insert(84, 840, &mut arena), Err(InsertError::Full((84, 840))));
    assert!(LeafNodeLocker::lock(&mut node).is_none());
    node.rollback(&mut arena);
    let locker = LeafNodeLocker::lock(&mut node).unwrap();
    assert!(LeafNodeLocker::lock(&mut node).is_none());
    locker.unlock(&mut node);
}

#[test]
fn merge_needs_room() {
    let mut arena = LeafArena::new();
    let mut left = LeafNode::new(true, &mut arena);
    assert_eq!(left.insert(1, 10, &mut arena), Ok(()));
    let mut right = LeafNode::new(true, &mut arena);
    for key in 100..184 {
        assert_eq!(right.insert(key, key, &mut arena), Ok(()));
    }
    assert!(!right.try_merge(&50, &mut left, &mut arena));
    assert_eq!(left.search(&1, &arena), Ok(Some(&10)));
    assert_eq!(right.search(&1, &arena), Ok(None));
    assert!(LeafNodeLocker::lock(&mut right).is_some());
}

#[test]
fn nodes_do_not_disturb_each_other() {
    let mut arena = LeafArena::new();
    let mut left = filled(30, &mut arena);
    let mut right = filled(30, &mut arena);
    for key in 0..30 {
        let expected = if key == 17 || key == 29 { Err(RemoveError::Coalesce(true)) } else { Ok(true) };
        assert_eq!(left.remove(&key, &mut arena), expected);
    }
    for key in 30..60 {
        assert_eq!(right.insert(key, 10 * key, &mut arena), Ok(()));
    }
    for key in 0..60 {
        assert_eq!(right.search(&key, &arena), Ok(Some(&(10 * key))));
        assert_eq!(left.search(&key, &arena), Ok(None));
    }
}

#[test]
fn ended_node_discards_its_leaves() {
    let mut arena = LeafArena::new();
    let (low, high) = neighbours(&mut arena);
    assert_eq!(arena.cell(16).backward, LeafPtr::At(14));
    low.drop_leaves(&mut arena);
    assert_eq!(arena.cell(16).backward, LeafPtr::Null);
    arena.reclaim();
    assert_eq!(high.search(&42, &arena), Ok(Some(&420)));
    assert_eq!(list(16, &arena), vec![16, 18, 20, 22, 24, 26, 27]);
}

#[test]
fn divide_makes_one_leaf_or_two() {
    let mut leaf = Leaf::new();
    for key in 1..=12u64 {
        leaf.insert(10 * key, key);
    }
    let (low, high) = divide(&leaf, &125, &0);
    assert_eq!(low.max(), Some((&60, &6)));
    assert_eq!(high.unwrap().max(), Some((&125, &0)));
    let (low, high) = divide(&leaf, &55, &0);
    assert_eq!(low.used(), 7);
    assert_eq!(low.search(&55), Some(&0));
    assert_eq!(high.unwrap().used(), 6);
    for key in 1..=7 {
        leaf.remove(&(10 * key));
    }
    let (low, high) = divide(&leaf, &125, &0);
    assert_eq!(low.used(), 6);
    assert_eq!(low.max(), Some((&125, &0)));
    assert!(high.is_none());
    for key in 8..=12 {
        leaf.remove(&(10 * key));
    }
    let (low, high) = divide(&leaf, &1, &7);
    assert_eq!(low.used(), 1);
    assert_eq!(low.search(&1), Some(&7));
    assert!(high.is_none());
}

#[test]
fn list_leads_through_the_keys_in_order() {
    let mut arena = LeafArena::new();
    let mut node = LeafNode::new(true, &mut arena);
    for i in 0..48u64 {
        let key = (i * 29) % 48;
        assert_eq!(node.insert(key, key, &mut arena), Ok(()));
    }
    for key in 10..20 {
        assert!(node.remove(&key, &mut arena).is_ok());
    }
    let mut found = Vec::new();
    let first = match node.locate(&0) {
        (_, LeafPtr::At(leaf)) => leaf,
        (_, LeafPtr::Null) => unreachable!(),
    };
    for leaf in list(first, &arena) {
        found.extend(keys(Some(LeafScanner::new(&arena.cell(leaf).leaf))));
    }
    let expected: Vec<u64> = (0..10).chain(20..48).collect();
    assert_eq!(found, expected);
}
