//! Steps of one operation between which another one changes the node.
use scc::leaf::Metadata;
use scc::leafnode::probe::{Attempt, Probe};
use scc::{InsertError, LeafArena, LeafNode, LeafPtr, RemoveError};

fn filled(n: u64, arena: &mut LeafArena<u64, u64>) -> LeafNode<u64> {
    let mut node = LeafNode::new(true, arena);
    for key in 0..n {
        assert_eq!(node.insert(key, 10 * key, arena), Ok(()));
    }
    node
}

#[test]
fn undisturbed_attempt_gets_the_leaf() {
    let mut arena = LeafArena::new();
    let node = filled(13, &mut arena);
    let probe = node.probe(&3);
    assert_eq!(probe.bound, Some(5));
    assert_eq!(probe.unbounded, LeafPtr::At(3));
    assert_eq!(probe.metadata, Metadata { used: 1, removed: 0 });
    assert_eq!(node.load(&probe), LeafPtr::At(2));
    assert_eq!(node.resolve(&probe), Attempt::Leaf(2));
    assert_eq!(node.resolve(&node.probe(&6)), Attempt::Leaf(3));
}

#[test]
fn reader_notices_a_split_of_the_unbounded_leaf() {
    let mut arena = LeafArena::new();
    let mut node = filled(12, &mut arena);
    let probe = node.probe(&3);
    assert_eq!(node.insert(12, 120, &mut arena), Ok(()));
    assert_eq!(node.resolve(&probe), Attempt::Again);
    assert_eq!(node.resolve(&node.probe(&3)), Attempt::Leaf(2));
}

#[test]
fn reader_notices_a_split_of_a_bounded_leaf() {
    let mut arena = LeafArena::new();
    let mut node = LeafNode::new(true, &mut arena);
    for key in 0..13u64 {
        assert_eq!(node.insert(10 * key, key, &mut arena), Ok(()));
    }
    for key in 1..7 {
        assert_eq!(node.insert(key, 0, &mut arena), Ok(()));
    }
    let probe = node.probe(&3);
    assert_eq!(probe.bound, Some(50));
    assert_eq!(node.insert(7, 0, &mut arena), Ok(()));
    // The bound now leads to the high-key leaf, where the key is not.
    assert_eq!(node.load(&probe), LeafPtr::At(5));
    assert_eq!(arena.cell(5).leaf.search(&3), None);
    assert_eq!(node.resolve(&probe), Attempt::Again);
    assert_eq!(node.search(&3, &arena), Ok(Some(&0)));
}

#[test]
fn reader_notices_a_leaf_that_is_taken_out() {
    let mut arena = LeafArena::new();
    let mut node = filled(19, &mut arena);
    let probe = node.probe(&8);
    for key in 6..12 {
        assert_eq!(node.remove(&key, &mut arena), Ok(true));
    }
    assert_eq!(node.resolve(&probe), Attempt::Again);
}

#[test]
fn reader_notices_a_new_unbounded_leaf() {
    let mut arena = LeafArena::new();
    let mut node = filled(12, &mut arena);
    for key in 0..6 {
        assert_eq!(node.remove(&key, &mut arena), Ok(true));
    }
    let probe = node.probe(&8);
    assert_eq!(node.insert(12, 120, &mut arena), Ok(()));
    assert_eq!(node.resolve(&probe), Attempt::Again);
}

#[test]
fn reader_notices_an_unlinked_node() {
    let mut arena = LeafArena::new();
    let mut node = filled(13, &mut arena);
    let bounded = node.probe(&3);
    let unbounded = node.probe(&8);
    node.unlink(&mut arena);
    assert_eq!(node.resolve(&bounded), Attempt::Unlinked);
    assert_eq!(node.resolve(&unbounded), Attempt::Again);
    assert_eq!(node.resolve(&node.probe(&8)), Attempt::Unlinked);
}

#[test]
fn attempt_is_settled_by_handle_and_version() {
    let noted = Metadata { used: 1, removed: 0 };
    let newer = Metadata { used: 2, removed: 0 };
    let bounded = Probe { unbounded: LeafPtr::At(1), bound: Some(5u64), metadata: noted };
    assert_eq!(bounded.settle(LeafPtr::At(2), noted), Attempt::Leaf(2));
    assert_eq!(bounded.settle(LeafPtr::At(2), newer), Attempt::Again);
    assert_eq!(bounded.settle(LeafPtr::Null, noted), Attempt::Unlinked);
    let unbounded = Probe { unbounded: LeafPtr::At(1), bound: None::<u64>, metadata: noted };
    assert_eq!(unbounded.settle(LeafPtr::At(1), noted), Attempt::Leaf(1));
    assert_eq!(unbounded.settle(LeafPtr::At(2), noted), Attempt::Again);
    assert_eq!(unbounded.settle(LeafPtr::At(1), newer), Attempt::Again);
}

#[test]
fn leaf_is_not_split_twice() {
    let mut arena = LeafArena::new();
    let mut node = filled(13, &mut arena);
    // The leaf that was full has been replaced.
    assert_eq!(
        node.split_leaf((20, 200), None, 1, &mut arena),
        Err(InsertError::Retry((20, 200)))
    );
    assert_eq!(node.search(&20, &arena), Ok(None));
    assert_eq!(node.insert(20, 200, &mut arena), Ok(()));
}

#[test]
fn removal_from_a_leaf_that_was_split_is_repeated() {
    let mut arena = LeafArena::new();
    let node = filled(13, &mut arena);
    assert_eq!(node.check_full_leaf(true, &3, 1), Err(RemoveError::Retry(true)));
    assert_eq!(node.check_full_leaf(true, &3, 2), Ok(true));
    assert_eq!(node.check_full_leaf(false, &3, 2), Ok(false));
}

#[test]
fn leaf_that_was_replaced_is_not_taken_out() {
    let mut arena = LeafArena::new();
    let mut node = filled(13, &mut arena);
    assert_eq!(
        node.remove_obsolete_leaf(true, &3, Some(5), 1, &mut arena),
        Err(RemoveError::Retry(true))
    );
    assert_eq!(node.locate(&3), (Some(5), LeafPtr::At(2)));
    assert_eq!(node.search(&3, &arena), Ok(Some(&30)));
}

#[test]
fn entry_that_comes_late_is_not_lost() {
    let mut arena = LeafArena::new();
    let mut node = filled(12, &mut arena);
    // Another insertion splits the leaf before the entry is put into it.
    let (bound, leaf) = node.locate(&20);
    assert_eq!((bound, leaf), (None, LeafPtr::At(1)));
    assert_eq!(node.insert(12, 120, &mut arena), Ok(()));
    assert_eq!(arena.leaf_insert(1, 20, 200), Some(((20, 200), false)));
    assert_eq!(
        node.split_leaf((20, 200), bound, 1, &mut arena),
        Err(InsertError::Retry((20, 200)))
    );
    assert_eq!(node.insert(20, 200, &mut arena), Ok(()));
    assert_eq!(node.search(&20, &arena), Ok(Some(&200)));
}

#[test]
fn leaf_that_was_split_still_has_its_keys() {
    let mut arena = LeafArena::new();
    let mut node = filled(12, &mut arena);
    // A reader gets at the leaf, and looks into it only after others have split it.
    let leaf = match node.resolve(&node.probe(&3)) {
        Attempt::Leaf(leaf) => leaf,
        other => panic!("{:?}", other),
    };
    for key in 12..40 {
        assert_eq!(node.insert(key, 10 * key, &mut arena), Ok(()));
    }
    assert_eq!(node.remove(&7, &mut arena), Ok(true));
    assert_ne!(node.locate(&3).1, LeafPtr::At(leaf));
    assert_eq!(arena.cell(leaf).leaf.search(&3), Some(&30));
}
