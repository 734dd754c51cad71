//! The lock of a leaf node over runs of steps.
use crate::arena::ArenaModel;
use crate::error::InsertError;
use crate::leafnode::locker::{is_locked, lock_outcome, pending, unlocked};
use crate::leafnode::model::NodeModel;
use crate::leafnode::split::splits;
use vstd::prelude::*;

verus! {

/// A leaf node, and the number of its lockers that are out.
pub struct LockState<K> {
    pub node: NodeModel<K>,
    pub out: nat,
}

/// Somebody tries to lock the node: a locker that is given is out.
pub open spec fn lock_step<K>(s: LockState<K>, t: LockState<K>) -> bool {
    let (given, node) = lock_outcome(s.node);
    t == (LockState {
        node,
        out: if given {
            s.out + 1
        } else {
            s.out
        },
    })
}

/// Somebody who has a locker unlocks the node and gives the locker back.
pub open spec fn unlock_step<K>(s: LockState<K>, t: LockState<K>) -> bool {
    s.out > 0 && t == (LockState { node: unlocked(s.node), out: (s.out - 1) as nat })
}

/// Somebody tries to split a leaf, whatever comes of it.
pub open spec fn split_step<K: Ord + Clone, V: Clone>(
    s: LockState<K>,
    t: LockState<K>,
    a: ArenaModel<K, V>,
    k: K,
    v: V,
    bound: Option<K>,
    full: usize,
    r: Result<(), InsertError<K, V>>,
    a2: ArenaModel<K, V>,
) -> bool {
    splits(s.node, a, k, v, bound, full, r, t.node, a2) && t.out == s.out
}

/// Somebody gives up a split that is pending.
pub open spec fn rollback_step<K>(s: LockState<K>, t: LockState<K>) -> bool {
    pending(s.node) && t == (LockState { node: unlocked(s.node), out: s.out })
}

/// Somebody does something that has nothing to do with the lock.
pub open spec fn other_step<K>(s: LockState<K>, t: LockState<K>) -> bool {
    t.node.new_leaves == s.node.new_leaves && t.out == s.out
}

/// A step of any thread.
pub open spec fn any_step<K: Ord + Clone, V: Clone>(s: LockState<K>, t: LockState<K>) -> bool {
    ||| lock_step(s, t)
    ||| unlock_step(s, t)
    ||| exists|
        a: ArenaModel<K, V>,
        k: K,
        v: V,
        bound: Option<K>,
        full: usize,
        r: Result<(), InsertError<K, V>>,
        a2: ArenaModel<K, V>,
    | #[trigger] split_step(s, t, a, k, v, bound, full, r, a2)
    ||| rollback_step(s, t)
    ||| other_step(s, t)
}

/// The states of a node over a run of steps; at first no locker is out.
pub open spec fn lock_run<K: Ord + Clone, V: Clone>(run: Seq<LockState<K>>) -> bool {
    &&& run.len() > 0
    &&& run[0].out == 0
    &&& forall|i: int|
        0 <= i < run.len() - 1 ==> any_step::<K, V>(#[trigger] run[i], run[i + 1])
}

/// Whatever threads lock and unlock the node, split its leaves and give splits up: at any time at
/// most one locker is out, and then the node is locked and no split is pending. A locker is given
/// exactly if the node is not locked and no split is under way; if none is given, nothing changes.
pub proof fn law_one_locker<K: Ord + Clone, V: Clone>(run: Seq<LockState<K>>, i: int)
    requires
        lock_run::<K, V>(run),
        0 <= i < run.len(),
    ensures
        run[i].out <= 1,
        run[i].out == 1 ==> is_locked(run[i].node) && !pending(run[i].node),
        pending(run[i].node) ==> run[i].out == 0,
        lock_outcome(run[i].node).0 <==> run[i].node.new_leaves is None,
        run[i].out == 1 || pending(run[i].node) ==> lock_outcome(run[i].node) == (
            false,
            run[i].node,
        ),
    decreases i,
{
    if i > 0 {
        law_one_locker::<K, V>(run, i - 1);
        let s = run[i - 1];
        let t = run[i];
        assert(any_step::<K, V>(run[i - 1], run[i - 1 + 1]));
        if !lock_step(s, t) && !unlock_step(s, t) && !rollback_step(s, t) && !other_step(s, t) {
            let (a, k, v, bound, full, r, a2) = choose|
                a: ArenaModel<K, V>,
                k: K,
                v: V,
                bound: Option<K>,
                full: usize,
                r: Result<(), InsertError<K, V>>,
                a2: ArenaModel<K, V>,
            | #[trigger] split_step(s, t, a, k, v, bound, full, r, a2);
            assert(splits(s.node, a, k, v, bound, full, r, t.node, a2));
        }
    }
}

} // verus!
