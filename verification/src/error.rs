//! Why an operation on a leaf node was not completed.
use vstd::prelude::*;

verus! {

/// Why an entry was not inserted; the entry is handed back.
#[derive(PartialEq, Eq, Debug)]
pub enum InsertError<K, V> {
    /// The key is taken.
    Duplicated((K, V)),
    /// The leaf node has no room for another leaf: its parent has to split it.
    Full((K, V)),
    /// The leaf node is being changed: the insertion has to start again at the root.
    Retry((K, V)),
}

/// What follows the removal of an entry; the flag says whether an entry was removed.
#[derive(Clone, Copy, PartialEq, Eq, Structural, Debug)]
pub enum RemoveError {
    /// The leaf node has only its unbounded leaf left: its parent has to merge it.
    Coalesce(bool),
    /// The leaf node is being changed: the removal has to start again at the root.
    Retry(bool),
}

/// Why a key could not be looked up.
#[derive(Clone, Copy, PartialEq, Eq, Structural, Debug)]
pub enum SearchError {
    /// The leaf node is bound to be freed: the search has to start again at the root.
    Retry,
}

} // verus!
