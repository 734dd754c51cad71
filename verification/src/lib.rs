//! Leaf nodes of a B+ tree index.
//!
//! [`LeafNode`] is the lowest inner level of the tree. It leads from keys to leaves, splits leaves
//! that are full, lets go of leaves that are empty, and tells its parent when it has to be split or
//! merged itself. Leaves live in a [`LeafArena`] and are told apart by handles.
pub mod arena;
pub mod error;
pub mod leaf;
pub mod leafnode;
pub mod order;
pub mod scanner;

pub use arena::{LeafArena, LeafPtr};
pub use error::{InsertError, RemoveError, SearchError};
pub use leaf::Leaf;
pub use leafnode::locker::LeafNodeLocker;
pub use leafnode::{LeafNode, NewLeaves};
pub use scanner::LeafScanner;
