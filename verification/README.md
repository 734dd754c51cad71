# scc: leaf nodes of a B+ tree index

A verified library for the lowest inner level of a concurrent B+ tree index. A leaf node leads from
keys to leaves, splits leaves that are full, lets go of leaves that are empty, and tells its parent
when it has to be split or merged itself.

## Layout

- `src/leaf.rs`, `src/scanner.rs`: a leaf, a bounded array of entries in key order, and the scanner
  that walks it.
- `src/arena.rs`: the arena that leaves live in. Leaves form a doubly linked list; a discarded leaf
  leaves the list at once and stays readable until it is reclaimed.
- `src/leafnode.rs` and below: the leaf node.
  - `model.rs` says what a leaf node is; `read.rs`, `write.rs`, `split.rs`, `split_node.rs`,
    `merge.rs`, `release.rs`, `locker.rs` and `print.rs` hold its operations.
  - `probe.rs` holds the steps by which a reader gets at a leaf while others change the node.
  - `laws.rs`, `scan_laws.rs`, `arena_laws.rs`, `full_laws.rs`, `list_laws.rs` and
    `capacity_laws.rs` state what the operations do to the entries of a node, to the list of leaves,
    and to other nodes; `history_laws.rs`, `moment_laws.rs` and `lock_laws.rs` state what holds
    while several threads work on a node. They speak of modelled moments: the bodies take
    `&mut self`, and nothing but their text ties the order of their stores to those moments;
    `routing.rs`, `row_laws.rs`, `split_laws.rs` and `split_node_laws.rs` hold the lemmas.
- `app/`: a level of leaf nodes that threads share. Snapshots of the verified values are published
  through an atomic pointer and reclaimed by epochs.

## Keys

Keys are of any type whose `Ord` is a total order up to keys that compare equal, and whose `Clone`
gives a key that compares equal to the one that it is made of. Keys that compare equal count as the
same key, whatever else they hold: a node has one entry for all of them. The primitive integers are
such types.
