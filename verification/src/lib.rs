//! A self-balancing binary search tree (AVL tree) over `u64` values.
//!
//! The tree keeps three invariants across every public operation: binary
//! search order, a cached height on every node that equals the recomputed
//! height of its subtree, and the AVL balance condition that the two child
//! heights of every node differ by at most one.

pub mod laws;
pub mod node;
pub mod tree;
