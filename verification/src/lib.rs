//! An in-memory B-tree index: an ordered associative container mapping
//! unique `u64` keys to `u64` values, with point lookup and insertion.
//! Insertion splits nodes that overflow their configured size, growing the
//! tree at the root, so that every leaf stays at the same depth.

pub mod node;
pub mod tree;
