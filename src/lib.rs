//! A binary search tree kept in an append-only arena, with a cursor for
//! walking it and iterative pre-order and post-order traversals.

pub mod tree;
pub mod cursor;
pub mod traversal;
