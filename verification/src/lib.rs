//! Word-frequency counting on an ordered binary search tree.
//!
//! Words are kept in a tree ordered by the bytes of their UTF-8 encoding;
//! each node holds one distinct word and the number of times it was seen.

pub mod order;
pub mod bag;
pub mod shape;
pub mod tree;
pub mod text;
pub mod words;
pub mod list;
