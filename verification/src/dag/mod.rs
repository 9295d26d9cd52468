//! The story graph and the algorithms that walk it.
pub mod graph;
pub mod removal;
pub mod order;
pub mod traversal;
pub mod operations;
pub mod diff;
