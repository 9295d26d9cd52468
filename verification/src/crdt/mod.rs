//! Conflict-free replicated data types for concurrent editing of a story graph.
pub mod lww_register;
pub mod graph_crdt;
