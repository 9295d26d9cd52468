//! Read-model projection: the graph-database statements that mirror events.
pub mod projection;
