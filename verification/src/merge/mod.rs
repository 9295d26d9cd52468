//! Merging parallel story branches.
pub mod conflict;
