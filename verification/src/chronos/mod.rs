//! The timeline engine: the tree of world snapshots, rollback and the
//! comparison of parallel branches.
pub mod timeline;
pub mod checkpoint;
pub mod rollback;
pub mod butterfly;
