//! SparkNode narrative engine: the story DAG, its CQRS aggregate, CRDT
//! replication primitives, timeline bookkeeping and the gateway's pure rules.
pub mod prim;
pub mod types;
pub mod records;
pub mod dag;
pub mod domain;
pub mod crdt;
pub mod persistence;
pub mod chronos;
pub mod merge;
pub mod gateway;
