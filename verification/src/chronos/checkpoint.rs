//! What a world snapshot is made from.
use vstd::prelude::*;

verus! {

/// The inputs of a world snapshot: its story, the node it was taken at, its
/// kind and the world state itself.
#[derive(Debug)]
pub struct CheckpointParams {
    pub story_id: u128,
    pub node_id: Option<u128>,
    pub checkpoint_type: String,
    pub world_state: serde_json::Value,
}

} // verus!
