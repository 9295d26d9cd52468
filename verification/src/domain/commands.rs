//! Commands: requests to change a story graph. A command may be refused;
//! an accepted command yields immutable events.
//!
//! Floating-point quantities are carried as binary64 bit patterns.
use vstd::prelude::*;

verus! {

/// Create a narrative node.
#[derive(Debug)]
pub struct CreateNodeCommand {
    pub story_id: u128,
    pub node_type: String,
    pub title: Option<String>,
    pub content: Option<String>,
    pub position_x: u64,
    pub position_y: u64,
    pub metadata: Option<serde_json::Value>,
}

/// Update a narrative node.
#[derive(Debug)]
pub struct UpdateNodeCommand {
    pub story_id: u128,
    pub node_id: u128,
    pub title: Option<String>,
    pub content: Option<String>,
    pub position_x: Option<u64>,
    pub position_y: Option<u64>,
    pub metadata: Option<serde_json::Value>,
}

/// Delete a narrative node together with its edges.
#[derive(Debug)]
pub struct DeleteNodeCommand {
    pub story_id: u128,
    pub node_id: u128,
}

/// Link two nodes with a transition edge.
#[derive(Debug)]
pub struct LinkEdgeCommand {
    pub story_id: u128,
    pub source_node_id: u128,
    pub target_node_id: u128,
    pub edge_type: String,
    pub probability: u64,
    pub reward_signal: Option<u64>,
    pub conditions: Option<serde_json::Value>,
}

/// Update the weights of an edge.
#[derive(Debug)]
pub struct UpdateEdgeCommand {
    pub story_id: u128,
    pub edge_id: u128,
    pub probability: Option<u64>,
    pub reward_signal: Option<u64>,
    pub observer_weight: Option<u64>,
}

/// Delete an edge.
#[derive(Debug)]
pub struct DeleteEdgeCommand {
    pub story_id: u128,
    pub edge_id: u128,
}

/// Collapse the branches leaving a node under a reader's signal.
#[derive(Debug)]
pub struct CollapseBranchCommand {
    pub story_id: u128,
    pub node_id: u128,
    pub reader_id: u128,
    pub signal: ObserverSignalPayload,
}

/// A reader's affective signal.
#[derive(Debug)]
pub struct ObserverSignalPayload {
    pub valence: u64,
    pub arousal: u64,
    pub dominance: u64,
    pub gaze_duration_ms: Option<u64>,
    pub focused_entity_id: Option<String>,
}

/// Take a snapshot of the world at a node.
#[derive(Debug)]
pub struct CreateCheckpointCommand {
    pub story_id: u128,
    pub node_id: u128,
    pub checkpoint_type: String,
    pub world_state: serde_json::Value,
}

/// Roll the timeline back to a snapshot.
#[derive(Debug)]
pub struct RollbackCommand {
    pub story_id: u128,
    pub checkpoint_id: u128,
}

/// Every change to a story graph is requested through one of these.
#[derive(Debug)]
pub enum NarrativeCommand {
    CreateNode(CreateNodeCommand),
    UpdateNode(UpdateNodeCommand),
    DeleteNode(DeleteNodeCommand),
    LinkEdge(LinkEdgeCommand),
    UpdateEdge(UpdateEdgeCommand),
    DeleteEdge(DeleteEdgeCommand),
    CollapseBranch(CollapseBranchCommand),
    CreateCheckpoint(CreateCheckpointCommand),
    Rollback(RollbackCommand),
}

} // verus!
