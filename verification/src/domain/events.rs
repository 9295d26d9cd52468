//! Domain events: immutable records of changes that happened to a story graph.
use vstd::prelude::*;
use crate::prim::{Timestamp, is_random_uuid, new_id, now, json_empty_object};

verus! {

/// Header shared by every event.
#[derive(Debug)]
pub struct EventMetadata {
    pub event_id: u128,
    pub story_id: u128,
    pub actor_id: u128,
    pub timestamp: Timestamp,
    pub vector_clock: serde_json::Value,
}

impl EventMetadata {
    /// A fresh header: a random event id, the current time and an empty clock.
    pub fn new(story_id: u128, actor_id: u128) -> (m: Self)
        ensures
            m.story_id == story_id,
            m.actor_id == actor_id,
            is_random_uuid(m.event_id),
    {
        EventMetadata {
            event_id: new_id(),
            story_id,
            actor_id,
            timestamp: now(),
            vector_clock: json_empty_object(),
        }
    }
}

/// The reader signal recorded with a collapse.
#[derive(Debug)]
pub struct ObserverSignalEvent {
    pub valence: u64,
    pub arousal: u64,
    pub dominance: u64,
    pub gaze_duration_ms: Option<u64>,
    pub focused_entity_id: Option<String>,
}

/// How one edge's probability moved in a collapse.
#[derive(Debug)]
pub struct ProbabilityShift {
    pub edge_id: u128,
    pub probability_before: u64,
    pub probability_after: u64,
    pub reason: String,
}

/// A change that happened to a story graph.
#[derive(Debug)]
pub enum NarrativeEvent {
    NodeCreated {
        meta: EventMetadata,
        node_id: u128,
        node_type: String,
        title: Option<String>,
        content: Option<String>,
        position_x: u64,
        position_y: u64,
        metadata: serde_json::Value,
    },
    NodeUpdated {
        meta: EventMetadata,
        node_id: u128,
        title: Option<String>,
        content: Option<String>,
        position_x: Option<u64>,
        position_y: Option<u64>,
        metadata: Option<serde_json::Value>,
    },
    NodeDeleted {
        meta: EventMetadata,
        node_id: u128,
        cascaded_edge_ids: Vec<u128>,
    },
    EdgeLinked {
        meta: EventMetadata,
        edge_id: u128,
        source_node_id: u128,
        target_node_id: u128,
        edge_type: String,
        probability: u64,
        reward_signal: u64,
        conditions: serde_json::Value,
    },
    EdgeUpdated {
        meta: EventMetadata,
        edge_id: u128,
        probability: Option<u64>,
        reward_signal: Option<u64>,
        observer_weight: Option<u64>,
    },
    EdgeDeleted {
        meta: EventMetadata,
        edge_id: u128,
    },
    BranchCollapsed {
        meta: EventMetadata,
        node_id: u128,
        reader_id: u128,
        signal: ObserverSignalEvent,
        shifts: Vec<ProbabilityShift>,
        collapsed_path_id: u128,
    },
    CheckpointCreated {
        meta: EventMetadata,
        checkpoint_id: u128,
        node_id: u128,
        checkpoint_type: String,
        world_state: serde_json::Value,
    },
    BranchRolledBack {
        meta: EventMetadata,
        checkpoint_id: u128,
        rollback_from: u128,
        timeline_depth: i32,
    },
}

impl NarrativeEvent {
    /// The header of an event.
    pub open spec fn header(&self) -> EventMetadata {
        match self {
            NarrativeEvent::NodeCreated { meta, .. } => *meta,
            NarrativeEvent::NodeUpdated { meta, .. } => *meta,
            NarrativeEvent::NodeDeleted { meta, .. } => *meta,
            NarrativeEvent::EdgeLinked { meta, .. } => *meta,
            NarrativeEvent::EdgeUpdated { meta, .. } => *meta,
            NarrativeEvent::EdgeDeleted { meta, .. } => *meta,
            NarrativeEvent::BranchCollapsed { meta, .. } => *meta,
            NarrativeEvent::CheckpointCreated { meta, .. } => *meta,
            NarrativeEvent::BranchRolledBack { meta, .. } => *meta,
        }
    }

    /// The stored label of an event's kind.
    pub open spec fn label(&self) -> Seq<char> {
        match self {
            NarrativeEvent::NodeCreated { .. } => "node_created"@,
            NarrativeEvent::NodeUpdated { .. } => "node_updated"@,
            NarrativeEvent::NodeDeleted { .. } => "node_deleted"@,
            NarrativeEvent::EdgeLinked { .. } => "edge_linked"@,
            NarrativeEvent::EdgeUpdated { .. } => "edge_updated"@,
            NarrativeEvent::EdgeDeleted { .. } => "edge_deleted"@,
            NarrativeEvent::BranchCollapsed { .. } => "branch_collapsed"@,
            NarrativeEvent::CheckpointCreated { .. } => "checkpoint_created"@,
            NarrativeEvent::BranchRolledBack { .. } => "branch_rolled_back"@,
        }
    }

    /// The header of the event.
    pub fn meta(&self) -> (m: &EventMetadata)
        ensures
            *m == self.header(),
    {
        match self {
            NarrativeEvent::NodeCreated { meta, .. } => meta,
            NarrativeEvent::NodeUpdated { meta, .. } => meta,
            NarrativeEvent::NodeDeleted { meta, .. } => meta,
            NarrativeEvent::EdgeLinked { meta, .. } => meta,
            NarrativeEvent::EdgeUpdated { meta, .. } => meta,
            NarrativeEvent::EdgeDeleted { meta, .. } => meta,
            NarrativeEvent::BranchCollapsed { meta, .. } => meta,
            NarrativeEvent::CheckpointCreated { meta, .. } => meta,
            NarrativeEvent::BranchRolledBack { meta, .. } => meta,
        }
    }

    /// The label under which the event is stored.
    pub fn event_type_label(&self) -> (s: &'static str)
        ensures
            s@ == self.label(),
    {
        match self {
            NarrativeEvent::NodeCreated { .. } => "node_created",
            NarrativeEvent::NodeUpdated { .. } => "node_updated",
            NarrativeEvent::NodeDeleted { .. } => "node_deleted",
            NarrativeEvent::EdgeLinked { .. } => "edge_linked",
            NarrativeEvent::EdgeUpdated { .. } => "edge_updated",
            NarrativeEvent::EdgeDeleted { .. } => "edge_deleted",
            NarrativeEvent::BranchCollapsed { .. } => "branch_collapsed",
            NarrativeEvent::CheckpointCreated { .. } => "checkpoint_created",
            NarrativeEvent::BranchRolledBack { .. } => "branch_rolled_back",
        }
    }
}

} // verus!
