//! Stored story records: scene nodes and the weighted edges between them.
//! Coordinates, probabilities and rewards are binary64 bit patterns.
use vstd::prelude::*;
use crate::prim::{FLOAT_ONE, FLOAT_ZERO, Timestamp, is_random_uuid, json_empty_array, json_empty_object, new_id, now};
use crate::types::{EdgeType, NodeType};

verus! {

/// A scene of a story as stored.
#[derive(Debug)]
pub struct StoryNode {
    pub id: u128,
    pub story_id: u128,
    pub node_type: NodeType,
    pub title: Option<String>,
    pub content: Option<String>,
    pub position_x: u64,
    pub position_y: u64,
    pub metadata: serde_json::Value,
    pub world_snapshot: serde_json::Value,
    pub llm_provider: Option<String>,
    pub llm_prompt: Option<String>,
    pub llm_tokens_used: i32,
    pub crdt_vector: serde_json::Value,
    pub version: i64,
    pub created_at: Timestamp,
    pub updated_at: Timestamp,
}

impl StoryNode {
    /// A new scene at the origin, version 1, with a fresh random id, no
    /// content and no generation record, created and updated now.
    pub fn new(story_id: u128, node_type: NodeType, title: Option<String>) -> (n: Self)
        ensures
            is_random_uuid(n.id),
            n.story_id == story_id,
            n.node_type == node_type,
            n.title == title,
            n.content is None,
            n.position_x == FLOAT_ZERO,
            n.position_y == FLOAT_ZERO,
            n.llm_provider is None,
            n.llm_prompt is None,
            n.llm_tokens_used == 0,
            n.version == 1,
            n.created_at == n.updated_at,
    {
        let t = now();
        StoryNode {
            id: new_id(),
            story_id,
            node_type,
            title,
            content: None,
            position_x: FLOAT_ZERO,
            position_y: FLOAT_ZERO,
            metadata: json_empty_object(),
            world_snapshot: json_empty_object(),
            llm_provider: None,
            llm_prompt: None,
            llm_tokens_used: 0,
            crdt_vector: json_empty_object(),
            version: 1,
            created_at: t,
            updated_at: t,
        }
    }

    /// The same scene placed at `(x, y)` on the canvas.
    pub fn with_position(self, x: u64, y: u64) -> (n: Self)
        ensures
            n == (StoryNode { position_x: x, position_y: y, ..self }),
    {
        StoryNode { position_x: x, position_y: y, ..self }
    }

    /// The same scene with `content` as its text.
    pub fn with_content(self, content: String) -> (n: Self)
        ensures
            n == (StoryNode { content: Some(content), ..self }),
    {
        StoryNode { content: Some(content), ..self }
    }

    /// The same scene recording which provider generated it, from which
    /// prompt and with how many tokens.
    pub fn with_llm_info(self, provider: &str, prompt: &str, tokens: i32) -> (n: Self)
        ensures
            n.llm_provider matches Some(p) && p@ == provider@,
            n.llm_prompt matches Some(q) && q@ == prompt@,
            n.llm_tokens_used == tokens,
            n.id == self.id && n.story_id == self.story_id && n.node_type == self.node_type,
            n.title == self.title && n.content == self.content,
            n.position_x == self.position_x && n.position_y == self.position_y,
            n.version == self.version && n.created_at == self.created_at && n.updated_at == self.updated_at,
    {
        StoryNode {
            llm_provider: Some(String::from_str(provider)),
            llm_prompt: Some(String::from_str(prompt)),
            llm_tokens_used: tokens,
            ..self
        }
    }
}

/// A weighted transition between two scenes as stored.
#[derive(Debug)]
pub struct NarrativeEdge {
    pub id: u128,
    pub story_id: u128,
    pub source_node_id: u128,
    pub target_node_id: u128,
    pub edge_type: EdgeType,
    pub probability: u64,
    pub reward_signal: u64,
    pub observer_weight: u64,
    pub collapse_count: i32,
    pub conditions: serde_json::Value,
    pub metadata: serde_json::Value,
    pub created_at: Timestamp,
}

impl NarrativeEdge {
    /// A new certain transition (probability 1, no reward, no observer
    /// weight, never collapsed) with a fresh random id, created now.
    pub fn new(story_id: u128, source_node_id: u128, target_node_id: u128, edge_type: EdgeType) -> (e: Self)
        ensures
            is_random_uuid(e.id),
            e.story_id == story_id,
            e.source_node_id == source_node_id,
            e.target_node_id == target_node_id,
            e.edge_type == edge_type,
            e.probability == FLOAT_ONE,
            e.reward_signal == FLOAT_ZERO,
            e.observer_weight == FLOAT_ZERO,
            e.collapse_count == 0,
    {
        NarrativeEdge {
            id: new_id(),
            story_id,
            source_node_id,
            target_node_id,
            edge_type,
            probability: FLOAT_ONE,
            reward_signal: FLOAT_ZERO,
            observer_weight: FLOAT_ZERO,
            collapse_count: 0,
            conditions: json_empty_array(),
            metadata: json_empty_object(),
            created_at: now(),
        }
    }

    /// The same transition with probability `p`.
    pub fn with_probability(self, p: u64) -> (e: Self)
        ensures
            e == (NarrativeEdge { probability: p, ..self }),
    {
        NarrativeEdge { probability: p, ..self }
    }

    /// The same transition with reward `r`.
    pub fn with_reward(self, r: u64) -> (e: Self)
        ensures
            e == (NarrativeEdge { reward_signal: r, ..self }),
    {
        NarrativeEdge { reward_signal: r, ..self }
    }
}

} // verus!
