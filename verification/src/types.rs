//! Shared vocabulary: node, edge, autonomy, memory and checkpoint kinds, their
//! wire labels, the parsers that read those labels back, and the error type
//! with its HTTP status mapping.
use vstd::prelude::*;

verus! {

/// Kind of a narrative node.
#[derive(Clone, Copy, Debug, PartialEq, Eq, Structural)]
pub enum NodeType {
    Scene,
    Dialogue,
    Decision,
    Combat,
    Transition,
    SystemEvent,
}

impl NodeType {
    /// The wire label of the kind.
    pub open spec fn label(self) -> Seq<char> {
        match self {
            NodeType::Scene => "scene"@,
            NodeType::Dialogue => "dialogue"@,
            NodeType::Decision => "decision"@,
            NodeType::Combat => "combat"@,
            NodeType::Transition => "transition"@,
            NodeType::SystemEvent => "system_event"@,
        }
    }

    pub fn as_str(&self) -> (s: &'static str)
        ensures
            s@ == self.label(),
    {
        match self {
            NodeType::Scene => "scene",
            NodeType::Dialogue => "dialogue",
            NodeType::Decision => "decision",
            NodeType::Combat => "combat",
            NodeType::Transition => "transition",
            NodeType::SystemEvent => "system_event",
        }
    }
}

/// Kind of a narrative edge.
#[derive(Clone, Copy, Debug, PartialEq, Eq, Structural)]
pub enum EdgeType {
    Causal,
    Branch,
    Parallel,
    Temporal,
    Conditional,
}

impl EdgeType {
    /// The wire label of the kind.
    pub open spec fn label(self) -> Seq<char> {
        match self {
            EdgeType::Causal => "causal"@,
            EdgeType::Branch => "branch"@,
            EdgeType::Parallel => "parallel"@,
            EdgeType::Temporal => "temporal"@,
            EdgeType::Conditional => "conditional"@,
        }
    }

    pub fn as_str(&self) -> (s: &'static str)
        ensures
            s@ == self.label(),
    {
        match self {
            EdgeType::Causal => "causal",
            EdgeType::Branch => "branch",
            EdgeType::Parallel => "parallel",
            EdgeType::Temporal => "temporal",
            EdgeType::Conditional => "conditional",
        }
    }
}

/// How independently a character acts.
#[derive(Clone, Copy, Debug, PartialEq, Eq, Structural)]
pub enum AutonomyLevel {
    Scripted,
    Autonomous,
    Transcendent,
}

impl AutonomyLevel {
    /// The wire label of the level.
    pub open spec fn label(self) -> Seq<char> {
        match self {
            AutonomyLevel::Scripted => "scripted"@,
            AutonomyLevel::Autonomous => "autonomous"@,
            AutonomyLevel::Transcendent => "transcendent"@,
        }
    }

    pub fn as_str(&self) -> (s: &'static str)
        ensures
            s@ == self.label(),
    {
        match self {
            AutonomyLevel::Scripted => "scripted",
            AutonomyLevel::Autonomous => "autonomous",
            AutonomyLevel::Transcendent => "transcendent",
        }
    }
}

/// Kind of a character memory.
#[derive(Clone, Copy, Debug, PartialEq, Eq, Structural)]
pub enum MemoryType {
    Episodic,
    Semantic,
    Procedural,
    Emotional,
}

impl MemoryType {
    /// The wire label of the kind.
    pub open spec fn label(self) -> Seq<char> {
        match self {
            MemoryType::Episodic => "episodic"@,
            MemoryType::Semantic => "semantic"@,
            MemoryType::Procedural => "procedural"@,
            MemoryType::Emotional => "emotional"@,
        }
    }

    pub fn as_str(&self) -> (s: &'static str)
        ensures
            s@ == self.label(),
    {
        match self {
            MemoryType::Episodic => "episodic",
            MemoryType::Semantic => "semantic",
            MemoryType::Procedural => "procedural",
            MemoryType::Emotional => "emotional",
        }
    }
}

/// Why a world snapshot was taken.
#[derive(Clone, Copy, Debug, PartialEq, Eq, Structural)]
pub enum CheckpointType {
    Auto,
    Manual,
    Collapse,
    Branch,
}

/// Library-wide error. Errors raised by outside services (database, cache,
/// RPC, HTTP, serialisation) carry the service's message text.
#[derive(Debug)]
pub enum SpError {
    Database(String),
    Redis(String),
    VectorDb { message: String },
    GraphDb { message: String },
    DagCycleDetected { source_id: u128, target_id: u128 },
    NodeNotFound(u128),
    EdgeNotFound(u128),
    StoryNotFound(u128),
    MdpMatrixError { reason: String },
    /// `sum` is the binary64 bit pattern of the offending total.
    ProbabilityNotNormalized { sum: u64 },
    NpcNotFound(u128),
    MemoryEncodingFailed { reason: String },
    MemoryRecallFailed { reason: String },
    LlmProviderError { provider: String, reason: String },
    AllProvidersUnavailable,
    Grpc(String),
    Serialization(String),
    Http(String),
    Config(String),
    Auth(String),
    Forbidden(String),
    Internal(String),
}

impl SpError {
    /// The HTTP status an error is reported with.
    pub open spec fn http_status(&self) -> u16 {
        match self {
            SpError::StoryNotFound(_) | SpError::NodeNotFound(_) | SpError::EdgeNotFound(_)
            | SpError::NpcNotFound(_) => 404,
            SpError::Auth(_) => 401,
            SpError::Forbidden(_) => 403,
            SpError::DagCycleDetected { .. } | SpError::ProbabilityNotNormalized { .. }
            | SpError::MdpMatrixError { .. } => 422,
            _ => 500,
        }
    }

    pub fn status_code(&self) -> (code: u16)
        ensures
            code == self.http_status(),
    {
        match self {
            SpError::StoryNotFound(_) | SpError::NodeNotFound(_) | SpError::EdgeNotFound(_)
            | SpError::NpcNotFound(_) => 404,
            SpError::Auth(_) => 401,
            SpError::Forbidden(_) => 403,
            SpError::DagCycleDetected { .. } | SpError::ProbabilityNotNormalized { .. }
            | SpError::MdpMatrixError { .. } => 422,
            _ => 500,
        }
    }
}

/// The node kind whose label is `s`, if any.
pub open spec fn node_type_of(s: Seq<char>) -> Option<NodeType> {
    if s == "scene"@ {
        Some(NodeType::Scene)
    } else if s == "dialogue"@ {
        Some(NodeType::Dialogue)
    } else if s == "decision"@ {
        Some(NodeType::Decision)
    } else if s == "combat"@ {
        Some(NodeType::Combat)
    } else if s == "transition"@ {
        Some(NodeType::Transition)
    } else if s == "system_event"@ {
        Some(NodeType::SystemEvent)
    } else {
        None
    }
}

/// The edge kind whose label is `s`, if any.
pub open spec fn edge_type_of(s: Seq<char>) -> Option<EdgeType> {
    if s == "causal"@ {
        Some(EdgeType::Causal)
    } else if s == "branch"@ {
        Some(EdgeType::Branch)
    } else if s == "parallel"@ {
        Some(EdgeType::Parallel)
    } else if s == "temporal"@ {
        Some(EdgeType::Temporal)
    } else if s == "conditional"@ {
        Some(EdgeType::Conditional)
    } else {
        None
    }
}

/// Text equality of a string and a literal.
pub fn str_is(value: &str, lit: &str) -> (r: bool)
    ensures
        r == (value@ == lit@),
{
    let a = String::from_str(value);
    let b = String::from_str(lit);
    a == b
}

/// Reads a node kind from its label.
pub fn parse_node_type(value: &str) -> (r: Result<NodeType, SpError>)
    ensures
        match node_type_of(value@) {
            Some(t) => r == Ok::<NodeType, SpError>(t),
            None => r matches Err(SpError::Internal(msg)) && msg@ == "無效的 node_type: "@ + value@,
        },
{
    if str_is(value, "scene") {
        Ok(NodeType::Scene)
    } else if str_is(value, "dialogue") {
        Ok(NodeType::Dialogue)
    } else if str_is(value, "decision") {
        Ok(NodeType::Decision)
    } else if str_is(value, "combat") {
        Ok(NodeType::Combat)
    } else if str_is(value, "transition") {
        Ok(NodeType::Transition)
    } else if str_is(value, "system_event") {
        Ok(NodeType::SystemEvent)
    } else {
        let msg = String::from_str("無效的 node_type: ").concat(value);
        Err(SpError::Internal(msg))
    }
}

/// Reads an edge kind from its label.
pub fn parse_edge_type(value: &str) -> (r: Result<EdgeType, SpError>)
    ensures
        match edge_type_of(value@) {
            Some(t) => r == Ok::<EdgeType, SpError>(t),
            None => r matches Err(SpError::Internal(msg)) && msg@ == "無效的 edge_type: "@ + value@,
        },
{
    if str_is(value, "causal") {
        Ok(EdgeType::Causal)
    } else if str_is(value, "branch") {
        Ok(EdgeType::Branch)
    } else if str_is(value, "parallel") {
        Ok(EdgeType::Parallel)
    } else if str_is(value, "temporal") {
        Ok(EdgeType::Temporal)
    } else if str_is(value, "conditional") {
        Ok(EdgeType::Conditional)
    } else {
        let msg = String::from_str("無效的 edge_type: ").concat(value);
        Err(SpError::Internal(msg))
    }
}

/// Every node kind is read back from its own label.
pub proof fn lemma_node_type_label_roundtrip(t: NodeType)
    ensures
        node_type_of(t.label()) == Some(t),
{
    reveal_strlit("scene");
    reveal_strlit("dialogue");
    reveal_strlit("decision");
    reveal_strlit("combat");
    reveal_strlit("transition");
    reveal_strlit("system_event");
    assert("dialogue"@.len() != "scene"@.len());
    assert("decision"@.len() != "scene"@.len());
    assert("decision"@[1] != "dialogue"@[1]);
    assert("combat"@.len() != "scene"@.len());
    assert("combat"@.len() != "dialogue"@.len());
    assert("combat"@.len() != "decision"@.len());
    assert("transition"@.len() != "scene"@.len());
    assert("transition"@.len() != "dialogue"@.len());
    assert("transition"@.len() != "decision"@.len());
    assert("transition"@.len() != "combat"@.len());
    assert("system_event"@.len() != "scene"@.len());
    assert("system_event"@.len() != "dialogue"@.len());
    assert("system_event"@.len() != "decision"@.len());
    assert("system_event"@.len() != "combat"@.len());
    assert("system_event"@.len() != "transition"@.len());
}

/// Every edge kind is read back from its own label.
pub proof fn lemma_edge_type_label_roundtrip(t: EdgeType)
    ensures
        edge_type_of(t.label()) == Some(t),
{
    reveal_strlit("causal");
    reveal_strlit("branch");
    reveal_strlit("parallel");
    reveal_strlit("temporal");
    reveal_strlit("conditional");
    assert("branch"@[0] != "causal"@[0]);
    assert("parallel"@.len() != "causal"@.len());
    assert("parallel"@.len() != "branch"@.len());
    assert("temporal"@.len() != "causal"@.len());
    assert("temporal"@.len() != "branch"@.len());
    assert("temporal"@[0] != "parallel"@[0]);
    assert("conditional"@.len() != "causal"@.len());
    assert("conditional"@.len() != "branch"@.len());
    assert("conditional"@.len() != "parallel"@.len());
    assert("conditional"@.len() != "temporal"@.len());
}

/// A label that parses to a node kind is that kind's label.
pub proof fn lemma_node_type_parse_exact(s: Seq<char>)
    ensures
        node_type_of(s) matches Some(t) ==> t.label() == s,
{
}

/// A label that parses to an edge kind is that kind's label.
pub proof fn lemma_edge_type_parse_exact(s: Seq<char>)
    ensures
        edge_type_of(s) matches Some(t) ==> t.label() == s,
{
}

} // verus!
