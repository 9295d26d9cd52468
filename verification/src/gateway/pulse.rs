//! The real-time protocol of a story session: collaboration events stamped
//! with vector clocks, and the messages multiplexed on one socket.
use vstd::prelude::*;
use std::collections::HashMap;
use crate::crdt::graph_crdt::{clock_of, join_clock, join_clock_into, lemma_join_clock_is_max};
use crate::prim::{Timestamp, hyphenated, id_to_string, now};

verus! {

broadcast use vstd::std_specs::hash::group_hash_axioms;

/// What a collaboration event reports.
#[derive(Debug, Clone, Copy, PartialEq, Eq, Structural)]
pub enum PulseEventType {
    NodeCreated,
    NodeUpdated,
    NodeDeleted,
    /// A node was dragged on the canvas.
    NodeMoved,
    EdgeCreated,
    EdgeUpdated,
    EdgeDeleted,
    GenerateStarted,
    /// A streamed piece of generated text.
    GenerateProgress,
    GenerateCompleted,
    GenerateFailed,
    ObserverCollapse,
    MdpMatrixUpdated,
    CursorPosition,
    SelectionChanged,
    PeerJoined,
    PeerLeft,
}

/// A collaboration event: its kind, an opaque payload, the sending peer,
/// the time it was stamped and the sender's vector clock.
#[derive(Debug)]
pub struct PulseEvent {
    pub event_type: PulseEventType,
    pub payload: serde_json::Value,
    pub peer_id: u128,
    pub timestamp: Timestamp,
    pub vector_clock: HashMap<u128, u64>,
}

/// One peer's session on one story, with its vector clock.
#[derive(Debug)]
pub struct PulseStream {
    pub story_id: u128,
    pub peer_id: u128,
    pub vector_clock: HashMap<u128, u64>,
}

/// `clock` with the counter of `peer` advanced by one.
pub open spec fn tick_clock(clock: Map<u128, u64>, peer: u128) -> Map<u128, u64> {
    clock.insert(peer, (clock_of(clock, peer) + 1) as u64)
}

impl PulseStream {
    /// A session of `peer_id` on `story_id` with an empty clock.
    pub fn new(story_id: u128, peer_id: u128) -> (p: Self)
        ensures
            p.story_id == story_id,
            p.peer_id == peer_id,
            p.vector_clock@ == Map::<u128, u64>::empty(),
    {
        PulseStream { story_id, peer_id, vector_clock: HashMap::new() }
    }

    /// Advances this peer's own counter.
    fn tick(&mut self)
        requires
            clock_of(old(self).vector_clock@, old(self).peer_id) < u64::MAX,
        ensures
            final(self).vector_clock@ == tick_clock(old(self).vector_clock@, old(self).peer_id),
            final(self).peer_id == old(self).peer_id,
            final(self).story_id == old(self).story_id,
    {
        let counter: u64 = match self.vector_clock.get(&self.peer_id) {
            Some(c) => *c,
            None => 0,
        };
        self.vector_clock.insert(self.peer_id, counter + 1);
    }

    /// An event of this peer with the current clock.
    fn stamped(&self, event_type: PulseEventType, payload: serde_json::Value) -> (e: PulseEvent)
        ensures
            e.event_type == event_type,
            e.payload == payload,
            e.peer_id == self.peer_id,
            e.vector_clock@ == self.vector_clock@,
    {
        PulseEvent {
            event_type,
            payload,
            peer_id: self.peer_id,
            timestamp: now(),
            vector_clock: self.vector_clock.clone(),
        }
    }

    /// Takes in an event from another peer: joins its clock into this
    /// peer's clock, advances this peer's counter, and returns the event to
    /// broadcast, re-stamped by this peer with the new clock.
    pub fn handle_event(&mut self, event: PulseEvent) -> (out: PulseEvent)
        requires
            clock_of(join_clock(old(self).vector_clock@, event.vector_clock@), old(self).peer_id) < u64::MAX,
        ensures
            final(self).vector_clock@ == tick_clock(join_clock(old(self).vector_clock@, event.vector_clock@), old(self).peer_id),
            final(self).peer_id == old(self).peer_id,
            final(self).story_id == old(self).story_id,
            out.event_type == event.event_type,
            out.payload == event.payload,
            out.peer_id == old(self).peer_id,
            out.vector_clock@ == final(self).vector_clock@,
    {
        join_clock_into(&mut self.vector_clock, &event.vector_clock);
        self.tick();
        self.stamped(event.event_type, event.payload)
    }

    /// A node-created event of this peer carrying `payload`, after advancing
    /// this peer's counter.
    pub fn node_created_event(&mut self, node_id: u128, payload: serde_json::Value) -> (out: PulseEvent)
        requires
            clock_of(old(self).vector_clock@, old(self).peer_id) < u64::MAX,
        ensures
            final(self).vector_clock@ == tick_clock(old(self).vector_clock@, old(self).peer_id),
            final(self).peer_id == old(self).peer_id,
            final(self).story_id == old(self).story_id,
            out.event_type == PulseEventType::NodeCreated,
            out.payload == payload,
            out.peer_id == old(self).peer_id,
            out.vector_clock@ == final(self).vector_clock@,
    {
        self.tick();
        self.stamped(PulseEventType::NodeCreated, payload)
    }

    /// An observer-collapse event of this peer carrying `payload`, after
    /// advancing this peer's counter.
    pub fn collapse_event(&mut self, payload: serde_json::Value) -> (out: PulseEvent)
        requires
            clock_of(old(self).vector_clock@, old(self).peer_id) < u64::MAX,
        ensures
            final(self).vector_clock@ == tick_clock(old(self).vector_clock@, old(self).peer_id),
            final(self).peer_id == old(self).peer_id,
            final(self).story_id == old(self).story_id,
            out.event_type == PulseEventType::ObserverCollapse,
            out.payload == payload,
            out.peer_id == old(self).peer_id,
            out.vector_clock@ == final(self).vector_clock@,
    {
        self.tick();
        self.stamped(PulseEventType::ObserverCollapse, payload)
    }
}

/// A message on a story socket.
#[derive(Debug)]
pub enum SparkWsMessage {
    /// A collaboration event.
    Pulse(PulseEvent),
    /// A request for generated text (client to server).
    AiRequest { request_id: u128, prompt: String, model: Option<String>, max_tokens: Option<u32> },
    /// A piece of generated text (server to client).
    AiStreamChunk { request_id: u128, token: String, done: bool },
    /// A generation failure (server to client).
    AiError { request_id: u128, error: String },
    Ping,
    Pong,
}

impl SparkWsMessage {
    /// The message is a collaboration event.
    pub fn is_pulse(&self) -> (b: bool)
        ensures
            b == (self is Pulse),
    {
        match self {
            SparkWsMessage::Pulse(_) => true,
            _ => false,
        }
    }

    /// The message belongs to text generation.
    pub fn is_ai(&self) -> (b: bool)
        ensures
            b == (self is AiRequest || self is AiStreamChunk || self is AiError),
    {
        match self {
            SparkWsMessage::AiRequest { .. } | SparkWsMessage::AiStreamChunk { .. } | SparkWsMessage::AiError { .. } => true,
            _ => false,
        }
    }

    /// The message is a heartbeat.
    pub fn is_heartbeat(&self) -> (b: bool)
        ensures
            b == (self is Ping || self is Pong),
    {
        match self {
            SparkWsMessage::Ping | SparkWsMessage::Pong => true,
            _ => false,
        }
    }

    /// The generation request a message belongs to, if any.
    pub fn request_id(&self) -> (r: Option<u128>)
        ensures
            r == match self {
                SparkWsMessage::AiRequest { request_id, .. } => Some(*request_id),
                SparkWsMessage::AiStreamChunk { request_id, .. } => Some(*request_id),
                SparkWsMessage::AiError { request_id, .. } => Some(*request_id),
                _ => None::<u128>,
            },
    {
        match self {
            SparkWsMessage::AiRequest { request_id, .. }
            | SparkWsMessage::AiStreamChunk { request_id, .. }
            | SparkWsMessage::AiError { request_id, .. } => Some(*request_id),
            _ => None,
        }
    }
}

/// A client message in the earlier protocol: an event label and a payload.
#[derive(Debug)]
pub struct WsMessage {
    pub event_type: String,
    pub payload: serde_json::Value,
}

/// What the session does with a message received from its client.
#[derive(Debug)]
pub enum WsAction {
    /// Publish this event to the story's other peers.
    Broadcast(PulseEvent),
    /// Answer a generation request.
    Generate { request_id: u128, prompt: String, model: Option<String>, max_tokens: Option<u32> },
    /// Answer a heartbeat.
    ReplyPong,
    /// Ignore a message only the server sends.
    Ignore,
}

/// Decides what to do with a message received from the client: collaboration
/// events are taken in and re-broadcast, generation requests are answered,
/// pings are answered with a pong, and server-side messages are ignored.
pub fn dispatch(pulse: &mut PulseStream, msg: SparkWsMessage) -> (a: WsAction)
    requires
        msg matches SparkWsMessage::Pulse(e) ==>
            clock_of(join_clock(old(pulse).vector_clock@, e.vector_clock@), old(pulse).peer_id) < u64::MAX,
    ensures
        match msg {
            SparkWsMessage::Pulse(e) => {
                &&& a matches WsAction::Broadcast(out)
                &&& final(pulse).vector_clock@ == tick_clock(join_clock(old(pulse).vector_clock@, e.vector_clock@), old(pulse).peer_id)
                &&& out.event_type == e.event_type
                &&& out.payload == e.payload
                &&& out.peer_id == old(pulse).peer_id
                &&& out.vector_clock@ == final(pulse).vector_clock@
            },
            SparkWsMessage::AiRequest { request_id, prompt, model, max_tokens } => {
                &&& a matches WsAction::Generate { request_id: r, prompt: p, model: m, max_tokens: t }
                &&& r == request_id && p == prompt && m == model && t == max_tokens
                &&& *final(pulse) == *old(pulse)
            },
            SparkWsMessage::Ping => a is ReplyPong && *final(pulse) == *old(pulse),
            _ => a is Ignore && *final(pulse) == *old(pulse),
        },
        final(pulse).peer_id == old(pulse).peer_id,
        final(pulse).story_id == old(pulse).story_id,
{
    match msg {
        SparkWsMessage::Pulse(e) => WsAction::Broadcast(pulse.handle_event(e)),
        SparkWsMessage::AiRequest { request_id, prompt, model, max_tokens } =>
            WsAction::Generate { request_id, prompt, model, max_tokens },
        SparkWsMessage::Ping => WsAction::ReplyPong,
        _ => WsAction::Ignore,
    }
}

/// The publish/subscribe channel of a story: `sparknode:pulse:{story id}`.
pub fn pulse_channel(story_id: u128) -> (c: String)
    ensures
        c@ == "sparknode:pulse:"@ + hyphenated(story_id),
{
    let mut c = String::from_str("sparknode:pulse:");
    let id = id_to_string(story_id);
    c.append(id.as_str());
    c
}

/// After taking in another peer's event, this peer's counter for every other
/// peer is the larger of the two clocks' counters, and its own counter is
/// one above the larger of the two.
pub proof fn lemma_received_clock(local: Map<u128, u64>, remote: Map<u128, u64>, peer: u128)
    requires
        clock_of(join_clock(local, remote), peer) < u64::MAX,
    ensures
        forall|q: u128| q != peer ==> #[trigger] clock_of(tick_clock(join_clock(local, remote), peer), q)
            == if clock_of(local, q) >= clock_of(remote, q) { clock_of(local, q) } else { clock_of(remote, q) },
        clock_of(tick_clock(join_clock(local, remote), peer), peer)
            == 1 + if clock_of(local, peer) >= clock_of(remote, peer) { clock_of(local, peer) } else { clock_of(remote, peer) },
{
    lemma_join_clock_is_max(local, remote);
    assert(clock_of(join_clock(local, remote), peer) == if clock_of(local, peer) >= clock_of(remote, peer) { clock_of(local, peer) } else { clock_of(remote, peer) });
    assert forall|q: u128| q != peer implies #[trigger] clock_of(tick_clock(join_clock(local, remote), peer), q)
        == if clock_of(local, q) >= clock_of(remote, q) { clock_of(local, q) } else { clock_of(remote, q) } by {
        assert(clock_of(join_clock(local, remote), q) == if clock_of(local, q) >= clock_of(remote, q) { clock_of(local, q) } else { clock_of(remote, q) });
    }
}

} // verus!
