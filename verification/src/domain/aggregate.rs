//! The aggregate root of a story: it decides whether a command is accepted
//! (yielding events) and folds events into the in-memory graph.
use vstd::prelude::*;
use std::collections::HashMap;
use std::collections::HashSet;
use crate::dag::graph::{
    DagEdge, DagEdgeView, DagNode, DagNodeView, DirectedAcyclicGraph, clone_opt_string,
    index_list, index_view, opt_text, vec_without, without,
};
use crate::domain::commands::{
    CollapseBranchCommand, CreateCheckpointCommand, CreateNodeCommand, DeleteEdgeCommand,
    DeleteNodeCommand, LinkEdgeCommand, NarrativeCommand, ObserverSignalPayload, RollbackCommand,
    UpdateEdgeCommand, UpdateNodeCommand,
};
use crate::domain::events::{EventMetadata, NarrativeEvent, ObserverSignalEvent, ProbabilityShift};
use crate::prim::{
    FLOAT_NEG_INFINITY, FLOAT_ZERO, float_greater, float_gt, hyphenated, id_to_string, is_nan,
    is_random_uuid, new_id, order_key, outside_unit_interval, probability_out_of_range,
};
use crate::types::{edge_type_of, node_type_of, str_is};
use crate::prim::{NIL_ID, json_null};

verus! {

broadcast use {vstd::std_specs::hash::group_hash_axioms, vstd::seq_lib::group_seq_properties};

/// A story's graph as the command side sees it. `probability_cache` maps edge
/// ids to the bit pattern of their current probability; `applied_events`
/// holds the ids of the events folded in so far.
#[derive(Debug)]
pub struct NarrativeGraph {
    pub story_id: u128,
    pub dag: DirectedAcyclicGraph,
    pub probability_cache: HashMap<u128, u64>,
    pub version: u64,
    pub applied_events: HashSet<u128>,
}

/// Why a command was refused.
#[derive(Debug)]
pub enum AggregateError {
    StoryMismatch { expected: u128, got: u128 },
    NodeNotFound(u128),
    EdgeNotFound(u128),
    CycleDetected(String, String),
    /// The offending probability's bit pattern.
    InvalidProbability(u64),
    ValidationError(String),
}

impl AggregateError {
    /// The human-readable text of the error; a probability error carries a
    /// floating-point value, whose decimal text is left to the caller.
    pub fn message(&self) -> (m: Option<String>)
        ensures
            match self {
                AggregateError::StoryMismatch { expected, got } => m matches Some(t)
                    && t@ == "故事 ID 不匹配: 期望 "@ + hyphenated(*expected) + "，实际 "@ + hyphenated(*got),
                AggregateError::NodeNotFound(id) => m matches Some(t) && t@ == "节点 "@ + hyphenated(*id) + " 不存在"@,
                AggregateError::EdgeNotFound(id) => m matches Some(t) && t@ == "边 "@ + hyphenated(*id) + " 不存在"@,
                AggregateError::CycleDetected(a, b) => m matches Some(t) && t@ == "添加边 "@ + a@ + " → "@ + b@ + " 将形成环路"@,
                AggregateError::InvalidProbability(_) => m is None,
                AggregateError::ValidationError(v) => m matches Some(t) && t@ == "验证失败: "@ + v@,
            },
    {
        match self {
            AggregateError::StoryMismatch { expected, got } => {
                let mut t = String::from_str("故事 ID 不匹配: 期望 ");
                t.append(id_to_string(*expected).as_str());
                t.append("，实际 ");
                t.append(id_to_string(*got).as_str());
                Some(t)
            },
            AggregateError::NodeNotFound(id) => {
                let mut t = String::from_str("节点 ");
                t.append(id_to_string(*id).as_str());
                t.append(" 不存在");
                Some(t)
            },
            AggregateError::EdgeNotFound(id) => {
                let mut t = String::from_str("边 ");
                t.append(id_to_string(*id).as_str());
                t.append(" 不存在");
                Some(t)
            },
            AggregateError::CycleDetected(a, b) => {
                let mut t = String::from_str("添加边 ");
                t.append(a.as_str());
                t.append(" → ");
                t.append(b.as_str());
                t.append(" 将形成环路");
                Some(t)
            },
            AggregateError::InvalidProbability(_) => None,
            AggregateError::ValidationError(v) => {
                let mut t = String::from_str("验证失败: ");
                t.append(v.as_str());
                Some(t)
            },
        }
    }
}

/// Abstract state of a story graph.
pub struct GraphModel {
    pub nodes: Map<u128, DagNodeView>,
    pub edges: Map<u128, DagEdgeView>,
    pub out: Map<u128, Seq<u128>>,
    pub inn: Map<u128, Seq<u128>>,
    pub degree: Map<u128, usize>,
    pub cache: Map<u128, u64>,
    pub version: int,
    pub seen: Set<u128>,
}

/// `d - 1`, or 0 when `d` is 0.
pub open spec fn sat_dec(d: usize) -> usize {
    if d > 0 {
        (d - 1) as usize
    } else {
        0
    }
}

/// The list under `k`, or the empty list.
pub open spec fn list_of(m: Map<u128, Seq<u128>>, k: u128) -> Seq<u128> {
    if m.contains_key(k) {
        m[k]
    } else {
        Seq::empty()
    }
}

/// Removes edge `id` (if stored) from the edges, both indexes, the target's
/// in-degree and the probability cache.
pub open spec fn drop_edge(m: GraphModel, id: u128) -> GraphModel {
    if m.edges.contains_key(id) {
        let e = m.edges[id];
        GraphModel {
            edges: m.edges.remove(id),
            out: if m.out.contains_key(e.source) {
                m.out.insert(e.source, without(m.out[e.source], id))
            } else {
                m.out
            },
            inn: if m.inn.contains_key(e.target) {
                m.inn.insert(e.target, without(m.inn[e.target], id))
            } else {
                m.inn
            },
            degree: if m.degree.contains_key(e.target) {
                m.degree.insert(e.target, sat_dec(m.degree[e.target]))
            } else {
                m.degree
            },
            cache: m.cache.remove(id),
            ..m
        }
    } else {
        m
    }
}

/// Removes the listed edges one after the other.
pub open spec fn drop_edges(m: GraphModel, ids: Seq<u128>) -> GraphModel
    decreases ids.len(),
{
    if ids.len() == 0 {
        m
    } else {
        drop_edge(drop_edges(m, ids.drop_last()), ids.last())
    }
}

/// Sets a stored edge's probability to the shift's target value and clears
/// its observer weight.
pub open spec fn apply_shift(m: GraphModel, s: ProbabilityShift) -> GraphModel {
    if m.edges.contains_key(s.edge_id) {
        GraphModel {
            edges: m.edges.insert(s.edge_id, DagEdgeView {
                probability: s.probability_after,
                observer_weight: 0,
                ..m.edges[s.edge_id]
            }),
            cache: m.cache.insert(s.edge_id, s.probability_after),
            ..m
        }
    } else {
        m
    }
}

/// Applies the shifts one after the other.
pub open spec fn apply_shifts(m: GraphModel, s: Seq<ProbabilityShift>) -> GraphModel
    decreases s.len(),
{
    if s.len() == 0 {
        m
    } else {
        apply_shift(apply_shifts(m, s.drop_last()), s.last())
    }
}

/// The state after folding one event in: an event whose id was folded in
/// before changes nothing; any other counts one version.
pub open spec fn applied(m: GraphModel, e: NarrativeEvent) -> GraphModel {
    if m.seen.contains(e.header().event_id) {
        m
    } else {
        GraphModel { version: m.version + 1, seen: m.seen.insert(e.header().event_id), ..changed(m, e) }
    }
}

/// What folding in a new event does to the graph and the cache.
pub open spec fn changed(m: GraphModel, e: NarrativeEvent) -> GraphModel {
    match e {
        NarrativeEvent::NodeCreated { node_id, node_type, title, .. } => GraphModel {
            nodes: m.nodes.insert(node_id, DagNodeView { id: node_id, node_type: node_type@, title: opt_text(title) }),
            degree: if m.degree.contains_key(node_id) { m.degree } else { m.degree.insert(node_id, 0) },
            ..m
        },
        NarrativeEvent::NodeDeleted { node_id, cascaded_edge_ids, .. } => {
            let d = drop_edges(m, cascaded_edge_ids@);
            GraphModel {
                nodes: d.nodes.remove(node_id),
                out: d.out.remove(node_id),
                inn: d.inn.remove(node_id),
                degree: d.degree.remove(node_id),
                ..d
            }
        },
        NarrativeEvent::NodeUpdated { node_id, title, .. } => {
            if m.nodes.contains_key(node_id) && title is Some {
                GraphModel {
                    nodes: m.nodes.insert(node_id, DagNodeView { title: opt_text(title), ..m.nodes[node_id] }),
                    ..m
                }
            } else {
                m
            }
        },
        NarrativeEvent::EdgeLinked { edge_id, source_node_id, target_node_id, edge_type, probability, .. } => GraphModel {
            edges: m.edges.insert(edge_id, DagEdgeView {
                id: edge_id,
                source: source_node_id,
                target: target_node_id,
                edge_type: edge_type@,
                probability: probability,
                observer_weight: 0,
            }),
            out: m.out.insert(source_node_id, list_of(m.out, source_node_id).push(edge_id)),
            inn: m.inn.insert(target_node_id, list_of(m.inn, target_node_id).push(edge_id)),
            degree: m.degree.insert(target_node_id,
                (if m.degree.contains_key(target_node_id) { m.degree[target_node_id] + 1 } else { 1 }) as usize),
            cache: m.cache.insert(edge_id, probability),
            ..m
        },
        NarrativeEvent::EdgeUpdated { edge_id, probability, observer_weight, .. } => {
            if m.edges.contains_key(edge_id) {
                let old_e = m.edges[edge_id];
                GraphModel {
                    edges: m.edges.insert(edge_id, DagEdgeView {
                        probability: match probability { Some(p) => p, None => old_e.probability },
                        observer_weight: match observer_weight { Some(w) => w, None => old_e.observer_weight },
                        ..old_e
                    }),
                    cache: match probability { Some(p) => m.cache.insert(edge_id, p), None => m.cache },
                    ..m
                }
            } else {
                m
            }
        },
        NarrativeEvent::EdgeDeleted { edge_id, .. } => drop_edge(m, edge_id),
        NarrativeEvent::BranchCollapsed { shifts, .. } => apply_shifts(m, shifts@),
        NarrativeEvent::CheckpointCreated { .. } => m,
        NarrativeEvent::BranchRolledBack { .. } => m,
    }
}

/// The state after folding a sequence of events in order.
pub open spec fn replayed(m: GraphModel, events: Seq<NarrativeEvent>) -> GraphModel
    decreases events.len(),
{
    if events.len() == 0 {
        m
    } else {
        applied(replayed(m, events.drop_last()), events.last())
    }
}

/// The state of a graph with no events.
pub open spec fn empty_model() -> GraphModel {
    GraphModel {
        nodes: Map::empty(),
        edges: Map::empty(),
        out: Map::empty(),
        inn: Map::empty(),
        degree: Map::empty(),
        cache: Map::empty(),
        version: 0,
        seen: Set::empty(),
    }
}

impl NarrativeGraph {
    /// The abstract state of this graph.
    pub open spec fn model(&self) -> GraphModel {
        GraphModel {
            nodes: self.dag.node_map(),
            edges: self.dag.edge_map(),
            out: index_view(self.dag.out_edges@),
            inn: index_view(self.dag.in_edges@),
            degree: self.dag.in_degree@,
            cache: self.probability_cache@,
            version: self.version as int,
            seen: self.applied_events@,
        }
    }

    /// Linking edge `id` from `source` to `target` keeps the graph a DAG: the
    /// graph is well formed and acyclic, the id is unused, both ends exist
    /// and the edge closes no cycle.
    pub open spec fn safe_link(&self, id: u128, source: u128, target: u128) -> bool {
        &&& self.dag.wf()
        &&& self.dag.acyclic()
        &&& !self.dag.edges@.contains_key(id)
        &&& self.dag.nodes@.contains_key(source)
        &&& self.dag.nodes@.contains_key(target)
        &&& !self.dag.closes_cycle(source, target)
    }

    /// Folding `e` in stays within the machine's counters: the version can
    /// grow, and a linked edge's target in-degree can grow.
    pub open spec fn can_apply(&self, e: NarrativeEvent) -> bool {
        &&& self.version < u64::MAX
        &&& e matches NarrativeEvent::EdgeLinked { target_node_id, .. } ==> (
            self.dag.in_degree@.contains_key(target_node_id) ==> self.dag.in_degree@[target_node_id] < usize::MAX)
    }

    /// An empty graph for a story.
    pub fn new(story_id: u128) -> (g: Self)
        ensures
            g.story_id == story_id,
            g.model() == empty_model(),
            g.dag.wf(),
    {
        let g = NarrativeGraph {
            story_id,
            dag: DirectedAcyclicGraph::new(),
            probability_cache: HashMap::new(),
            version: 0,
            applied_events: HashSet::new(),
        };
        assert(g.model().nodes =~= Map::empty());
        assert(g.model().edges =~= Map::empty());
        assert(g.model().out =~= Map::empty());
        assert(g.model().inn =~= Map::empty());
        g
    }

    /// Removes one edge (if stored) from the edges, both indexes, the target's
    /// in-degree and the probability cache.
    fn drop_edge_in_place(&mut self, id: u128)
        ensures
            final(self).model() == drop_edge(old(self).model(), id),
            final(self).story_id == old(self).story_id,
    {
        let ghost m = self.model();
        match self.dag.edges.remove(&id) {
            Some(edge) => {
                let src = edge.source;
                let tgt = edge.target;
                assert(m.edges[id] == edge@);
                match self.dag.out_edges.remove(&src) {
                    Some(list) => {
                        let nl = vec_without(&list, id);
                        self.dag.out_edges.insert(src, nl);
                    },
                    None => {},
                }
                match self.dag.in_edges.remove(&tgt) {
                    Some(list) => {
                        let nl = vec_without(&list, id);
                        self.dag.in_edges.insert(tgt, nl);
                    },
                    None => {},
                }
                let d = match self.dag.in_degree.get(&tgt) {
                    Some(d) => Some(*d),
                    None => None,
                };
                match d {
                    Some(d) => {
                        let nd: usize = if d > 0 { d - 1 } else { 0 };
                        self.dag.in_degree.insert(tgt, nd);
                    },
                    None => {},
                }
                self.probability_cache.remove(&id);
                proof {
                    let r = drop_edge(m, id);
                    assert(self.model().edges =~= r.edges);
                    assert(self.model().out =~= r.out);
                    assert(self.model().inn =~= r.inn);
                    assert(self.model().degree =~= r.degree);
                    assert(self.model().cache =~= r.cache);
                    assert(self.model().nodes =~= r.nodes);
                }
            },
            None => {
                assert(self.model().edges =~= m.edges);
            },
        }
    }

    /// Folds one event into the in-memory graph. Applying an event a second
    /// time changes nothing; every new event counts one version.
    pub fn apply_event(&mut self, event: &NarrativeEvent)
        requires
            old(self).can_apply(*event),
        ensures
            final(self).model() == applied(old(self).model(), *event),
            old(self).model().seen.contains(event.header().event_id) ==> final(self).model() == old(self).model(),
            final(self).story_id == old(self).story_id,
            event matches NarrativeEvent::EdgeLinked { edge_id, source_node_id, target_node_id, .. } ==> (
                old(self).safe_link(*edge_id, *source_node_id, *target_node_id)
                    ==> final(self).dag.wf() && final(self).dag.acyclic()),
    {
        let ghost m = self.model();
        let ghost od = self.dag;
        let event_id = event.meta().event_id;
        if self.applied_events.contains(&event_id) {
            return;
        }
        match event {
            NarrativeEvent::NodeCreated { node_id, node_type, title, .. } => {
                let node = DagNode { id: *node_id, node_type: node_type.clone(), title: clone_opt_string(title) };
                self.dag.nodes.insert(*node_id, node);
                if !self.dag.in_degree.contains_key(node_id) {
                    self.dag.in_degree.insert(*node_id, 0);
                }
                proof {
                    let r = applied(m, *event);
                    assert(self.model().nodes =~= r.nodes);
                    assert(self.model().degree =~= r.degree);
                }
            },
            NarrativeEvent::NodeDeleted { node_id, cascaded_edge_ids, .. } => {
                let mut i: usize = 0;
                while i < cascaded_edge_ids.len()
                    invariant
                        i <= cascaded_edge_ids@.len(),
                        self.model() == (GraphModel { version: m.version, ..drop_edges(m, cascaded_edge_ids@.take(i as int)) }),
                        self.story_id == old(self).story_id,
                        self.version == old(self).version,
                    decreases cascaded_edge_ids@.len() - i,
                {
                    assert(cascaded_edge_ids@.take(i as int + 1).drop_last() == cascaded_edge_ids@.take(i as int));
                    proof {
                        lemma_drop_edges_version(m, cascaded_edge_ids@.take(i as int));
                    }
                    self.drop_edge_in_place(cascaded_edge_ids[i]);
                    i += 1;
                }
                assert(cascaded_edge_ids@.take(cascaded_edge_ids@.len() as int) == cascaded_edge_ids@);
                self.dag.nodes.remove(node_id);
                self.dag.out_edges.remove(node_id);
                self.dag.in_edges.remove(node_id);
                self.dag.in_degree.remove(node_id);
                proof {
                    lemma_drop_edges_version(m, cascaded_edge_ids@);
                    let r = applied(m, *event);
                    assert(self.model().nodes =~= r.nodes);
                    assert(self.model().out =~= r.out);
                    assert(self.model().inn =~= r.inn);
                    assert(self.model().degree =~= r.degree);
                }
            },
            NarrativeEvent::NodeUpdated { node_id, title, .. } => {
                match title {
                    Some(t) => {
                        match self.dag.nodes.remove(node_id) {
                            Some(node) => {
                                let updated = DagNode { id: node.id, node_type: node.node_type, title: Some(t.clone()) };
                                self.dag.nodes.insert(*node_id, updated);
                                proof {
                                    let r = applied(m, *event);
                                    assert(self.model().nodes =~= r.nodes);
                                }
                            },
                            None => {
                                assert(self.model().nodes =~= m.nodes);
                            },
                        }
                    },
                    None => {},
                }
            },
            NarrativeEvent::EdgeLinked { edge_id, source_node_id, target_node_id, edge_type, probability, .. } => {
                let edge = DagEdge {
                    id: *edge_id,
                    source: *source_node_id,
                    target: *target_node_id,
                    edge_type: edge_type.clone(),
                    probability: *probability,
                    observer_weight: 0,
                };
                self.dag.edges.insert(*edge_id, edge);
                let mut outs = match self.dag.out_edges.remove(source_node_id) {
                    Some(v) => v,
                    None => Vec::new(),
                };
                outs.push(*edge_id);
                self.dag.out_edges.insert(*source_node_id, outs);
                let mut ins = match self.dag.in_edges.remove(target_node_id) {
                    Some(v) => v,
                    None => Vec::new(),
                };
                ins.push(*edge_id);
                self.dag.in_edges.insert(*target_node_id, ins);
                let d: usize = match self.dag.in_degree.get(target_node_id) {
                    Some(d) => *d,
                    None => 0,
                };
                self.dag.in_degree.insert(*target_node_id, d + 1);
                self.probability_cache.insert(*edge_id, *probability);
                proof {
                    let src = *source_node_id;
                    let tgt = *target_node_id;
                    let id = *edge_id;
                    if old(self).safe_link(id, src, tgt) {
                        assert forall|k: u128| #[trigger] self.dag.out_list(k) == (if k == src { od.out_list(src).push(id) } else { od.out_list(k) }) by {}
                        assert forall|k: u128| #[trigger] self.dag.in_list(k) == (if k == tgt { od.in_list(tgt).push(id) } else { od.in_list(k) }) by {}
                        crate::dag::graph::lemma_add_edge_wf(od, self.dag, src, tgt, id);
                        crate::dag::graph::lemma_add_edge_acyclic(od, self.dag, src, tgt, id);
                    }
                    let r = applied(m, *event);
                    assert(self.model().edges =~= r.edges);
                    assert(self.model().out =~= r.out);
                    assert(self.model().inn =~= r.inn);
                    assert(self.model().degree =~= r.degree);
                    assert(self.model().cache =~= r.cache);
                }
            },
            NarrativeEvent::EdgeUpdated { edge_id, probability, observer_weight, .. } => {
                match self.dag.edges.remove(edge_id) {
                    Some(edge) => {
                        let p = match probability {
                            Some(p) => *p,
                            None => edge.probability,
                        };
                        let w = match observer_weight {
                            Some(w) => *w,
                            None => edge.observer_weight,
                        };
                        let updated = DagEdge {
                            id: edge.id,
                            source: edge.source,
                            target: edge.target,
                            edge_type: edge.edge_type,
                            probability: p,
                            observer_weight: w,
                        };
                        self.dag.edges.insert(*edge_id, updated);
                        match probability {
                            Some(p) => {
                                self.probability_cache.insert(*edge_id, *p);
                            },
                            None => {},
                        }
                        proof {
                            let r = applied(m, *event);
                            assert(self.model().edges =~= r.edges);
                            assert(self.model().cache =~= r.cache);
                        }
                    },
                    None => {
                        assert(self.model().edges =~= m.edges);
                    },
                }
            },
            NarrativeEvent::EdgeDeleted { edge_id, .. } => {
                self.drop_edge_in_place(*edge_id);
            },
            NarrativeEvent::BranchCollapsed { shifts, .. } => {
                let mut i: usize = 0;
                while i < shifts.len()
                    invariant
                        i <= shifts@.len(),
                        self.model() == apply_shifts(m, shifts@.take(i as int)),
                        self.story_id == old(self).story_id,
                        self.version == old(self).version,
                    decreases shifts@.len() - i,
                {
                    assert(shifts@.take(i as int + 1).drop_last() == shifts@.take(i as int));
                    let ghost before = self.model();
                    let sid = shifts[i].edge_id;
                    let after = shifts[i].probability_after;
                    match self.dag.edges.remove(&sid) {
                        Some(edge) => {
                            let updated = DagEdge {
                                id: edge.id,
                                source: edge.source,
                                target: edge.target,
                                edge_type: edge.edge_type,
                                probability: after,
                                observer_weight: 0,
                            };
                            self.dag.edges.insert(sid, updated);
                            self.probability_cache.insert(sid, after);
                            proof {
                                let r = apply_shift(before, shifts@[i as int]);
                                assert(self.model().edges =~= r.edges);
                                assert(self.model().cache =~= r.cache);
                            }
                        },
                        None => {
                            assert(self.model().edges =~= before.edges);
                        },
                    }
                    i += 1;
                }
                assert(shifts@.take(shifts@.len() as int) == shifts@);
                proof {
                    lemma_apply_shifts_frame(m, shifts@);
                }
            },
            NarrativeEvent::CheckpointCreated { .. } => {},
            NarrativeEvent::BranchRolledBack { .. } => {},
        }
        self.version = self.version + 1;
        self.applied_events.insert(event_id);
        proof {
            assert(self.model().seen =~= m.seen.insert(event_id));
        }
    }
}

/// What a command handler decided: the events of an accepted command, or a
/// collapse that still needs its branch scores.
#[derive(Debug)]
pub enum CommandOutcome {
    Events(Vec<NarrativeEvent>),
    Collapse(CollapsePlan),
}

/// An edge leaving the collapsing node, with its current weights.
#[derive(Debug)]
pub struct CollapseCandidate {
    pub edge_id: u128,
    pub probability: u64,
    pub observer_weight: u64,
}

/// A collapse that passed validation: the node, the reader, the signal and
/// the stored edges leaving the node, in index order.
#[derive(Debug)]
pub struct CollapsePlan {
    pub node_id: u128,
    pub reader_id: u128,
    pub signal: ObserverSignalPayload,
    pub candidates: Vec<CollapseCandidate>,
}

/// The probability an edge takes after the collapse, with the explanation
/// recorded for it.
#[derive(Debug)]
pub struct CollapseScore {
    pub probability_after: u64,
    pub reason: String,
}

pub open spec fn msg_empty_node_type() -> Seq<char> {
    "node_type 不能为空"@
}

pub open spec fn msg_invalid_node_type(t: Seq<char>) -> Seq<char> {
    "无效的 node_type: "@ + t
        + "，合法值: [\"scene\", \"dialogue\", \"decision\", \"combat\", \"transition\", \"system_event\"]"@
}

pub open spec fn msg_invalid_edge_type(t: Seq<char>) -> Seq<char> {
    "无效的 edge_type: "@ + t + "，合法值: [\"causal\", \"branch\", \"parallel\", \"temporal\", \"conditional\"]"@
}

pub open spec fn msg_no_out_edges(node: u128) -> Seq<char> {
    "节点 "@ + hyphenated(node) + " 没有出边，无法坍缩"@
}

pub open spec fn msg_no_collapse_path() -> Seq<char> {
    "无法确定坍缩路径"@
}

/// A fresh header for an event of story `story` caused by `actor`.
pub open spec fn fresh_meta(m: EventMetadata, story: u128, actor: u128) -> bool {
    m.story_id == story && m.actor_id == actor && is_random_uuid(m.event_id)
}

/// The stored edges among `ids`, in order, with their weights.
pub open spec fn candidates_of(edges: Map<u128, DagEdgeView>, ids: Seq<u128>) -> Seq<(u128, u64, u64)>
    decreases ids.len(),
{
    if ids.len() == 0 {
        Seq::empty()
    } else {
        let rest = candidates_of(edges, ids.drop_last());
        let e = ids.last();
        if edges.contains_key(e) {
            rest.push((e, edges[e].probability, edges[e].observer_weight))
        } else {
            rest
        }
    }
}

/// A candidate as a plain triple.
pub open spec fn cand_triple(c: CollapseCandidate) -> (u128, u64, u64) {
    (c.edge_id, c.probability, c.observer_weight)
}

/// Index `b` of `a` is the collapse choice: a non-NaN value above negative
/// infinity, at least every non-NaN value, and above every non-NaN value
/// before it.
pub open spec fn is_choice(a: Seq<u64>, b: int) -> bool {
    &&& 0 <= b < a.len()
    &&& float_gt(a[b], FLOAT_NEG_INFINITY)
    &&& forall|j: int| 0 <= j < a.len() && !is_nan(#[trigger] a[j]) ==> order_key(a[j]) <= order_key(a[b])
    &&& forall|j: int| 0 <= j < b && !is_nan(#[trigger] a[j]) ==> order_key(a[j]) < order_key(a[b])
}

/// Some value of `a` is a non-NaN value above negative infinity.
pub open spec fn has_choice(a: Seq<u64>) -> bool {
    exists|j: int| 0 <= j < a.len() && #[trigger] float_gt(a[j], FLOAT_NEG_INFINITY)
}

impl NarrativeGraph {
    /// The outcome of a node-creation command.
    pub open spec fn create_node_decided(&self, c: CreateNodeCommand, actor: u128, r: Result<Vec<NarrativeEvent>, AggregateError>) -> bool {
        if c.story_id != self.story_id {
            r == Err::<Vec<NarrativeEvent>, AggregateError>(AggregateError::StoryMismatch { expected: self.story_id, got: c.story_id })
        } else if c.node_type@.len() == 0 {
            r matches Err(AggregateError::ValidationError(m)) && m@ == msg_empty_node_type()
        } else if node_type_of(c.node_type@) is None {
            r matches Err(AggregateError::ValidationError(m)) && m@ == msg_invalid_node_type(c.node_type@)
        } else {
            &&& r matches Ok(v) && v@.len() == 1
            &&& r->Ok_0@[0] matches NarrativeEvent::NodeCreated { meta, node_id, node_type, title, content, position_x, position_y, metadata }
                && fresh_meta(meta, self.story_id, actor) && is_random_uuid(node_id) && node_type == c.node_type
                && title == c.title && content == c.content && position_x == c.position_x
                && position_y == c.position_y && (c.metadata matches Some(md) ==> metadata == md)
        }
    }

    /// The outcome of a node-update command.
    pub open spec fn update_node_decided(&self, c: UpdateNodeCommand, actor: u128, r: Result<Vec<NarrativeEvent>, AggregateError>) -> bool {
        if !self.dag.nodes@.contains_key(c.node_id) {
            r == Err::<Vec<NarrativeEvent>, AggregateError>(AggregateError::NodeNotFound(c.node_id))
        } else {
            &&& r matches Ok(v) && v@.len() == 1
            &&& r->Ok_0@[0] matches NarrativeEvent::NodeUpdated { meta, node_id, title, content, position_x, position_y, metadata }
                && fresh_meta(meta, self.story_id, actor) && node_id == c.node_id && title == c.title
                && content == c.content && position_x == c.position_x && position_y == c.position_y
                && metadata == c.metadata
        }
    }

    /// The outcome of a node-deletion command: the cascade lists the node's
    /// outgoing edges, then its incoming ones.
    pub open spec fn delete_node_decided(&self, c: DeleteNodeCommand, actor: u128, r: Result<Vec<NarrativeEvent>, AggregateError>) -> bool {
        if !self.dag.nodes@.contains_key(c.node_id) {
            r == Err::<Vec<NarrativeEvent>, AggregateError>(AggregateError::NodeNotFound(c.node_id))
        } else {
            &&& r matches Ok(v) && v@.len() == 1
            &&& r->Ok_0@[0] matches NarrativeEvent::NodeDeleted { meta, node_id, cascaded_edge_ids }
                && fresh_meta(meta, self.story_id, actor) && node_id == c.node_id
                && cascaded_edge_ids@ == self.dag.out_list(c.node_id) + self.dag.in_list(c.node_id)
        }
    }

    /// The outcome of an edge-link command.
    pub open spec fn link_edge_decided(&self, c: LinkEdgeCommand, actor: u128, r: Result<Vec<NarrativeEvent>, AggregateError>) -> bool {
        if !self.dag.nodes@.contains_key(c.source_node_id) {
            r == Err::<Vec<NarrativeEvent>, AggregateError>(AggregateError::NodeNotFound(c.source_node_id))
        } else if !self.dag.nodes@.contains_key(c.target_node_id) {
            r == Err::<Vec<NarrativeEvent>, AggregateError>(AggregateError::NodeNotFound(c.target_node_id))
        } else if self.dag.closes_cycle(c.source_node_id, c.target_node_id) {
            r matches Err(AggregateError::CycleDetected(a, b)) && a@ == hyphenated(c.source_node_id)
                && b@ == hyphenated(c.target_node_id)
        } else if outside_unit_interval(c.probability) {
            r == Err::<Vec<NarrativeEvent>, AggregateError>(AggregateError::InvalidProbability(c.probability))
        } else if edge_type_of(c.edge_type@) is None {
            r matches Err(AggregateError::ValidationError(m)) && m@ == msg_invalid_edge_type(c.edge_type@)
        } else {
            &&& r matches Ok(v) && v@.len() == 1
            &&& r->Ok_0@[0] matches NarrativeEvent::EdgeLinked { meta, edge_id, source_node_id, target_node_id, edge_type, probability, reward_signal, conditions }
                && fresh_meta(meta, self.story_id, actor) && is_random_uuid(edge_id)
                && source_node_id == c.source_node_id && target_node_id == c.target_node_id
                && edge_type == c.edge_type && probability == c.probability
                && reward_signal == (match c.reward_signal { Some(w) => w, None => FLOAT_ZERO })
                && (c.conditions matches Some(cd) ==> conditions == cd)
        }
    }

    /// The outcome of an edge-update command.
    pub open spec fn update_edge_decided(&self, c: UpdateEdgeCommand, actor: u128, r: Result<Vec<NarrativeEvent>, AggregateError>) -> bool {
        if !self.dag.edges@.contains_key(c.edge_id) {
            r == Err::<Vec<NarrativeEvent>, AggregateError>(AggregateError::EdgeNotFound(c.edge_id))
        } else if c.probability matches Some(p) && outside_unit_interval(p) {
            r == Err::<Vec<NarrativeEvent>, AggregateError>(AggregateError::InvalidProbability(c.probability->0))
        } else {
            &&& r matches Ok(v) && v@.len() == 1
            &&& r->Ok_0@[0] matches NarrativeEvent::EdgeUpdated { meta, edge_id, probability, reward_signal, observer_weight }
                && fresh_meta(meta, self.story_id, actor) && edge_id == c.edge_id && probability == c.probability
                && reward_signal == c.reward_signal && observer_weight == c.observer_weight
        }
    }

    /// The outcome of an edge-deletion command.
    pub open spec fn delete_edge_decided(&self, c: DeleteEdgeCommand, actor: u128, r: Result<Vec<NarrativeEvent>, AggregateError>) -> bool {
        if !self.dag.edges@.contains_key(c.edge_id) {
            r == Err::<Vec<NarrativeEvent>, AggregateError>(AggregateError::EdgeNotFound(c.edge_id))
        } else {
            &&& r matches Ok(v) && v@.len() == 1
            &&& r->Ok_0@[0] matches NarrativeEvent::EdgeDeleted { meta, edge_id }
                && fresh_meta(meta, self.story_id, actor) && edge_id == c.edge_id
        }
    }

    /// The outcome of a checkpoint command.
    pub open spec fn checkpoint_decided(&self, c: CreateCheckpointCommand, actor: u128, r: Result<Vec<NarrativeEvent>, AggregateError>) -> bool {
        if !self.dag.nodes@.contains_key(c.node_id) {
            r == Err::<Vec<NarrativeEvent>, AggregateError>(AggregateError::NodeNotFound(c.node_id))
        } else {
            &&& r matches Ok(v) && v@.len() == 1
            &&& r->Ok_0@[0] matches NarrativeEvent::CheckpointCreated { meta, checkpoint_id, node_id, checkpoint_type, world_state }
                && fresh_meta(meta, self.story_id, actor) && is_random_uuid(checkpoint_id)
                && node_id == c.node_id && checkpoint_type == c.checkpoint_type && world_state == c.world_state
        }
    }

    /// The outcome of a rollback command: always accepted, recorded from the
    /// nil snapshot at depth 0.
    pub open spec fn rollback_decided(&self, c: RollbackCommand, actor: u128, r: Result<Vec<NarrativeEvent>, AggregateError>) -> bool {
        &&& r matches Ok(v) && v@.len() == 1
        &&& r->Ok_0@[0] matches NarrativeEvent::BranchRolledBack { meta, checkpoint_id, rollback_from, timeline_depth }
            && fresh_meta(meta, self.story_id, actor) && checkpoint_id == c.checkpoint_id && rollback_from == 0
            && timeline_depth == 0
    }

    /// The outcome of the validating half of a collapse.
    pub open spec fn collapse_planned(&self, c: CollapseBranchCommand, r: Result<CollapsePlan, AggregateError>) -> bool {
        if !self.dag.nodes@.contains_key(c.node_id) {
            r == Err::<CollapsePlan, AggregateError>(AggregateError::NodeNotFound(c.node_id))
        } else if self.dag.out_list(c.node_id).len() == 0 {
            r matches Err(AggregateError::ValidationError(m)) && m@ == msg_no_out_edges(c.node_id)
        } else {
            r matches Ok(p) && p.node_id == c.node_id && p.reader_id == c.reader_id && p.signal == c.signal
                && p.candidates@.map_values(|x: CollapseCandidate| cand_triple(x))
                    == candidates_of(self.dag.edge_map(), self.dag.out_list(c.node_id))
        }
    }

    /// The outcome of any command other than a collapse.
    pub open spec fn decided(&self, command: NarrativeCommand, actor: u128, r: Result<Vec<NarrativeEvent>, AggregateError>) -> bool {
        match command {
            NarrativeCommand::CreateNode(c) => self.create_node_decided(c, actor, r),
            NarrativeCommand::UpdateNode(c) => self.update_node_decided(c, actor, r),
            NarrativeCommand::DeleteNode(c) => self.delete_node_decided(c, actor, r),
            NarrativeCommand::LinkEdge(c) => self.link_edge_decided(c, actor, r),
            NarrativeCommand::UpdateEdge(c) => self.update_edge_decided(c, actor, r),
            NarrativeCommand::DeleteEdge(c) => self.delete_edge_decided(c, actor, r),
            NarrativeCommand::CreateCheckpoint(c) => self.checkpoint_decided(c, actor, r),
            NarrativeCommand::Rollback(c) => self.rollback_decided(c, actor, r),
            NarrativeCommand::CollapseBranch(_) => false,
        }
    }
}

/// Whether a label names a node kind.
fn is_node_type_label(s: &String) -> (r: bool)
    ensures
        r == (node_type_of(s@) is Some),
{
    let v = s.as_str();
    str_is(v, "scene") || str_is(v, "dialogue") || str_is(v, "decision") || str_is(v, "combat")
        || str_is(v, "transition") || str_is(v, "system_event")
}

/// Whether a label names an edge kind.
fn is_edge_type_label(s: &String) -> (r: bool)
    ensures
        r == (edge_type_of(s@) is Some),
{
    let v = s.as_str();
    str_is(v, "causal") || str_is(v, "branch") || str_is(v, "parallel") || str_is(v, "temporal")
        || str_is(v, "conditional")
}

/// A one-event list.
fn single(e: NarrativeEvent) -> (v: Vec<NarrativeEvent>)
    ensures
        v@ == seq![e],
{
    let mut v = Vec::new();
    v.push(e);
    v
}

impl NarrativeGraph {
    fn handle_create_node(&self, cmd: CreateNodeCommand, actor_id: u128) -> (r: Result<Vec<NarrativeEvent>, AggregateError>)
        ensures
            self.create_node_decided(cmd, actor_id, r),
    {
        if cmd.story_id != self.story_id {
            return Err(AggregateError::StoryMismatch { expected: self.story_id, got: cmd.story_id });
        }
        if cmd.node_type.as_str().is_empty() {
            return Err(AggregateError::ValidationError(String::from_str("node_type 不能为空")));
        }
        if !is_node_type_label(&cmd.node_type) {
            let msg = String::from_str("无效的 node_type: ").concat(cmd.node_type.as_str()).concat(
                "，合法值: [\"scene\", \"dialogue\", \"decision\", \"combat\", \"transition\", \"system_event\"]",
            );
            return Err(AggregateError::ValidationError(msg));
        }
        let node_id = new_id();
        let meta = EventMetadata::new(self.story_id, actor_id);
        let metadata = match cmd.metadata {
            Some(v) => v,
            None => json_null(),
        };
        Ok(single(NarrativeEvent::NodeCreated {
            meta,
            node_id,
            node_type: cmd.node_type,
            title: cmd.title,
            content: cmd.content,
            position_x: cmd.position_x,
            position_y: cmd.position_y,
            metadata,
        }))
    }

    fn handle_update_node(&self, cmd: UpdateNodeCommand, actor_id: u128) -> (r: Result<Vec<NarrativeEvent>, AggregateError>)
        ensures
            self.update_node_decided(cmd, actor_id, r),
    {
        if !self.dag.nodes.contains_key(&cmd.node_id) {
            return Err(AggregateError::NodeNotFound(cmd.node_id));
        }
        let meta = EventMetadata::new(self.story_id, actor_id);
        Ok(single(NarrativeEvent::NodeUpdated {
            meta,
            node_id: cmd.node_id,
            title: cmd.title,
            content: cmd.content,
            position_x: cmd.position_x,
            position_y: cmd.position_y,
            metadata: cmd.metadata,
        }))
    }

    fn handle_delete_node(&self, cmd: DeleteNodeCommand, actor_id: u128) -> (r: Result<Vec<NarrativeEvent>, AggregateError>)
        ensures
            self.delete_node_decided(cmd, actor_id, r),
    {
        if !self.dag.nodes.contains_key(&cmd.node_id) {
            return Err(AggregateError::NodeNotFound(cmd.node_id));
        }
        let mut cascaded_edge_ids: Vec<u128> = Vec::new();
        match self.dag.out_edges.get(&cmd.node_id) {
            Some(outs) => {
                append_ids(&mut cascaded_edge_ids, outs);
            },
            None => {},
        }
        match self.dag.in_edges.get(&cmd.node_id) {
            Some(ins) => {
                append_ids(&mut cascaded_edge_ids, ins);
            },
            None => {},
        }
        assert(cascaded_edge_ids@ =~= self.dag.out_list(cmd.node_id) + self.dag.in_list(cmd.node_id));
        let meta = EventMetadata::new(self.story_id, actor_id);
        Ok(single(NarrativeEvent::NodeDeleted { meta, node_id: cmd.node_id, cascaded_edge_ids }))
    }

    fn handle_link_edge(&self, cmd: LinkEdgeCommand, actor_id: u128) -> (r: Result<Vec<NarrativeEvent>, AggregateError>)
        ensures
            self.link_edge_decided(cmd, actor_id, r),
    {
        if !self.dag.nodes.contains_key(&cmd.source_node_id) {
            return Err(AggregateError::NodeNotFound(cmd.source_node_id));
        }
        if !self.dag.nodes.contains_key(&cmd.target_node_id) {
            return Err(AggregateError::NodeNotFound(cmd.target_node_id));
        }
        if self.dag.would_create_cycle(cmd.source_node_id, cmd.target_node_id) {
            return Err(AggregateError::CycleDetected(id_to_string(cmd.source_node_id), id_to_string(cmd.target_node_id)));
        }
        if probability_out_of_range(cmd.probability) {
            return Err(AggregateError::InvalidProbability(cmd.probability));
        }
        if !is_edge_type_label(&cmd.edge_type) {
            let msg = String::from_str("无效的 edge_type: ").concat(cmd.edge_type.as_str()).concat(
                "，合法值: [\"causal\", \"branch\", \"parallel\", \"temporal\", \"conditional\"]",
            );
            return Err(AggregateError::ValidationError(msg));
        }
        let edge_id = new_id();
        let meta = EventMetadata::new(self.story_id, actor_id);
        let reward_signal = match cmd.reward_signal {
            Some(w) => w,
            None => FLOAT_ZERO,
        };
        let conditions = match cmd.conditions {
            Some(c) => c,
            None => json_null(),
        };
        Ok(single(NarrativeEvent::EdgeLinked {
            meta,
            edge_id,
            source_node_id: cmd.source_node_id,
            target_node_id: cmd.target_node_id,
            edge_type: cmd.edge_type,
            probability: cmd.probability,
            reward_signal,
            conditions,
        }))
    }

    fn handle_update_edge(&self, cmd: UpdateEdgeCommand, actor_id: u128) -> (r: Result<Vec<NarrativeEvent>, AggregateError>)
        ensures
            self.update_edge_decided(cmd, actor_id, r),
    {
        if !self.dag.edges.contains_key(&cmd.edge_id) {
            return Err(AggregateError::EdgeNotFound(cmd.edge_id));
        }
        match cmd.probability {
            Some(p) => {
                if probability_out_of_range(p) {
                    return Err(AggregateError::InvalidProbability(p));
                }
            },
            None => {},
        }
        let meta = EventMetadata::new(self.story_id, actor_id);
        Ok(single(NarrativeEvent::EdgeUpdated {
            meta,
            edge_id: cmd.edge_id,
            probability: cmd.probability,
            reward_signal: cmd.reward_signal,
            observer_weight: cmd.observer_weight,
        }))
    }

    fn handle_delete_edge(&self, cmd: DeleteEdgeCommand, actor_id: u128) -> (r: Result<Vec<NarrativeEvent>, AggregateError>)
        ensures
            self.delete_edge_decided(cmd, actor_id, r),
    {
        if !self.dag.edges.contains_key(&cmd.edge_id) {
            return Err(AggregateError::EdgeNotFound(cmd.edge_id));
        }
        let meta = EventMetadata::new(self.story_id, actor_id);
        Ok(single(NarrativeEvent::EdgeDeleted { meta, edge_id: cmd.edge_id }))
    }

    fn handle_checkpoint(&self, cmd: CreateCheckpointCommand, actor_id: u128) -> (r: Result<Vec<NarrativeEvent>, AggregateError>)
        ensures
            self.checkpoint_decided(cmd, actor_id, r),
    {
        if !self.dag.nodes.contains_key(&cmd.node_id) {
            return Err(AggregateError::NodeNotFound(cmd.node_id));
        }
        let checkpoint_id = new_id();
        let meta = EventMetadata::new(self.story_id, actor_id);
        Ok(single(NarrativeEvent::CheckpointCreated {
            meta,
            checkpoint_id,
            node_id: cmd.node_id,
            checkpoint_type: cmd.checkpoint_type,
            world_state: cmd.world_state,
        }))
    }

    fn handle_rollback(&self, cmd: RollbackCommand, actor_id: u128) -> (r: Result<Vec<NarrativeEvent>, AggregateError>)
        ensures
            self.rollback_decided(cmd, actor_id, r),
    {
        let meta = EventMetadata::new(self.story_id, actor_id);
        Ok(single(NarrativeEvent::BranchRolledBack {
            meta,
            checkpoint_id: cmd.checkpoint_id,
            rollback_from: NIL_ID,
            timeline_depth: 0,
        }))
    }
}

/// Appends a list of ids to another.
fn append_ids(dst: &mut Vec<u128>, src: &Vec<u128>)
    ensures
        final(dst)@ == old(dst)@ + src@,
{
    let mut i: usize = 0;
    while i < src.len()
        invariant
            i <= src@.len(),
            dst@ == old(dst)@ + src@.take(i as int),
        decreases src@.len() - i,
    {
        dst.push(src[i]);
        i += 1;
        assert(src@.take(i as int) == src@.take(i as int - 1).push(src@[i as int - 1]));
    }
    assert(src@.take(src@.len() as int) == src@);
}

impl NarrativeGraph {
    /// The validating half of a collapse: the node must exist and have
    /// outgoing edges; the plan lists the stored ones with their weights.
    pub fn plan_collapse(&self, cmd: CollapseBranchCommand) -> (r: Result<CollapsePlan, AggregateError>)
        ensures
            self.collapse_planned(cmd, r),
    {
        if !self.dag.nodes.contains_key(&cmd.node_id) {
            return Err(AggregateError::NodeNotFound(cmd.node_id));
        }
        let ids: &Vec<u128> = match self.dag.out_edges.get(&cmd.node_id) {
            Some(v) => v,
            None => {
                let msg = String::from_str("节点 ").concat(id_to_string(cmd.node_id).as_str()).concat(" 没有出边，无法坍缩");
                return Err(AggregateError::ValidationError(msg));
            },
        };
        if ids.len() == 0 {
            let msg = String::from_str("节点 ").concat(id_to_string(cmd.node_id).as_str()).concat(" 没有出边，无法坍缩");
            return Err(AggregateError::ValidationError(msg));
        }
        let mut candidates: Vec<CollapseCandidate> = Vec::new();
        let mut i: usize = 0;
        while i < ids.len()
            invariant
                i <= ids@.len(),
                ids@ == self.dag.out_list(cmd.node_id),
                candidates@.map_values(|x: CollapseCandidate| cand_triple(x))
                    == candidates_of(self.dag.edge_map(), ids@.take(i as int)),
            decreases ids@.len() - i,
        {
            let ghost before = candidates@;
            assert(ids@.take(i as int + 1).drop_last() == ids@.take(i as int));
            let eid = ids[i];
            match self.dag.edges.get(&eid) {
                Some(edge) => {
                    candidates.push(CollapseCandidate {
                        edge_id: eid,
                        probability: edge.probability,
                        observer_weight: edge.observer_weight,
                    });
                    assert(candidates@.map_values(|x: CollapseCandidate| cand_triple(x))
                        =~= before.map_values(|x: CollapseCandidate| cand_triple(x)).push(cand_triple(candidates@.last())));
                },
                None => {},
            }
            i += 1;
        }
        assert(ids@.take(ids@.len() as int) == ids@);
        Ok(CollapsePlan { node_id: cmd.node_id, reader_id: cmd.reader_id, signal: cmd.signal, candidates })
    }

    /// The deciding half of a collapse: each candidate takes the scored
    /// probability, and the collapsed path is the candidate chosen by
    /// `is_choice` over the scored probabilities.
    #[verifier::spinoff_prover]
    #[verifier::rlimit(40)]
    pub fn complete_collapse(&self, plan: CollapsePlan, scores: Vec<CollapseScore>, actor_id: u128) -> (r: Result<Vec<NarrativeEvent>, AggregateError>)
        requires
            scores@.len() == plan.candidates@.len(),
        ensures
            ({
                let a = scores@.map_values(|x: CollapseScore| x.probability_after);
                if !has_choice(a) {
                    r matches Err(AggregateError::ValidationError(m)) && m@ == msg_no_collapse_path()
                } else {
                    &&& r matches Ok(v) && v@.len() == 1
                    &&& r->Ok_0@[0] matches NarrativeEvent::BranchCollapsed { meta, node_id, reader_id, signal, shifts, collapsed_path_id }
                        && fresh_meta(meta, self.story_id, actor_id) && node_id == plan.node_id
                        && reader_id == plan.reader_id && signal.valence == plan.signal.valence
                        && signal.arousal == plan.signal.arousal && signal.dominance == plan.signal.dominance
                        && signal.gaze_duration_ms == plan.signal.gaze_duration_ms
                        && signal.focused_entity_id == plan.signal.focused_entity_id
                        && shifts@.len() == plan.candidates@.len()
                        && (forall|i: int| 0 <= i < shifts@.len() ==> {
                            &&& #[trigger] shifts@[i].edge_id == plan.candidates@[i].edge_id
                            &&& shifts@[i].probability_before == plan.candidates@[i].probability
                            &&& shifts@[i].probability_after == scores@[i].probability_after
                            &&& shifts@[i].reason@ == scores@[i].reason@
                        })
                        && (exists|b: int| is_choice(a, b) && collapsed_path_id == plan.candidates@[b].edge_id)
                }
            }),
    {
        let ghost a = scores@.map_values(|x: CollapseScore| x.probability_after);
        let mut shifts: Vec<ProbabilityShift> = Vec::new();
        let mut best: Option<usize> = None;
        let mut best_score: u64 = FLOAT_NEG_INFINITY;
        let mut i: usize = 0;
        while i < scores.len()
            invariant
                i <= scores@.len(),
                scores@.len() == plan.candidates@.len(),
                a == scores@.map_values(|x: CollapseScore| x.probability_after),
                shifts@.len() == i,
                forall|k: int| 0 <= k < i ==> {
                    &&& #[trigger] shifts@[k].edge_id == plan.candidates@[k].edge_id
                    &&& shifts@[k].probability_before == plan.candidates@[k].probability
                    &&& shifts@[k].probability_after == scores@[k].probability_after
                    &&& shifts@[k].reason@ == scores@[k].reason@
                },
                best is None ==> best_score == FLOAT_NEG_INFINITY
                    && forall|j: int| 0 <= j < i ==> !float_gt(#[trigger] a[j], FLOAT_NEG_INFINITY),
                best matches Some(b) ==> b < i && is_choice(a.take(i as int), b as int) && best_score == a[b as int],
            decreases scores@.len() - i,
        {
            let after = scores[i].probability_after;
            shifts.push(ProbabilityShift {
                edge_id: plan.candidates[i].edge_id,
                probability_before: plan.candidates[i].probability,
                probability_after: after,
                reason: scores[i].reason.clone(),
            });
            proof {
                assert(a[i as int] == after);
            }
            if float_greater(after, best_score) {
                best_score = after;
                best = Some(i);
                proof {
                    assert forall|j: int| 0 <= j < i + 1 && !is_nan(#[trigger] a.take(i as int + 1)[j])
                        implies order_key(a.take(i as int + 1)[j]) <= order_key(a.take(i as int + 1)[i as int]) by {
                        if j < i {
                            assert(a.take(i as int)[j] == a[j]);
                        }
                    }
                    assert forall|j: int| 0 <= j < i && !is_nan(#[trigger] a.take(i as int + 1)[j])
                        implies order_key(a.take(i as int + 1)[j]) < order_key(a.take(i as int + 1)[i as int]) by {
                        assert(a.take(i as int)[j] == a[j]);
                    }
                }
            } else {
                proof {
                    match best {
                        Some(b) => {
                            assert forall|j: int| 0 <= j < i + 1 && !is_nan(#[trigger] a.take(i as int + 1)[j])
                                implies order_key(a.take(i as int + 1)[j]) <= order_key(a.take(i as int + 1)[b as int]) by {
                                if j < i {
                                    assert(a.take(i as int)[j] == a[j]);
                                }
                            }
                            assert forall|j: int| 0 <= j < b && !is_nan(#[trigger] a.take(i as int + 1)[j])
                                implies order_key(a.take(i as int + 1)[j]) < order_key(a.take(i as int + 1)[b as int]) by {
                                assert(a.take(i as int)[j] == a[j]);
                            }
                        },
                        None => {},
                    }
                }
            }
            i += 1;
        }
        assert(a.take(a.len() as int) == a);
        match best {
            Some(b) => {
                let meta = EventMetadata::new(self.story_id, actor_id);
                let collapsed_path_id = plan.candidates[b].edge_id;
                let signal = ObserverSignalEvent {
                    valence: plan.signal.valence,
                    arousal: plan.signal.arousal,
                    dominance: plan.signal.dominance,
                    gaze_duration_ms: plan.signal.gaze_duration_ms,
                    focused_entity_id: plan.signal.focused_entity_id,
                };
                Ok(single(NarrativeEvent::BranchCollapsed {
                    meta,
                    node_id: plan.node_id,
                    reader_id: plan.reader_id,
                    signal,
                    shifts,
                    collapsed_path_id,
                }))
            },
            None => Err(AggregateError::ValidationError(String::from_str("无法确定坍缩路径"))),
        }
    }

    /// Decides a command. A collapse comes back as a plan that still needs
    /// its branch scores (see `complete_collapse`); every other command comes
    /// back as its events or its refusal.
    pub fn handle_command(&self, command: NarrativeCommand, actor_id: u128) -> (r: Result<CommandOutcome, AggregateError>)
        ensures
            match command {
                NarrativeCommand::CollapseBranch(c) => match r {
                    Ok(CommandOutcome::Collapse(p)) => self.collapse_planned(c, Ok(p)),
                    Err(e) => self.collapse_planned(c, Err(e)),
                    Ok(CommandOutcome::Events(_)) => false,
                },
                _ => match r {
                    Ok(CommandOutcome::Events(v)) => self.decided(command, actor_id, Ok(v)),
                    Err(e) => self.decided(command, actor_id, Err(e)),
                    Ok(CommandOutcome::Collapse(_)) => false,
                },
            },
    {
        let events = match command {
            NarrativeCommand::CreateNode(cmd) => self.handle_create_node(cmd, actor_id),
            NarrativeCommand::UpdateNode(cmd) => self.handle_update_node(cmd, actor_id),
            NarrativeCommand::DeleteNode(cmd) => self.handle_delete_node(cmd, actor_id),
            NarrativeCommand::LinkEdge(cmd) => self.handle_link_edge(cmd, actor_id),
            NarrativeCommand::UpdateEdge(cmd) => self.handle_update_edge(cmd, actor_id),
            NarrativeCommand::DeleteEdge(cmd) => self.handle_delete_edge(cmd, actor_id),
            NarrativeCommand::CollapseBranch(cmd) => {
                return match self.plan_collapse(cmd) {
                    Ok(p) => Ok(CommandOutcome::Collapse(p)),
                    Err(e) => Err(e),
                };
            },
            NarrativeCommand::CreateCheckpoint(cmd) => self.handle_checkpoint(cmd, actor_id),
            NarrativeCommand::Rollback(cmd) => self.handle_rollback(cmd, actor_id),
        };
        match events {
            Ok(v) => Ok(CommandOutcome::Events(v)),
            Err(e) => Err(e),
        }
    }
}

/// No in-degree exceeds the number of events folded in so far.
pub open spec fn degrees_bounded(m: GraphModel) -> bool {
    forall|k: u128| #[trigger] m.degree.contains_key(k) ==> m.degree[k] <= m.version
}

impl NarrativeGraph {
    /// Rebuilds a story's graph by folding its events in order.
    pub fn replay(story_id: u128, events: &[NarrativeEvent]) -> (g: Self)
        requires
            events@.len() < u64::MAX,
        ensures
            g.story_id == story_id,
            g.model() == replayed(empty_model(), events@),
    {
        let mut graph = NarrativeGraph::new(story_id);
        let mut i: usize = 0;
        while i < events.len()
            invariant
                i <= events@.len(),
                events@.len() < u64::MAX,
                graph.story_id == story_id,
                graph.model() == replayed(empty_model(), events@.take(i as int)),
                0 <= graph.model().version <= i,
                degrees_bounded(graph.model()),
            decreases events@.len() - i,
        {
            assert(events@.take(i as int + 1).drop_last() == events@.take(i as int));
            proof {
                lemma_applied_bounded(graph.model(), events@[i as int]);
            }
            graph.apply_event(&events[i]);
            i += 1;
        }
        assert(events@.take(events@.len() as int) == events@);
        graph
    }
}

/// Dropping edges never adds in-degree entries nor raises them.
proof fn lemma_drop_edges_degree(m: GraphModel, ids: Seq<u128>)
    ensures
        forall|k: u128| #[trigger] drop_edges(m, ids).degree.contains_key(k)
            ==> m.degree.contains_key(k) && drop_edges(m, ids).degree[k] <= m.degree[k],
        drop_edges(m, ids).version == m.version,
    decreases ids.len(),
{
    if ids.len() > 0 {
        lemma_drop_edges_degree(m, ids.drop_last());
    }
}

/// Applying shifts touches only edges and the cache.
proof fn lemma_apply_shifts_frame(m: GraphModel, s: Seq<ProbabilityShift>)
    ensures
        apply_shifts(m, s).degree == m.degree,
        apply_shifts(m, s).version == m.version,
        apply_shifts(m, s).seen == m.seen,
    decreases s.len(),
{
    if s.len() > 0 {
        lemma_apply_shifts_frame(m, s.drop_last());
    }
}

/// Folding one event in keeps every in-degree within the version count.
proof fn lemma_applied_bounded(m: GraphModel, e: NarrativeEvent)
    requires
        degrees_bounded(m),
        0 <= m.version < usize::MAX,
    ensures
        degrees_bounded(applied(m, e)),
{
    let r = applied(m, e);
    if m.seen.contains(e.header().event_id) {
    } else if let NarrativeEvent::NodeDeleted { node_id, cascaded_edge_ids, .. } = e {
        let d = drop_edges(m, cascaded_edge_ids@);
        lemma_drop_edges_degree(m, cascaded_edge_ids@);
        assert(r.degree == d.degree.remove(node_id));
        assert forall|k: u128| #[trigger] r.degree.contains_key(k) implies r.degree[k] <= r.version by {
            assert(d.degree.contains_key(k));
        }
    } else if let NarrativeEvent::EdgeDeleted { edge_id, .. } = e {
        lemma_drop_edges_degree(m, seq![edge_id]);
        assert(seq![edge_id].drop_last() =~= Seq::<u128>::empty());
    } else if let NarrativeEvent::BranchCollapsed { shifts, .. } = e {
        lemma_apply_shifts_frame(m, shifts@);
    } else {
        assert forall|k: u128| #[trigger] r.degree.contains_key(k) implies r.degree[k] <= r.version by {
            if m.degree.contains_key(k) {
                assert(m.degree[k] <= m.version);
            }
        }
    }
}

/// Folding a concatenation of event streams is folding one after the other:
/// rebuilding from a prefix and then the remaining events gives the same
/// state as rebuilding from all events.
pub proof fn lemma_replay_concat(m: GraphModel, a: Seq<NarrativeEvent>, b: Seq<NarrativeEvent>)
    ensures
        replayed(m, a + b) == replayed(replayed(m, a), b),
    decreases b.len(),
{
    if b.len() == 0 {
        assert(a + b =~= a);
    } else {
        assert((a + b).drop_last() =~= a + b.drop_last());
        lemma_replay_concat(m, a, b.drop_last());
    }
}

/// The ids of a sequence of events.
pub open spec fn event_ids(events: Seq<NarrativeEvent>) -> Set<u128> {
    Set::new(|id: u128| exists|i: int| 0 <= i < events.len() && #[trigger] events[i].header().event_id == id)
}

/// The events of `events` carry pairwise distinct ids.
pub open spec fn distinct_event_ids(events: Seq<NarrativeEvent>) -> bool {
    forall|i: int, j: int| 0 <= i < j < events.len() ==> #[trigger] events[i].header().event_id != #[trigger] events[j].header().event_id
}

/// Folding events in remembers their ids; when their ids are distinct and
/// new, every one of them counts one version.
pub proof fn lemma_replay_version(m: GraphModel, events: Seq<NarrativeEvent>)
    ensures
        replayed(m, events).seen == m.seen.union(event_ids(events)),
        m.version <= replayed(m, events).version <= m.version + events.len(),
        distinct_event_ids(events) && m.seen.disjoint(event_ids(events))
            ==> replayed(m, events).version == m.version + events.len(),
    decreases events.len(),
{
    if events.len() == 0 {
        assert(event_ids(events) =~= Set::<u128>::empty());
        assert(m.seen.union(event_ids(events)) =~= m.seen);
    } else {
        let pre = events.drop_last();
        lemma_replay_version(m, pre);
        let e = events.last();
        assert(event_ids(events) =~= event_ids(pre).insert(e.header().event_id)) by {
            assert forall|id: u128| #[trigger] event_ids(events).contains(id) implies event_ids(pre).insert(e.header().event_id).contains(id) by {
                let i = choose|i: int| 0 <= i < events.len() && #[trigger] events[i].header().event_id == id;
                if i < events.len() - 1 {
                    assert(pre[i] == events[i]);
                }
            }
            assert forall|id: u128| #[trigger] event_ids(pre).contains(id) implies event_ids(events).contains(id) by {
                let i = choose|i: int| 0 <= i < pre.len() && #[trigger] pre[i].header().event_id == id;
                assert(events[i] == pre[i]);
            }
            assert(events[events.len() - 1] == e);
        }
        assert(replayed(m, events).seen =~= m.seen.union(event_ids(events)));
        if distinct_event_ids(events) && m.seen.disjoint(event_ids(events)) {
            assert(distinct_event_ids(pre)) by {
                assert forall|i: int, j: int| 0 <= i < j < pre.len() implies #[trigger] pre[i].header().event_id != #[trigger] pre[j].header().event_id by {
                    assert(pre[i] == events[i] && pre[j] == events[j]);
                }
            }
            assert(m.seen.disjoint(event_ids(pre)));
            assert(!event_ids(pre).contains(e.header().event_id)) by {
                if event_ids(pre).contains(e.header().event_id) {
                    let i = choose|i: int| 0 <= i < pre.len() && #[trigger] pre[i].header().event_id == e.header().event_id;
                    assert(events[i].header().event_id != events[events.len() - 1].header().event_id);
                }
            }
            assert(event_ids(events).contains(e.header().event_id));
        }
    }
}

/// Applying the same event twice leaves the state of applying it once.
pub proof fn lemma_apply_event_idempotent(m: GraphModel, e: NarrativeEvent)
    ensures
        applied(applied(m, e), e) == applied(m, e),
{
}

/// Rebuilding from events is folding them in one at a time: no events give
/// the empty graph, and one more event is one more `apply_event`.
pub proof fn lemma_replay_step(events: Seq<NarrativeEvent>, e: NarrativeEvent)
    ensures
        replayed(empty_model(), Seq::<NarrativeEvent>::empty()) == empty_model(),
        replayed(empty_model(), events.push(e)) == applied(replayed(empty_model(), events), e),
{
    assert(events.push(e).drop_last() =~= events);
}

/// Dropping edges leaves the version alone.
proof fn lemma_drop_edges_version(m: GraphModel, ids: Seq<u128>)
    ensures
        drop_edges(m, ids).version == m.version,
        drop_edges(m, ids).nodes == m.nodes,
        drop_edges(m, ids).seen == m.seen,
    decreases ids.len(),
{
    if ids.len() > 0 {
        lemma_drop_edges_version(m, ids.drop_last());
    }
}

/// A link the aggregate accepts joins two existing nodes and closes no cycle:
/// folding its event into a well-formed acyclic graph whose edges do not
/// already use the new id keeps the graph a well-formed DAG.
pub proof fn lemma_accepted_link_keeps_dag(g: NarrativeGraph, c: LinkEdgeCommand, actor: u128, events: Vec<NarrativeEvent>)
    requires
        g.dag.wf(),
        g.dag.acyclic(),
        g.decided(NarrativeCommand::LinkEdge(c), actor, Ok(events)),
    ensures
        events@.len() == 1,
        events@[0] matches NarrativeEvent::EdgeLinked { edge_id, source_node_id, target_node_id, .. }
            && source_node_id == c.source_node_id && target_node_id == c.target_node_id
            && (!g.dag.edges@.contains_key(edge_id) ==> g.safe_link(edge_id, source_node_id, target_node_id)),
{
}

/// Leaving out an id a list does not hold keeps the list.
proof fn lemma_without_absent(s: Seq<u128>, x: u128)
    requires
        !s.contains(x),
    ensures
        without(s, x) == s,
    decreases s.len(),
{
    if s.len() > 0 {
        assert(!s.drop_last().contains(x)) by {
            if s.drop_last().contains(x) {
                let k = choose|k: int| 0 <= k < s.drop_last().len() && s.drop_last()[k] == x;
                assert(s[k] == x);
            }
        }
        lemma_without_absent(s.drop_last(), x);
        assert(s.drop_last().push(s.last()) =~= s);
    }
}

/// The in-degree recorded for `k`, 0 when none is.
pub open spec fn degree_of(d: Map<u128, usize>, k: u128) -> int {
    if d.contains_key(k) {
        d[k] as int
    } else {
        0
    }
}

/// Linking a new edge and then deleting it restores the graph: the same
/// nodes and edges, the same id lists and in-degrees (an absent list reads
/// as empty, an absent degree as 0), the probability cache without the
/// edge, and two more versions.
pub proof fn lemma_link_then_delete(m: GraphModel, link: NarrativeEvent, del: NarrativeEvent)
    requires
        link is EdgeLinked,
        del matches NarrativeEvent::EdgeDeleted { edge_id, .. } && edge_id == link->EdgeLinked_edge_id,
        !m.edges.contains_key(link->EdgeLinked_edge_id),
        !list_of(m.out, link->EdgeLinked_source_node_id).contains(link->EdgeLinked_edge_id),
        !list_of(m.inn, link->EdgeLinked_target_node_id).contains(link->EdgeLinked_edge_id),
        !m.seen.contains(link.header().event_id),
        !m.seen.contains(del.header().event_id),
        link.header().event_id != del.header().event_id,
        degree_of(m.degree, link->EdgeLinked_target_node_id) < usize::MAX,
    ensures
        ({
            let r = applied(applied(m, link), del);
            &&& r.nodes == m.nodes
            &&& r.edges == m.edges
            &&& r.cache == m.cache.remove(link->EdgeLinked_edge_id)
            &&& forall|k: u128| #[trigger] list_of(r.out, k) == list_of(m.out, k)
            &&& forall|k: u128| #[trigger] list_of(r.inn, k) == list_of(m.inn, k)
            &&& forall|k: u128| #[trigger] degree_of(r.degree, k) == degree_of(m.degree, k)
            &&& r.version == m.version + 2
        }),
{
    let id = link->EdgeLinked_edge_id;
    let src = link->EdgeLinked_source_node_id;
    let tgt = link->EdgeLinked_target_node_id;
    let a = applied(m, link);
    let r = applied(a, del);
    lemma_without_absent(list_of(m.out, src), id);
    lemma_without_absent(list_of(m.inn, tgt), id);
    assert(list_of(m.out, src).push(id).last() == id);
    assert(list_of(m.out, src).push(id).drop_last() =~= list_of(m.out, src));
    assert(list_of(m.inn, tgt).push(id).drop_last() =~= list_of(m.inn, tgt));
    assert(without(list_of(m.out, src).push(id), id) == list_of(m.out, src));
    assert(without(list_of(m.inn, tgt).push(id), id) == list_of(m.inn, tgt));
    assert(r.edges =~= m.edges);
    assert(r.cache =~= m.cache.remove(id));
    assert forall|k: u128| #[trigger] list_of(r.out, k) == list_of(m.out, k) by {}
    assert forall|k: u128| #[trigger] list_of(r.inn, k) == list_of(m.inn, k) by {}
    assert forall|k: u128| #[trigger] degree_of(r.degree, k) == degree_of(m.degree, k) by {
        if k == tgt {
            assert(a.degree.contains_key(tgt));
            assert(a.degree[tgt] == degree_of(m.degree, tgt) + 1);
        }
    }
}

} // verus!
