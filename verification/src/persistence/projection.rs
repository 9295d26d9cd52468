//! Turns domain events into the Cypher statements that mirror them in the
//! graph database; running the statements is left to the caller.
use vstd::prelude::*;
use crate::domain::events::{NarrativeEvent, ProbabilityShift};
use crate::prim::{hyphenated, id_to_string};

verus! {

/// Why projecting failed.
#[derive(Debug)]
pub enum ProjectionError {
    /// The graph database could not be reached.
    Connection(String),
    /// A statement was refused.
    CypherExecution(String),
    /// An event could not be handled.
    EventProcessing(String),
}

impl ProjectionError {
    /// The human-readable message of the error.
    pub fn message(&self) -> (s: String)
        ensures
            s@ == match self {
                ProjectionError::Connection(m) => "Memgraph 连接错误: "@ + m@,
                ProjectionError::CypherExecution(m) => "Cypher 执行错误: "@ + m@,
                ProjectionError::EventProcessing(m) => "事件处理错误: "@ + m@,
            },
    {
        match self {
            ProjectionError::Connection(m) => {
                let mut s = String::from_str("Memgraph 连接错误: ");
                s.append(m.as_str());
                s
            },
            ProjectionError::CypherExecution(m) => {
                let mut s = String::from_str("Cypher 执行错误: ");
                s.append(m.as_str());
                s
            },
            ProjectionError::EventProcessing(m) => {
                let mut s = String::from_str("事件处理错误: ");
                s.append(m.as_str());
                s
            },
        }
    }
}

/// A statement parameter: text, or a binary64 bit pattern.
#[derive(Debug)]
pub enum ParamValue {
    Text(String),
    Float(u64),
}

/// Abstract value of a parameter.
pub enum ParamView {
    Text(Seq<char>),
    Float(u64),
}

impl View for ParamValue {
    type V = ParamView;

    open spec fn view(&self) -> ParamView {
        match self {
            ParamValue::Text(s) => ParamView::Text(s@),
            ParamValue::Float(f) => ParamView::Float(*f),
        }
    }
}

/// A named statement parameter.
#[derive(Debug)]
pub struct CypherParam {
    pub name: String,
    pub value: ParamValue,
}

impl View for CypherParam {
    type V = (Seq<char>, ParamView);

    open spec fn view(&self) -> (Seq<char>, ParamView) {
        (self.name@, self.value@)
    }
}

/// A Cypher statement with its parameters.
#[derive(Debug)]
pub struct CypherStatement {
    pub text: String,
    pub params: Vec<CypherParam>,
}

/// Abstract value of a statement.
pub struct StatementView {
    pub text: Seq<char>,
    pub params: Seq<(Seq<char>, ParamView)>,
}

impl View for CypherStatement {
    type V = StatementView;

    open spec fn view(&self) -> StatementView {
        StatementView { text: self.text@, params: self.params@.map_values(|p: CypherParam| p@) }
    }
}

/// The text of an optional string, or the empty text.
pub open spec fn text_or_empty(o: Option<String>) -> Seq<char> {
    match o {
        Some(s) => s@,
        None => Seq::empty(),
    }
}

/// A text parameter.
pub open spec fn text_param(name: Seq<char>, v: Seq<char>) -> (Seq<char>, ParamView) {
    (name, ParamView::Text(v))
}

/// A numeric parameter.
pub open spec fn float_param(name: Seq<char>, v: u64) -> (Seq<char>, ParamView) {
    (name, ParamView::Float(v))
}

/// `part` when `present`, else nothing.
pub open spec fn when<A>(present: bool, part: Seq<A>) -> Seq<A> {
    if present {
        part
    } else {
        Seq::empty()
    }
}

/// The statement that records a collapse's new probability on one edge.
pub open spec fn shift_statement(s: ProbabilityShift) -> StatementView {
    StatementView {
        text: "MATCH ()-[r:BRANCH {id: $edge_id}]->() SET r.probability = $new_prob, r.last_collapse_reason = $reason"@,
        params: seq![
            text_param("edge_id"@, hyphenated(s.edge_id)),
            float_param("new_prob"@, s.probability_after),
            text_param("reason"@, s.reason@),
        ],
    }
}

/// The statements that mirror one event, in the order they are run.
/// Checkpoint and rollback events are not mirrored.
pub open spec fn projection_plan(e: NarrativeEvent) -> Seq<StatementView> {
    match e {
        NarrativeEvent::NodeCreated { node_id, node_type, title, content, position_x, position_y, .. } => seq![
            StatementView {
                text: "MERGE (n:StoryNode {id: $id}) SET n.node_type = $node_type, n.title = $title, n.content = $content, n.position_x = $position_x, n.position_y = $position_y, n.updated_at = timestamp()"@,
                params: seq![
                    text_param("id"@, hyphenated(node_id)),
                    text_param("node_type"@, node_type@),
                    text_param("title"@, text_or_empty(title)),
                    text_param("content"@, text_or_empty(content)),
                    float_param("position_x"@, position_x),
                    float_param("position_y"@, position_y),
                ],
            },
        ],
        NarrativeEvent::NodeUpdated { node_id, title, content, .. } => seq![
            StatementView {
                text: "MATCH (n:StoryNode {id: $id}) SET "@ + "n.updated_at = timestamp()"@
                    + when(title is Some, ", n.title = $title"@)
                    + when(content is Some, ", n.content = $content"@),
                params: seq![text_param("id"@, hyphenated(node_id))]
                    + when(title is Some, seq![text_param("title"@, text_or_empty(title))])
                    + when(content is Some, seq![text_param("content"@, text_or_empty(content))]),
            },
        ],
        NarrativeEvent::NodeDeleted { node_id, .. } => seq![
            StatementView {
                text: "MATCH (n:StoryNode {id: $id}) DETACH DELETE n"@,
                params: seq![text_param("id"@, hyphenated(node_id))],
            },
        ],
        NarrativeEvent::EdgeLinked { edge_id, source_node_id, target_node_id, edge_type, probability, reward_signal, .. } => seq![
            StatementView {
                text: "MATCH (a:StoryNode {id: $source}), (b:StoryNode {id: $target}) CREATE (a)-[r:BRANCH { id: $edge_id, edge_type: $edge_type, probability: $probability, reward_signal: $reward_signal }]->(b)"@,
                params: seq![
                    text_param("source"@, hyphenated(source_node_id)),
                    text_param("target"@, hyphenated(target_node_id)),
                    text_param("edge_id"@, hyphenated(edge_id)),
                    text_param("edge_type"@, edge_type@),
                    float_param("probability"@, probability),
                    float_param("reward_signal"@, reward_signal),
                ],
            },
        ],
        NarrativeEvent::EdgeUpdated { edge_id, probability, observer_weight, .. } => seq![
            StatementView {
                text: "MATCH ()-[r:BRANCH {id: $edge_id}]->() SET "@ + "r.updated_at = timestamp()"@
                    + when(probability is Some, ", r.probability = $probability"@)
                    + when(observer_weight is Some, ", r.observer_weight = $ow"@),
                params: seq![text_param("edge_id"@, hyphenated(edge_id))]
                    + when(probability is Some, seq![float_param("probability"@, probability->0)])
                    + when(observer_weight is Some, seq![float_param("ow"@, observer_weight->0)]),
            },
        ],
        NarrativeEvent::EdgeDeleted { edge_id, .. } => seq![
            StatementView {
                text: "MATCH ()-[r:BRANCH {id: $edge_id}]->() DELETE r"@,
                params: seq![text_param("edge_id"@, hyphenated(edge_id))],
            },
        ],
        NarrativeEvent::BranchCollapsed { node_id, collapsed_path_id, shifts, .. } => seq![
            StatementView {
                text: "MATCH (n:StoryNode {id: $node_id}) SET n.last_collapsed_path = $path_id, n.collapse_count = coalesce(n.collapse_count, 0) + 1"@,
                params: seq![
                    text_param("node_id"@, hyphenated(node_id)),
                    text_param("path_id"@, hyphenated(collapsed_path_id)),
                ],
            },
        ] + shifts@.map_values(|s: ProbabilityShift| shift_statement(s)),
        NarrativeEvent::CheckpointCreated { .. } => Seq::empty(),
        NarrativeEvent::BranchRolledBack { .. } => Seq::empty(),
    }
}

/// The statements of a full rebuild: clearing the story, then every event's
/// statements in order.
pub open spec fn rebuild_plan_of(story_id: u128, events: Seq<NarrativeEvent>) -> Seq<StatementView>
    decreases events.len(),
{
    if events.len() == 0 {
        seq![
            StatementView {
                text: "MATCH (n:StoryNode) WHERE n.story_id = $story_id DETACH DELETE n"@,
                params: seq![text_param("story_id"@, hyphenated(story_id))],
            },
        ]
    } else {
        rebuild_plan_of(story_id, events.drop_last()) + projection_plan(events.last())
    }
}

/// A text parameter built from a literal name.
fn text(name: &str, value: String) -> (p: CypherParam)
    ensures
        p@ == text_param(name@, value@),
{
    CypherParam { name: String::from_str(name), value: ParamValue::Text(value) }
}

/// A numeric parameter built from a literal name.
fn float(name: &str, value: u64) -> (p: CypherParam)
    ensures
        p@ == float_param(name@, value),
{
    CypherParam { name: String::from_str(name), value: ParamValue::Float(value) }
}

/// A copy of an optional string's text, or the empty string.
fn owned_or_empty(o: &Option<String>) -> (s: String)
    ensures
        s@ == text_or_empty(*o),
{
    match o {
        Some(t) => t.clone(),
        None => String::new(),
    }
}

/// The statement for one probability shift.
fn shift_stmt(s: &ProbabilityShift) -> (st: CypherStatement)
    ensures
        st@ == shift_statement(*s),
{
    let mut params: Vec<CypherParam> = Vec::new();
    params.push(text("edge_id", id_to_string(s.edge_id)));
    params.push(float("new_prob", s.probability_after));
    params.push(text("reason", s.reason.clone()));
    let st = CypherStatement {
        text: String::from_str("MATCH ()-[r:BRANCH {id: $edge_id}]->() SET r.probability = $new_prob, r.last_collapse_reason = $reason"),
        params,
    };
    assert(st@.params =~= shift_statement(*s).params);
    st
}

/// Builds the statements that mirror `event` in the graph database, in the
/// order they are to be run.
pub fn plan_projection(event: &NarrativeEvent) -> (r: Vec<CypherStatement>)
    ensures
        r@.map_values(|s: CypherStatement| s@) == projection_plan(*event),
{
    let mut out: Vec<CypherStatement> = Vec::new();
    match event {
        NarrativeEvent::NodeCreated { node_id, node_type, title, content, position_x, position_y, .. } => {
            let mut params: Vec<CypherParam> = Vec::new();
            params.push(text("id", id_to_string(*node_id)));
            params.push(text("node_type", node_type.clone()));
            params.push(text("title", owned_or_empty(title)));
            params.push(text("content", owned_or_empty(content)));
            params.push(float("position_x", *position_x));
            params.push(float("position_y", *position_y));
            let st = CypherStatement {
                text: String::from_str("MERGE (n:StoryNode {id: $id}) SET n.node_type = $node_type, n.title = $title, n.content = $content, n.position_x = $position_x, n.position_y = $position_y, n.updated_at = timestamp()"),
                params,
            };
            assert(st@.params =~= projection_plan(*event)[0].params);
            out.push(st);
            assert(out@.map_values(|s: CypherStatement| s@) =~= projection_plan(*event));
        },
        NarrativeEvent::NodeUpdated { node_id, title, content, .. } => {
            let mut q = String::from_str("MATCH (n:StoryNode {id: $id}) SET ");
            q.append("n.updated_at = timestamp()");
            let mut params: Vec<CypherParam> = Vec::new();
            params.push(text("id", id_to_string(*node_id)));
            let ghost q0 = q@;
            let ghost p0 = params@.map_values(|p: CypherParam| p@);
            assert(p0 =~= seq![text_param("id"@, hyphenated(*node_id))]);
            assert(q0 == "MATCH (n:StoryNode {id: $id}) SET "@ + "n.updated_at = timestamp()"@);
            match title {
                Some(t) => {
                    q.append(", n.title = $title");
                    params.push(text("title", t.clone()));
                },
                None => {},
            }
            let ghost q1 = q@;
            let ghost p1 = params@.map_values(|p: CypherParam| p@);
            proof {
                assert(q1 == q0 + when(title is Some, ", n.title = $title"@));
                assert(p1 =~= p0 + when(title is Some, seq![text_param("title"@, text_or_empty(*title))]));
            }
            match content {
                Some(c) => {
                    q.append(", n.content = $content");
                    params.push(text("content", c.clone()));
                },
                None => {},
            }
            proof {
                assert(q@ == q1 + when(content is Some, ", n.content = $content"@));
                assert(params@.map_values(|p: CypherParam| p@) =~= p1 + when(content is Some, seq![text_param("content"@, text_or_empty(*content))]));
            }
            let st = CypherStatement { text: q, params };
            assert(st@.params =~= projection_plan(*event)[0].params);
            assert(st@.text =~= projection_plan(*event)[0].text);
            out.push(st);
            assert(out@.map_values(|s: CypherStatement| s@) =~= projection_plan(*event));
        },
        NarrativeEvent::NodeDeleted { node_id, .. } => {
            let mut params: Vec<CypherParam> = Vec::new();
            params.push(text("id", id_to_string(*node_id)));
            let st = CypherStatement { text: String::from_str("MATCH (n:StoryNode {id: $id}) DETACH DELETE n"), params };
            assert(st@.params =~= projection_plan(*event)[0].params);
            out.push(st);
            assert(out@.map_values(|s: CypherStatement| s@) =~= projection_plan(*event));
        },
        NarrativeEvent::EdgeLinked { edge_id, source_node_id, target_node_id, edge_type, probability, reward_signal, .. } => {
            let mut params: Vec<CypherParam> = Vec::new();
            params.push(text("source", id_to_string(*source_node_id)));
            params.push(text("target", id_to_string(*target_node_id)));
            params.push(text("edge_id", id_to_string(*edge_id)));
            params.push(text("edge_type", edge_type.clone()));
            params.push(float("probability", *probability));
            params.push(float("reward_signal", *reward_signal));
            let st = CypherStatement {
                text: String::from_str("MATCH (a:StoryNode {id: $source}), (b:StoryNode {id: $target}) CREATE (a)-[r:BRANCH { id: $edge_id, edge_type: $edge_type, probability: $probability, reward_signal: $reward_signal }]->(b)"),
                params,
            };
            assert(st@.params =~= projection_plan(*event)[0].params);
            out.push(st);
            assert(out@.map_values(|s: CypherStatement| s@) =~= projection_plan(*event));
        },
        NarrativeEvent::EdgeUpdated { edge_id, probability, observer_weight, .. } => {
            let mut q = String::from_str("MATCH ()-[r:BRANCH {id: $edge_id}]->() SET ");
            q.append("r.updated_at = timestamp()");
            let mut params: Vec<CypherParam> = Vec::new();
            params.push(text("edge_id", id_to_string(*edge_id)));
            let ghost q0 = q@;
            let ghost p0 = params@.map_values(|p: CypherParam| p@);
            assert(p0 =~= seq![text_param("edge_id"@, hyphenated(*edge_id))]);
            assert(q0 == "MATCH ()-[r:BRANCH {id: $edge_id}]->() SET "@ + "r.updated_at = timestamp()"@);
            match probability {
                Some(p) => {
                    q.append(", r.probability = $probability");
                    params.push(float("probability", *p));
                },
                None => {},
            }
            let ghost q1 = q@;
            let ghost p1 = params@.map_values(|p: CypherParam| p@);
            proof {
                assert(q1 == q0 + when(probability is Some, ", r.probability = $probability"@));
                assert(p1 =~= p0 + when(probability is Some, seq![float_param("probability"@, probability->0)]));
            }
            match observer_weight {
                Some(w) => {
                    q.append(", r.observer_weight = $ow");
                    params.push(float("ow", *w));
                },
                None => {},
            }
            proof {
                assert(q@ == q1 + when(observer_weight is Some, ", r.observer_weight = $ow"@));
                assert(params@.map_values(|p: CypherParam| p@) =~= p1 + when(observer_weight is Some, seq![float_param("ow"@, observer_weight->0)]));
            }
            let st = CypherStatement { text: q, params };
            assert(st@.params =~= projection_plan(*event)[0].params);
            assert(st@.text =~= projection_plan(*event)[0].text);
            out.push(st);
            assert(out@.map_values(|s: CypherStatement| s@) =~= projection_plan(*event));
        },
        NarrativeEvent::EdgeDeleted { edge_id, .. } => {
            let mut params: Vec<CypherParam> = Vec::new();
            params.push(text("edge_id", id_to_string(*edge_id)));
            let st = CypherStatement { text: String::from_str("MATCH ()-[r:BRANCH {id: $edge_id}]->() DELETE r"), params };
            assert(st@.params =~= projection_plan(*event)[0].params);
            out.push(st);
            assert(out@.map_values(|s: CypherStatement| s@) =~= projection_plan(*event));
        },
        NarrativeEvent::BranchCollapsed { node_id, collapsed_path_id, shifts, .. } => {
            let mut params: Vec<CypherParam> = Vec::new();
            params.push(text("node_id", id_to_string(*node_id)));
            params.push(text("path_id", id_to_string(*collapsed_path_id)));
            let st = CypherStatement {
                text: String::from_str("MATCH (n:StoryNode {id: $node_id}) SET n.last_collapsed_path = $path_id, n.collapse_count = coalesce(n.collapse_count, 0) + 1"),
                params,
            };
            assert(st@.params =~= projection_plan(*event)[0].params);
            out.push(st);
            let ghost head = out@.map_values(|s: CypherStatement| s@);
            let mut i: usize = 0;
            while i < shifts.len()
                invariant
                    i <= shifts@.len(),
                    out@.map_values(|s: CypherStatement| s@)
                        == head + shifts@.take(i as int).map_values(|s: ProbabilityShift| shift_statement(s)),
                decreases shifts@.len() - i,
            {
                let st = shift_stmt(&shifts[i]);
                let ghost o1 = out@;
                out.push(st);
                proof {
                    assert(out@.map_values(|s: CypherStatement| s@) =~= o1.map_values(|s: CypherStatement| s@).push(st@));
                    assert(shifts@.take(i as int + 1) =~= shifts@.take(i as int).push(shifts@[i as int]));
                    assert(shifts@.take(i as int + 1).map_values(|s: ProbabilityShift| shift_statement(s))
                        =~= shifts@.take(i as int).map_values(|s: ProbabilityShift| shift_statement(s)).push(shift_statement(shifts@[i as int])));
                    assert(out@.map_values(|s: CypherStatement| s@) =~= head + shifts@.take(i as int + 1).map_values(|s: ProbabilityShift| shift_statement(s)));
                }
                i += 1;
            }
            proof {
                assert(shifts@.take(shifts@.len() as int) =~= shifts@);
                assert(out@.map_values(|s: CypherStatement| s@) =~= projection_plan(*event));
            }
        },
        NarrativeEvent::CheckpointCreated { .. } => {},
        NarrativeEvent::BranchRolledBack { .. } => {},
    }
    proof {
        assert(out@.map_values(|s: CypherStatement| s@) =~= projection_plan(*event));
    }
    out
}

/// Builds the statements of a full rebuild of story `story_id`: clearing
/// its graph, then mirroring every event in order.
pub fn plan_rebuild(story_id: u128, events: &[NarrativeEvent]) -> (r: Vec<CypherStatement>)
    ensures
        r@.map_values(|s: CypherStatement| s@) == rebuild_plan_of(story_id, events@),
{
    let mut out: Vec<CypherStatement> = Vec::new();
    let mut params: Vec<CypherParam> = Vec::new();
    params.push(text("story_id", id_to_string(story_id)));
    let st = CypherStatement {
        text: String::from_str("MATCH (n:StoryNode) WHERE n.story_id = $story_id DETACH DELETE n"),
        params,
    };
    assert(st@.params =~= seq![text_param("story_id"@, hyphenated(story_id))]);
    out.push(st);
    proof {
        assert(out@.map_values(|s: CypherStatement| s@) =~= rebuild_plan_of(story_id, events@.take(0)));
    }
    let mut i: usize = 0;
    while i < events.len()
        invariant
            i <= events@.len(),
            out@.map_values(|s: CypherStatement| s@) == rebuild_plan_of(story_id, events@.take(i as int)),
        decreases events@.len() - i,
    {
        let mut more = plan_projection(&events[i]);
        let ghost before = out@.map_values(|s: CypherStatement| s@);
        let ghost extra = more@.map_values(|s: CypherStatement| s@);
        out.append(&mut more);
        proof {
            assert(events@.take(i as int + 1).drop_last() =~= events@.take(i as int));
            assert(out@.map_values(|s: CypherStatement| s@) =~= before + extra);
        }
        i += 1;
    }
    proof {
        assert(events@.take(events@.len() as int) =~= events@);
    }
    out
}

/// The value bound to the first parameter named `name` at or after index `i`.
pub open spec fn bound_from(params: Seq<(Seq<char>, ParamView)>, name: Seq<char>, i: int) -> Option<ParamView>
    decreases params.len() - i,
{
    if i < 0 || i >= params.len() {
        None
    } else if params[i].0 == name {
        Some(params[i].1)
    } else {
        bound_from(params, name, i + 1)
    }
}

/// The value a statement binds to the parameter named `name`, if any.
pub open spec fn bound(st: StatementView, name: Seq<char>) -> Option<ParamView> {
    bound_from(st.params, name, 0)
}

/// A parameter list binds `name` to the value at `i` when `i` is the first
/// position holding that name.
proof fn lemma_bound_at(ps: Seq<(Seq<char>, ParamView)>, name: Seq<char>, i: int, k: int)
    requires
        0 <= k <= i < ps.len(),
        ps[i].0 == name,
        forall|j: int| k <= j < i ==> #[trigger] ps[j].0 != name,
    ensures
        bound_from(ps, name, k) == Some(ps[i].1),
    decreases i - k,
{
    if k < i {
        lemma_bound_at(ps, name, i, k + 1);
    }
}

/// Mirroring a new link is one statement that matches the source node as
/// `a` and the target node as `b` and creates the relationship from `a` to
/// `b`: it binds `source` to the source node's id, `target` to the target
/// node's id, and the edge's id, kind, probability and reward to their own
/// names.
pub proof fn lemma_link_statement_binds_ends(e: NarrativeEvent)
    requires
        e is EdgeLinked,
    ensures
        e matches NarrativeEvent::EdgeLinked { edge_id, source_node_id, target_node_id, edge_type, probability, reward_signal, .. } ==> {
            let plan = projection_plan(e);
            &&& plan.len() == 1
            &&& plan[0].text == "MATCH (a:StoryNode {id: $source}), (b:StoryNode {id: $target}) CREATE (a)-[r:BRANCH { id: $edge_id, edge_type: $edge_type, probability: $probability, reward_signal: $reward_signal }]->(b)"@
            &&& bound(plan[0], "source"@) == Some(ParamView::Text(hyphenated(source_node_id)))
            &&& bound(plan[0], "target"@) == Some(ParamView::Text(hyphenated(target_node_id)))
            &&& bound(plan[0], "edge_id"@) == Some(ParamView::Text(hyphenated(edge_id)))
            &&& bound(plan[0], "edge_type"@) == Some(ParamView::Text(edge_type@))
            &&& bound(plan[0], "probability"@) == Some(ParamView::Float(probability))
            &&& bound(plan[0], "reward_signal"@) == Some(ParamView::Float(reward_signal))
        },
{
    reveal_strlit("source");
    reveal_strlit("target");
    reveal_strlit("edge_id");
    reveal_strlit("edge_type");
    reveal_strlit("probability");
    reveal_strlit("reward_signal");
    if let NarrativeEvent::EdgeLinked { .. } = e {
        let ps = projection_plan(e)[0].params;
        assert("source"@[0] != "target"@[0]);
        assert("edge_type"@[0] != "probability"@[0]);
        assert(ps[0].0.len() == 6 && ps[1].0.len() == 6 && ps[2].0.len() == 7 && ps[3].0.len() == 9);
        assert(ps[4].0.len() == 11 && "edge_type"@.len() == 9 && "reward_signal"@.len() == 13);
        lemma_bound_at(ps, "source"@, 0, 0);
        lemma_bound_at(ps, "target"@, 1, 0);
        lemma_bound_at(ps, "edge_id"@, 2, 0);
        lemma_bound_at(ps, "edge_type"@, 3, 0);
        lemma_bound_at(ps, "probability"@, 4, 0);
        lemma_bound_at(ps, "reward_signal"@, 5, 0);
    }
}

/// Mirroring a new node is one statement that binds `id` to the node's id
/// and its kind, title, content and position to their own names (a missing
/// title or content as empty text).
pub proof fn lemma_node_statement_binds_fields(e: NarrativeEvent)
    requires
        e is NodeCreated,
    ensures
        e matches NarrativeEvent::NodeCreated { node_id, node_type, title, content, position_x, position_y, .. } ==> {
            let plan = projection_plan(e);
            &&& plan.len() == 1
            &&& bound(plan[0], "id"@) == Some(ParamView::Text(hyphenated(node_id)))
            &&& bound(plan[0], "node_type"@) == Some(ParamView::Text(node_type@))
            &&& bound(plan[0], "title"@) == Some(ParamView::Text(text_or_empty(title)))
            &&& bound(plan[0], "content"@) == Some(ParamView::Text(text_or_empty(content)))
            &&& bound(plan[0], "position_x"@) == Some(ParamView::Float(position_x))
            &&& bound(plan[0], "position_y"@) == Some(ParamView::Float(position_y))
        },
{
    reveal_strlit("id");
    reveal_strlit("node_type");
    reveal_strlit("title");
    reveal_strlit("content");
    reveal_strlit("position_x");
    reveal_strlit("position_y");
    if let NarrativeEvent::NodeCreated { .. } = e {
        let ps = projection_plan(e)[0].params;
        assert(ps[0].0.len() == 2 && ps[1].0.len() == 9 && ps[2].0.len() == 5 && ps[3].0.len() == 7);
        assert(ps[4].0.len() == 10 && ps[5].0.len() == 10);
        assert("position_x"@[9] != "position_y"@[9]);
        lemma_bound_at(ps, "id"@, 0, 0);
        lemma_bound_at(ps, "node_type"@, 1, 0);
        lemma_bound_at(ps, "title"@, 2, 0);
        lemma_bound_at(ps, "content"@, 3, 0);
        lemma_bound_at(ps, "position_x"@, 4, 0);
        lemma_bound_at(ps, "position_y"@, 5, 0);
    }
}

/// Mirroring a node update is one statement that binds `id` to the node's
/// id, and binds `title` and `content` to the new texts exactly when the
/// event carries them.
pub proof fn lemma_node_update_statement_binds_fields(e: NarrativeEvent)
    requires
        e is NodeUpdated,
    ensures
        e matches NarrativeEvent::NodeUpdated { node_id, title, content, .. } ==> {
            let plan = projection_plan(e);
            &&& plan.len() == 1
            &&& bound(plan[0], "id"@) == Some(ParamView::Text(hyphenated(node_id)))
            &&& (title matches Some(t) ==> bound(plan[0], "title"@) == Some(ParamView::Text(t@)))
            &&& (title is None ==> bound(plan[0], "title"@) is None)
            &&& (content matches Some(t) ==> bound(plan[0], "content"@) == Some(ParamView::Text(t@)))
            &&& (content is None ==> bound(plan[0], "content"@) is None)
        },
{
    reveal_strlit("id");
    reveal_strlit("title");
    reveal_strlit("content");
    if let NarrativeEvent::NodeUpdated { title, content, .. } = e {
        let ps = projection_plan(e)[0].params;
        assert("id"@.len() == 2 && "title"@.len() == 5 && "content"@.len() == 7);
        lemma_bound_at(ps, "id"@, 0, 0);
        let tp = when(title is Some, seq![text_param("title"@, text_or_empty(title))]);
        let cp = when(content is Some, seq![text_param("content"@, text_or_empty(content))]);
        assert(ps == seq![text_param("id"@, hyphenated(e->NodeUpdated_node_id))] + tp + cp);
        if title is Some {
            assert(ps[1] == text_param("title"@, text_or_empty(title)));
            lemma_bound_at(ps, "title"@, 1, 0);
        } else {
            lemma_bound_absent(ps, "title"@, 0);
        }
        if content is Some {
            let k = ps.len() - 1;
            assert(ps[k] == text_param("content"@, text_or_empty(content)));
            lemma_bound_at(ps, "content"@, k, 0);
        } else {
            lemma_bound_absent(ps, "content"@, 0);
        }
    }
}

/// A list that holds no parameter named `name` from `k` on binds nothing to it.
proof fn lemma_bound_absent(ps: Seq<(Seq<char>, ParamView)>, name: Seq<char>, k: int)
    requires
        0 <= k,
        forall|j: int| k <= j < ps.len() ==> #[trigger] ps[j].0 != name,
    ensures
        bound_from(ps, name, k) is None,
    decreases ps.len() - k,
{
    if k < ps.len() {
        lemma_bound_absent(ps, name, k + 1);
    }
}

/// Mirroring a node or edge deletion is one statement that binds the
/// deleted node's or edge's id.
pub proof fn lemma_delete_statements_bind_id(e: NarrativeEvent)
    requires
        e is NodeDeleted || e is EdgeDeleted,
    ensures
        e matches NarrativeEvent::NodeDeleted { node_id, .. } ==> projection_plan(e).len() == 1
            && projection_plan(e)[0].text == "MATCH (n:StoryNode {id: $id}) DETACH DELETE n"@
            && bound(projection_plan(e)[0], "id"@) == Some(ParamView::Text(hyphenated(node_id))),
        e matches NarrativeEvent::EdgeDeleted { edge_id, .. } ==> projection_plan(e).len() == 1
            && projection_plan(e)[0].text == "MATCH ()-[r:BRANCH {id: $edge_id}]->() DELETE r"@
            && bound(projection_plan(e)[0], "edge_id"@) == Some(ParamView::Text(hyphenated(edge_id))),
{
    let ps = projection_plan(e)[0].params;
    if e is NodeDeleted {
        lemma_bound_at(ps, "id"@, 0, 0);
    } else {
        lemma_bound_at(ps, "edge_id"@, 0, 0);
    }
}

/// Mirroring an edge update is one statement that binds `edge_id` to the
/// edge's id, and binds the new probability and observer weight exactly
/// when the event carries them.
pub proof fn lemma_edge_update_statement_binds_fields(e: NarrativeEvent)
    requires
        e is EdgeUpdated,
    ensures
        e matches NarrativeEvent::EdgeUpdated { edge_id, probability, observer_weight, .. } ==> {
            let plan = projection_plan(e);
            &&& plan.len() == 1
            &&& bound(plan[0], "edge_id"@) == Some(ParamView::Text(hyphenated(edge_id)))
            &&& (probability matches Some(p) ==> bound(plan[0], "probability"@) == Some(ParamView::Float(p)))
            &&& (probability is None ==> bound(plan[0], "probability"@) is None)
            &&& (observer_weight matches Some(w) ==> bound(plan[0], "ow"@) == Some(ParamView::Float(w)))
            &&& (observer_weight is None ==> bound(plan[0], "ow"@) is None)
        },
{
    reveal_strlit("edge_id");
    reveal_strlit("probability");
    reveal_strlit("ow");
    if let NarrativeEvent::EdgeUpdated { edge_id, probability, observer_weight, .. } = e {
        let ps = projection_plan(e)[0].params;
        assert("edge_id"@.len() == 7 && "probability"@.len() == 11 && "ow"@.len() == 2);
        lemma_bound_at(ps, "edge_id"@, 0, 0);
        let pp = when(probability is Some, seq![float_param("probability"@, probability->0)]);
        let wp = when(observer_weight is Some, seq![float_param("ow"@, observer_weight->0)]);
        assert(ps == seq![text_param("edge_id"@, hyphenated(edge_id))] + pp + wp);
        if probability is Some {
            assert(ps[1] == float_param("probability"@, probability->0));
            lemma_bound_at(ps, "probability"@, 1, 0);
        } else {
            lemma_bound_absent(ps, "probability"@, 0);
        }
        if observer_weight is Some {
            let k = ps.len() - 1;
            assert(ps[k] == float_param("ow"@, observer_weight->0));
            lemma_bound_at(ps, "ow"@, k, 0);
        } else {
            lemma_bound_absent(ps, "ow"@, 0);
        }
    }
}

/// Mirroring a collapse is a statement that binds the node and the chosen
/// edge, then one statement per shift, in order, that binds the shifted
/// edge's id, its new probability and the reason.
pub proof fn lemma_collapse_statements_bind_shifts(e: NarrativeEvent)
    requires
        e is BranchCollapsed,
    ensures
        e matches NarrativeEvent::BranchCollapsed { node_id, collapsed_path_id, shifts, .. } ==> {
            let plan = projection_plan(e);
            &&& plan.len() == 1 + shifts@.len()
            &&& bound(plan[0], "node_id"@) == Some(ParamView::Text(hyphenated(node_id)))
            &&& bound(plan[0], "path_id"@) == Some(ParamView::Text(hyphenated(collapsed_path_id)))
            &&& forall|i: int| 0 <= i < shifts@.len() ==> {
                &&& bound(#[trigger] plan[1 + i], "edge_id"@) == Some(ParamView::Text(hyphenated(shifts@[i].edge_id)))
                &&& bound(plan[1 + i], "new_prob"@) == Some(ParamView::Float(shifts@[i].probability_after))
                &&& bound(plan[1 + i], "reason"@) == Some(ParamView::Text(shifts@[i].reason@))
            }
        },
{
    reveal_strlit("node_id");
    reveal_strlit("path_id");
    reveal_strlit("edge_id");
    reveal_strlit("new_prob");
    reveal_strlit("reason");
    if let NarrativeEvent::BranchCollapsed { shifts, .. } = e {
        let plan = projection_plan(e);
        let ps = plan[0].params;
        assert("node_id"@[0] != "path_id"@[0]);
        lemma_bound_at(ps, "node_id"@, 0, 0);
        lemma_bound_at(ps, "path_id"@, 1, 0);
        assert("edge_id"@.len() == 7 && "new_prob"@.len() == 8 && "reason"@.len() == 6);
        assert forall|i: int| 0 <= i < shifts@.len() implies {
            &&& bound(#[trigger] plan[1 + i], "edge_id"@) == Some(ParamView::Text(hyphenated(shifts@[i].edge_id)))
            &&& bound(plan[1 + i], "new_prob"@) == Some(ParamView::Float(shifts@[i].probability_after))
            &&& bound(plan[1 + i], "reason"@) == Some(ParamView::Text(shifts@[i].reason@))
        } by {
            assert(plan[1 + i] == shift_statement(shifts@[i]));
            let qs = plan[1 + i].params;
            lemma_bound_at(qs, "edge_id"@, 0, 0);
            lemma_bound_at(qs, "new_prob"@, 1, 0);
            lemma_bound_at(qs, "reason"@, 2, 0);
        }
    }
}

/// Checkpoints and rollbacks are not mirrored.
pub proof fn lemma_markers_not_mirrored(e: NarrativeEvent)
    requires
        e is CheckpointCreated || e is BranchRolledBack,
    ensures
        projection_plan(e).len() == 0,
{
}

/// A rebuild first clears the story's nodes (binding `story_id` to the
/// story's id), then runs the statements of each event in order: one more
/// event appends exactly that event's statements.
pub proof fn lemma_rebuild_clears_then_replays(story_id: u128, events: Seq<NarrativeEvent>, e: NarrativeEvent)
    ensures
        rebuild_plan_of(story_id, events).len() >= 1,
        rebuild_plan_of(story_id, events)[0].text == "MATCH (n:StoryNode) WHERE n.story_id = $story_id DETACH DELETE n"@,
        bound(rebuild_plan_of(story_id, events)[0], "story_id"@) == Some(ParamView::Text(hyphenated(story_id))),
        rebuild_plan_of(story_id, events.push(e)) == rebuild_plan_of(story_id, events) + projection_plan(e),
    decreases events.len(),
{
    assert(events.push(e).drop_last() =~= events);
    if events.len() == 0 {
        lemma_bound_at(rebuild_plan_of(story_id, events)[0].params, "story_id"@, 0, 0);
    } else {
        lemma_rebuild_clears_then_replays(story_id, events.drop_last(), events.last());
        assert(rebuild_plan_of(story_id, events)[0] == rebuild_plan_of(story_id, events.drop_last())[0]);
    }
}

} // verus!
