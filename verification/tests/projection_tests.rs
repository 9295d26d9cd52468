use sparknode::domain::events::{EventMetadata, NarrativeEvent, ObserverSignalEvent, ProbabilityShift};
use sparknode::persistence::projection::{CypherStatement, ParamValue, ProjectionError, plan_projection, plan_rebuild};

const ID: u128 = 0x0123_4567_89ab_cdef_0123_4567_89ab_cdefu128;
const ID_TEXT: &str = "01234567-89ab-cdef-0123-456789abcdef";

fn meta() -> EventMetadata {
    EventMetadata::new(1, 2)
}

fn text_of(p: &ParamValue) -> String {
    match p {
        ParamValue::Text(t) => t.clone(),
        ParamValue::Float(_) => panic!("expected text"),
    }
}

fn names(s: &CypherStatement) -> Vec<String> {
    s.params.iter().map(|p| p.name.clone()).collect()
}

#[test]
fn node_created_statement() {
    let e = NarrativeEvent::NodeCreated {
        meta: meta(),
        node_id: ID,
        node_type: "scene".to_string(),
        title: Some("T".to_string()),
        content: None,
        position_x: 1.5f64.to_bits(),
        position_y: 2.5f64.to_bits(),
        metadata: serde_json::Value::Null,
    };
    let plan = plan_projection(&e);
    assert_eq!(plan.len(), 1);
    assert_eq!(plan[0].text, "MERGE (n:StoryNode {id: $id}) SET n.node_type = $node_type, n.title = $title, n.content = $content, n.position_x = $position_x, n.position_y = $position_y, n.updated_at = timestamp()");
    assert_eq!(names(&plan[0]), vec!["id", "node_type", "title", "content", "position_x", "position_y"]);
    assert_eq!(text_of(&plan[0].params[0].value), ID_TEXT);
    assert_eq!(text_of(&plan[0].params[3].value), "");
    assert!(matches!(plan[0].params[4].value, ParamValue::Float(b) if f64::from_bits(b) == 1.5));
}

#[test]
fn node_updated_sets_only_given_fields() {
    let e = NarrativeEvent::NodeUpdated {
        meta: meta(),
        node_id: ID,
        title: None,
        content: Some("c".to_string()),
        position_x: None,
        position_y: None,
        metadata: None,
    };
    let plan = plan_projection(&e);
    assert_eq!(plan[0].text, "MATCH (n:StoryNode {id: $id}) SET n.updated_at = timestamp(), n.content = $content");
    assert_eq!(names(&plan[0]), vec!["id", "content"]);
}

#[test]
fn edge_updated_sets_only_given_fields() {
    let e = NarrativeEvent::EdgeUpdated {
        meta: meta(),
        edge_id: ID,
        probability: Some(0.25f64.to_bits()),
        reward_signal: None,
        observer_weight: Some(0.5f64.to_bits()),
    };
    let plan = plan_projection(&e);
    assert_eq!(plan[0].text, "MATCH ()-[r:BRANCH {id: $edge_id}]->() SET r.updated_at = timestamp(), r.probability = $probability, r.observer_weight = $ow");
    assert_eq!(names(&plan[0]), vec!["edge_id", "probability", "ow"]);
}

#[test]
fn collapse_marks_the_path_then_each_shift() {
    let e = NarrativeEvent::BranchCollapsed {
        meta: meta(),
        node_id: ID,
        reader_id: 3,
        signal: ObserverSignalEvent { valence: 0, arousal: 0, dominance: 0, gaze_duration_ms: None, focused_entity_id: None },
        shifts: vec![
            ProbabilityShift { edge_id: 7, probability_before: 0, probability_after: 1.0f64.to_bits(), reason: "r1".to_string() },
            ProbabilityShift { edge_id: 8, probability_before: 0, probability_after: 0, reason: "r2".to_string() },
        ],
        collapsed_path_id: 7,
    };
    let plan = plan_projection(&e);
    assert_eq!(plan.len(), 3);
    assert_eq!(plan[0].text, "MATCH (n:StoryNode {id: $node_id}) SET n.last_collapsed_path = $path_id, n.collapse_count = coalesce(n.collapse_count, 0) + 1");
    assert_eq!(plan[2].text, "MATCH ()-[r:BRANCH {id: $edge_id}]->() SET r.probability = $new_prob, r.last_collapse_reason = $reason");
    assert_eq!(text_of(&plan[2].params[2].value), "r2");
}

#[test]
fn chronos_events_are_not_projected_and_rebuild_clears_first() {
    let e = NarrativeEvent::BranchRolledBack { meta: meta(), checkpoint_id: 1, rollback_from: 2, timeline_depth: 0 };
    assert!(plan_projection(&e).is_empty());
    let d = NarrativeEvent::EdgeDeleted { meta: meta(), edge_id: ID };
    let plan = plan_rebuild(ID, &[e, d]);
    assert_eq!(plan.len(), 2);
    assert_eq!(plan[0].text, "MATCH (n:StoryNode) WHERE n.story_id = $story_id DETACH DELETE n");
    assert_eq!(plan[1].text, "MATCH ()-[r:BRANCH {id: $edge_id}]->() DELETE r");
}

#[test]
fn projection_error_messages() {
    assert_eq!(ProjectionError::Connection("x".to_string()).message(), "Memgraph 连接错误: x");
    assert_eq!(ProjectionError::CypherExecution("y".to_string()).message(), "Cypher 执行错误: y");
    assert_eq!(ProjectionError::EventProcessing("z".to_string()).message(), "事件处理错误: z");
}
