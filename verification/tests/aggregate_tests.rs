use sparknode::dag::graph::DagNode;
use sparknode::domain::aggregate::{AggregateError, CommandOutcome, NarrativeGraph};
use sparknode::domain::commands::{CreateNodeCommand, LinkEdgeCommand, NarrativeCommand};
use sparknode::domain::events::NarrativeEvent;

fn fresh() -> u128 {
    uuid::Uuid::new_v4().as_u128()
}

fn events_of(r: Result<CommandOutcome, AggregateError>) -> Vec<NarrativeEvent> {
    match r {
        Ok(CommandOutcome::Events(v)) => v,
        Ok(CommandOutcome::Collapse(_)) => panic!("expected events, got a collapse plan"),
        Err(e) => panic!("command refused: {:?}", e),
    }
}

fn two_node_graph(story_id: u128, node_a: u128, node_b: u128) -> NarrativeGraph {
    let mut graph = NarrativeGraph::new(story_id);
    graph.dag.nodes.insert(node_a, DagNode { id: node_a, node_type: "scene".to_string(), title: Some("A".to_string()) });
    graph.dag.nodes.insert(node_b, DagNode { id: node_b, node_type: "scene".to_string(), title: Some("B".to_string()) });
    graph.dag.in_degree.insert(node_a, 0);
    graph.dag.in_degree.insert(node_b, 0);
    graph
}

#[test]
fn test_create_node_command() {
    let story_id = fresh();
    let graph = NarrativeGraph::new(story_id);
    let actor_id = fresh();

    let cmd = NarrativeCommand::CreateNode(CreateNodeCommand {
        story_id,
        node_type: "scene".to_string(),
        title: Some("开场".to_string()),
        content: None,
        position_x: 100.0f64.to_bits(),
        position_y: 200.0f64.to_bits(),
        metadata: None,
    });

    let events = events_of(graph.handle_command(cmd, actor_id));
    assert_eq!(events.len(), 1);
    assert_eq!(events[0].event_type_label(), "node_created");
}

#[test]
fn test_cycle_detection() {
    let story_id = fresh();
    let actor_id = fresh();
    let node_a = fresh();
    let node_b = fresh();
    let mut graph = two_node_graph(story_id, node_a, node_b);

    let edge_cmd = NarrativeCommand::LinkEdge(LinkEdgeCommand {
        story_id,
        source_node_id: node_a,
        target_node_id: node_b,
        edge_type: "causal".to_string(),
        probability: 1.0f64.to_bits(),
        reward_signal: None,
        conditions: None,
    });
    let events = events_of(graph.handle_command(edge_cmd, actor_id));
    graph.apply_event(&events[0]);

    let cycle_cmd = NarrativeCommand::LinkEdge(LinkEdgeCommand {
        story_id,
        source_node_id: node_b,
        target_node_id: node_a,
        edge_type: "causal".to_string(),
        probability: 1.0f64.to_bits(),
        reward_signal: None,
        conditions: None,
    });
    let result = graph.handle_command(cycle_cmd, actor_id);
    assert!(result.is_err());
    assert!(matches!(result.unwrap_err(), AggregateError::CycleDetected { .. }));
}

#[test]
fn test_replay_idempotency() {
    let story_id = fresh();
    let actor_id = fresh();

    let cmd = NarrativeCommand::CreateNode(CreateNodeCommand {
        story_id,
        node_type: "scene".to_string(),
        title: Some("测试节点".to_string()),
        content: None,
        position_x: 0.0f64.to_bits(),
        position_y: 0.0f64.to_bits(),
        metadata: None,
    });

    let graph = NarrativeGraph::new(story_id);
    let events = events_of(graph.handle_command(cmd, actor_id));

    let replayed1 = NarrativeGraph::replay(story_id, &events);
    assert_eq!(replayed1.dag.nodes.len(), 1);
    assert_eq!(replayed1.version, 1);

    let replayed2 = NarrativeGraph::replay(story_id, &events);
    assert_eq!(replayed2.dag.nodes.len(), 1);
    assert_eq!(replayed2.version, 1);
}

#[test]
fn test_story_mismatch() {
    let story_id = fresh();
    let wrong_story = fresh();
    let graph = NarrativeGraph::new(story_id);
    let actor_id = fresh();

    let cmd = NarrativeCommand::CreateNode(CreateNodeCommand {
        story_id: wrong_story,
        node_type: "scene".to_string(),
        title: None,
        content: None,
        position_x: 0.0f64.to_bits(),
        position_y: 0.0f64.to_bits(),
        metadata: None,
    });

    let result = graph.handle_command(cmd, actor_id);
    assert!(result.is_err());
    assert!(matches!(result.unwrap_err(), AggregateError::StoryMismatch { .. }));
}

#[test]
fn test_invalid_probability() {
    let story_id = fresh();
    let actor_id = fresh();
    let node_a = fresh();
    let node_b = fresh();
    let graph = two_node_graph(story_id, node_a, node_b);

    let cmd = NarrativeCommand::LinkEdge(LinkEdgeCommand {
        story_id,
        source_node_id: node_a,
        target_node_id: node_b,
        edge_type: "branch".to_string(),
        probability: 1.5f64.to_bits(),
        reward_signal: None,
        conditions: None,
    });

    let result = graph.handle_command(cmd, actor_id);
    assert!(result.is_err());
    assert!(matches!(result.unwrap_err(), AggregateError::InvalidProbability(p) if f64::from_bits(p) == 1.5));
}

#[test]
fn replay_counts_every_event_and_rebuilds_links() {
    let story_id = fresh();
    let actor_id = fresh();
    let mut graph = NarrativeGraph::new(story_id);
    let mut log: Vec<NarrativeEvent> = Vec::new();
    for title in ["a", "b"] {
        let cmd = NarrativeCommand::CreateNode(CreateNodeCommand {
            story_id,
            node_type: "scene".to_string(),
            title: Some(title.to_string()),
            content: None,
            position_x: 0,
            position_y: 0,
            metadata: None,
        });
        let evs = events_of(graph.handle_command(cmd, actor_id));
        for e in evs {
            graph.apply_event(&e);
            log.push(e);
        }
    }
    let ids: Vec<u128> = graph.dag.nodes.keys().copied().collect();
    let link = NarrativeCommand::LinkEdge(LinkEdgeCommand {
        story_id,
        source_node_id: ids[0],
        target_node_id: ids[1],
        edge_type: "branch".to_string(),
        probability: 0.5f64.to_bits(),
        reward_signal: None,
        conditions: None,
    });
    let evs = events_of(graph.handle_command(link, actor_id));
    for e in evs {
        graph.apply_event(&e);
        log.push(e);
    }
    let rebuilt = NarrativeGraph::replay(story_id, &log);
    assert_eq!(rebuilt.version, 3);
    assert_eq!(rebuilt.dag.nodes.len(), 2);
    assert_eq!(rebuilt.dag.edges.len(), 1);
    assert_eq!(rebuilt.dag.in_degree[&ids[1]], 1);
    assert_eq!(rebuilt.dag.in_degree[&ids[0]], 0);
    assert_eq!(rebuilt.probability_cache.values().copied().collect::<Vec<u64>>(), vec![0.5f64.to_bits()]);
}

#[test]
fn unknown_node_type_is_refused_with_its_label() {
    let story_id = fresh();
    let graph = NarrativeGraph::new(story_id);
    let cmd = NarrativeCommand::CreateNode(CreateNodeCommand {
        story_id,
        node_type: "poem".to_string(),
        title: None,
        content: None,
        position_x: 0,
        position_y: 0,
        metadata: None,
    });
    match graph.handle_command(cmd, fresh()) {
        Err(AggregateError::ValidationError(m)) => assert!(m.contains("poem")),
        other => panic!("unexpected outcome: {:?}", other),
    }
}

#[test]
fn link_to_missing_node_is_refused() {
    let story_id = fresh();
    let node_a = fresh();
    let node_b = fresh();
    let graph = two_node_graph(story_id, node_a, node_b);
    let missing = fresh();
    let cmd = NarrativeCommand::LinkEdge(LinkEdgeCommand {
        story_id,
        source_node_id: node_a,
        target_node_id: missing,
        edge_type: "branch".to_string(),
        probability: 0.5f64.to_bits(),
        reward_signal: None,
        conditions: None,
    });
    assert!(matches!(graph.handle_command(cmd, fresh()), Err(AggregateError::NodeNotFound(id)) if id == missing));
}

#[test]
fn aggregate_error_messages() {
    let id = 0x0123_4567_89ab_cdef_0123_4567_89ab_cdefu128;
    assert_eq!(
        AggregateError::NodeNotFound(id).message(),
        Some("节点 01234567-89ab-cdef-0123-456789abcdef 不存在".to_string())
    );
    assert_eq!(AggregateError::ValidationError("x".to_string()).message(), Some("验证失败: x".to_string()));
    assert_eq!(AggregateError::CycleDetected("a".to_string(), "b".to_string()).message(), Some("添加边 a → b 将形成环路".to_string()));
    assert_eq!(AggregateError::InvalidProbability(1.5f64.to_bits()).message(), None);
}
