use std::collections::HashMap;
use sparknode::dag::graph::{DagEdge, DagNode};
use sparknode::gateway::auth::{acting_user, bearer_token};
use sparknode::gateway::config::{llm_router_url, postgres_url, redis_url};
use sparknode::gateway::generate::{default_compare_providers, default_stream_providers, stream_chunk_texts, stream_endpoint};
use sparknode::gateway::pulse::{PulseEvent, PulseEventType, PulseStream, SparkWsMessage, WsAction, dispatch, pulse_channel};
use sparknode::gateway::rate_limit::{admits, rate_limit_key, role_limit};
use sparknode::gateway::services::{build_story_dag, check_new_edge};
use sparknode::prim::Timestamp;
use sparknode::types::SpError;

#[test]
fn role_limits() {
    assert_eq!(role_limit("admin"), u64::MAX);
    assert_eq!(role_limit("premium"), 100);
    assert_eq!(role_limit("free"), 30);
    assert_eq!(role_limit("anything"), 30);
    assert_eq!(rate_limit_key("free", "anonymous", "127.0.0.1"), "rate_limit:free:anonymous:127.0.0.1");
    assert!(admits(&Ok(true)));
    assert!(!admits(&Ok(false)));
    assert!(admits(&Err("down".to_string())));
}

#[test]
fn bearer_tokens() {
    assert_eq!(bearer_token("Bearer abc.def"), Some("abc.def".to_string()));
    assert_eq!(bearer_token("Bearer "), Some(String::new()));
    assert_eq!(bearer_token("bearer abc"), None);
    assert_eq!(bearer_token("Basic x"), None);
    assert_eq!(acting_user(Some(5), 1), 5);
    assert_eq!(acting_user(None, 1), 1);
}

#[test]
fn service_urls() {
    assert_eq!(postgres_url("spark", "pw", "localhost", "5432", "sparknode"), "postgres://spark:pw@localhost:5432/sparknode");
    assert_eq!(redis_url("localhost", "6379"), "redis://localhost:6379");
    assert_eq!(llm_router_url("localhost", "8001"), "http://localhost:8001");
    assert_eq!(stream_endpoint("http://x"), "http://x/generate/stream");
    assert_eq!(default_stream_providers(), vec!["openai".to_string(), "anthropic".to_string()]);
    assert_eq!(default_compare_providers().len(), 3);
}

#[test]
fn stream_bodies_split_into_pieces() {
    let body = "data: Hello\r\n\ndata:  world \ndata: [DONE]\n  plain  \n\u{3000}data: x";
    assert_eq!(stream_chunk_texts(body), vec!["Hello", "world", "plain", "data: x"]);
    assert_eq!(stream_chunk_texts(""), Vec::<String>::new());
    assert_eq!(stream_chunk_texts("data: a\r"), vec!["a"]);
}

fn event(peer: u128, clock: &[(u128, u64)]) -> PulseEvent {
    PulseEvent {
        event_type: PulseEventType::NodeMoved,
        payload: serde_json::Value::Null,
        peer_id: peer,
        timestamp: Timestamp { secs: 0, nanos: 0 },
        vector_clock: clock.iter().copied().collect::<HashMap<u128, u64>>(),
    }
}

#[test]
fn pulse_events_join_and_tick_clocks() {
    let mut p = PulseStream::new(1, 7);
    let out = p.handle_event(event(8, &[(8, 3), (9, 1)]));
    assert_eq!(out.peer_id, 7);
    assert_eq!(out.event_type, PulseEventType::NodeMoved);
    assert_eq!(p.vector_clock[&7], 1);
    assert_eq!(p.vector_clock[&8], 3);
    assert_eq!(p.vector_clock[&9], 1);
    let out2 = p.handle_event(event(8, &[(8, 2)]));
    assert_eq!(out2.vector_clock[&8], 3);
    assert_eq!(out2.vector_clock[&7], 2);
    let c = p.collapse_event(serde_json::Value::Null);
    assert_eq!(c.event_type, PulseEventType::ObserverCollapse);
    assert_eq!(c.vector_clock[&7], 3);
    let n = p.node_created_event(5, serde_json::Value::Null);
    assert_eq!(n.event_type, PulseEventType::NodeCreated);
    assert_eq!(p.vector_clock[&7], 4);
}

#[test]
fn socket_messages_are_dispatched() {
    let mut p = PulseStream::new(1, 7);
    assert!(matches!(dispatch(&mut p, SparkWsMessage::Ping), WsAction::ReplyPong));
    assert!(matches!(dispatch(&mut p, SparkWsMessage::Pong), WsAction::Ignore));
    let req = SparkWsMessage::AiRequest { request_id: 3, prompt: "p".to_string(), model: None, max_tokens: Some(5) };
    assert!(req.is_ai() && !req.is_pulse() && !req.is_heartbeat());
    assert_eq!(req.request_id(), Some(3));
    assert!(matches!(dispatch(&mut p, req), WsAction::Generate { request_id: 3, max_tokens: Some(5), .. }));
    let pulse = SparkWsMessage::Pulse(event(8, &[(8, 1)]));
    assert!(pulse.is_pulse());
    assert_eq!(pulse.request_id(), None);
    match dispatch(&mut p, pulse) {
        WsAction::Broadcast(e) => assert_eq!(e.vector_clock[&7], 1),
        other => panic!("unexpected: {:?}", other),
    }
    assert!(SparkWsMessage::Ping.is_heartbeat());
    assert_eq!(pulse_channel(1), "sparknode:pulse:00000000-0000-0000-0000-000000000001");
}

fn node(id: u128) -> DagNode {
    DagNode { id, node_type: "scene".to_string(), title: None }
}

fn edge(id: u128, source: u128, target: u128) -> DagEdge {
    DagEdge { id, source, target, edge_type: "branch".to_string(), probability: 0, observer_weight: 0 }
}

#[test]
fn story_graphs_are_built_and_checked() {
    let g = build_story_dag(vec![node(1), node(2), node(3)], vec![edge(10, 1, 2), edge(11, 2, 3)]).unwrap();
    assert_eq!(g.edge_count(), 2);
    assert!(check_new_edge(&g, 1, 3).is_ok());
    assert!(matches!(check_new_edge(&g, 3, 1), Err(SpError::DagCycleDetected { source_id: 3, target_id: 1 })));
    match check_new_edge(&g, 1, 4) {
        Err(SpError::Internal(m)) => assert_eq!(m, "邊的源節點或目標節點不存在於此故事"),
        other => panic!("unexpected: {:?}", other),
    }
    assert!(matches!(build_story_dag(vec![node(1)], vec![edge(10, 1, 2)]), Err(SpError::Internal(_))));
    assert!(matches!(
        build_story_dag(vec![node(1), node(2)], vec![edge(10, 1, 2), edge(11, 2, 1)]),
        Err(SpError::DagCycleDetected { .. })
    ));
}
