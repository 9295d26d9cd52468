use sparknode::gateway::pulse::pulse_channel;
use sparknode::prim::{float_greater, probability_out_of_range};
use sparknode::records::StoryNode;
use sparknode::types::{AutonomyLevel, EdgeType, MemoryType, NodeType, SpError, parse_edge_type, parse_node_type};

#[test]
fn labels_round_trip() {
    for t in [NodeType::Scene, NodeType::Dialogue, NodeType::Decision, NodeType::Combat, NodeType::Transition, NodeType::SystemEvent] {
        assert_eq!(parse_node_type(t.as_str()).unwrap(), t);
    }
    for t in [EdgeType::Causal, EdgeType::Branch, EdgeType::Parallel, EdgeType::Temporal, EdgeType::Conditional] {
        assert_eq!(parse_edge_type(t.as_str()).unwrap(), t);
    }
    assert_eq!(NodeType::SystemEvent.as_str(), "system_event");
    assert_eq!(AutonomyLevel::Transcendent.as_str(), "transcendent");
    assert_eq!(MemoryType::Procedural.as_str(), "procedural");
}

#[test]
fn unknown_labels_are_refused() {
    match parse_node_type("villain") {
        Err(SpError::Internal(m)) => assert_eq!(m, "無效的 node_type: villain"),
        other => panic!("unexpected: {:?}", other),
    }
    match parse_edge_type("Causal") {
        Err(SpError::Internal(m)) => assert_eq!(m, "無效的 edge_type: Causal"),
        other => panic!("unexpected: {:?}", other),
    }
}

#[test]
fn status_codes() {
    assert_eq!(SpError::NodeNotFound(1).status_code(), 404);
    assert_eq!(SpError::Auth("x".to_string()).status_code(), 401);
    assert_eq!(SpError::Forbidden("x".to_string()).status_code(), 403);
    assert_eq!(SpError::DagCycleDetected { source_id: 1, target_id: 2 }.status_code(), 422);
    assert_eq!(SpError::ProbabilityNotNormalized { sum: 2.0f64.to_bits() }.status_code(), 422);
    assert_eq!(SpError::Internal("x".to_string()).status_code(), 500);
    assert_eq!(SpError::AllProvidersUnavailable.status_code(), 500);
}

#[test]
fn ids_render_like_uuids() {
    for _ in 0..20 {
        let n = StoryNode::new(7, NodeType::Scene, None);
        let u = uuid::Uuid::from_u128(n.id);
        assert_eq!(u.get_version_num(), 4);
        assert_eq!(pulse_channel(n.id), format!("sparknode:pulse:{}", u));
    }
    assert_eq!(pulse_channel(1), "sparknode:pulse:00000000-0000-0000-0000-000000000001");
}

#[test]
fn float_comparisons_match_ieee() {
    let samples = [0.0f64, -0.0, 1.0, -1.0, 0.5, 1.5, 1e-300, -1e300, f64::INFINITY, f64::NEG_INFINITY, f64::NAN];
    for a in samples {
        for b in samples {
            assert_eq!(float_greater(a.to_bits(), b.to_bits()), a > b, "{} > {}", a, b);
        }
        assert_eq!(probability_out_of_range(a.to_bits()), a < 0.0 || a > 1.0);
    }
}
