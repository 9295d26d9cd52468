use sparknode::domain::aggregate::AggregateError;
use sparknode::domain::commands::{NarrativeCommand, ObserverSignalPayload};
use sparknode::gateway::rpc::{
    collapse_request, command_request, refusal_status, rollback_request, timeline_request, RequestError, ServiceStatus,
};

fn signal() -> ObserverSignalPayload {
    ObserverSignalPayload { valence: 0.5f64.to_bits(), arousal: 0.2f64.to_bits(), dominance: 0, gaze_duration_ms: None, focused_entity_id: None }
}

const STORY: &str = "6ba7b810-9dad-11d1-80b4-00c04fd430c8";
const READER: &str = "00000000-0000-0000-0000-000000000007";

#[test]
fn collapse_requests_check_ids_then_signal() {
    match collapse_request(STORY, READER, Some(signal())) {
        Ok(NarrativeCommand::CollapseBranch(c)) => {
            assert_eq!(c.story_id, 0x6ba7b8109dad11d180b400c04fd430c8);
            assert_eq!(c.node_id, c.story_id);
            assert_eq!(c.reader_id, 7);
            assert_eq!(c.signal.valence, 0.5f64.to_bits());
        }
        other => panic!("unexpected: {:?}", other),
    }
    assert!(matches!(collapse_request("not-a-uuid", "also-bad", None), Err(RequestError::InvalidStoryId)));
    assert!(matches!(collapse_request(STORY, "bad", None), Err(RequestError::InvalidReaderId)));
    assert!(matches!(collapse_request(STORY, READER, None), Err(RequestError::MissingSignal)));
}

#[test]
fn other_requests_parse_their_ids() {
    assert_eq!(command_request(STORY, READER), Ok((0x6ba7b8109dad11d180b400c04fd430c8, 7)));
    assert_eq!(command_request(STORY, "x"), Err(RequestError::InvalidActorId));
    assert!(matches!(rollback_request(STORY, READER), Ok(NarrativeCommand::Rollback(r)) if r.checkpoint_id == 7));
    assert!(matches!(rollback_request(STORY, ""), Err(RequestError::InvalidCheckpointId)));
    assert_eq!(timeline_request("6BA7B8109DAD11D180B400C04FD430C8"), Ok(0x6ba7b8109dad11d180b400c04fd430c8));
    assert_eq!(timeline_request("nope"), Err(RequestError::InvalidStoryId));
}

#[test]
fn refusals_map_to_statuses() {
    assert_eq!(refusal_status(&AggregateError::NodeNotFound(1)), ServiceStatus::NotFound);
    assert_eq!(refusal_status(&AggregateError::EdgeNotFound(1)), ServiceStatus::NotFound);
    assert_eq!(refusal_status(&AggregateError::InvalidProbability(0)), ServiceStatus::OutOfRange);
    assert_eq!(refusal_status(&AggregateError::CycleDetected("a".into(), "b".into())), ServiceStatus::FailedPrecondition);
}
