//! The narrative service's requests: identifiers given as text are parsed,
//! checked and turned into commands, and refusals are classed by status.
use vstd::prelude::*;
use crate::domain::aggregate::AggregateError;
use crate::domain::commands::{CollapseBranchCommand, NarrativeCommand, ObserverSignalPayload, RollbackCommand};
use crate::domain::events::NarrativeEvent;

verus! {

/// The identifier that `uuid::Uuid::parse_str` reads from `text`, if it
/// reads one.
pub uninterp spec fn parsed_id(text: Seq<char>) -> Option<u128>;

/// Parses an identifier in any of the textual forms `uuid::Uuid::parse_str`
/// takes.
///
/// Calls `uuid::Uuid::parse_str`; its grammar (hyphenated, simple, braced
/// and URN forms) is not restated, only that the result is a function of the
/// text.
#[verifier::external_body]
pub(crate) fn parse_id(text: &str) -> (r: Option<u128>)
    ensures
        r == parsed_id(text@),
{
    uuid::Uuid::parse_str(text).ok().map(|u| u.as_u128())
}

/// Why a request was refused before reaching the story.
#[derive(Debug, Clone, Copy, PartialEq, Eq, Structural)]
pub enum RequestError {
    InvalidStoryId,
    InvalidReaderId,
    InvalidActorId,
    InvalidCheckpointId,
    MissingSignal,
}

/// How a refusal is reported to the caller.
#[derive(Debug, Clone, Copy, PartialEq, Eq, Structural)]
pub enum ServiceStatus {
    InvalidArgument,
    NotFound,
    OutOfRange,
    FailedPrecondition,
    Internal,
}

/// The status of a request error: every one is an invalid argument.
pub fn request_status(e: RequestError) -> (s: ServiceStatus)
    ensures
        s == ServiceStatus::InvalidArgument,
{
    ServiceStatus::InvalidArgument
}

/// The status of a refused command: a cycle is a failed precondition, a
/// missing node or edge is not found, a probability outside `[0, 1]` is out
/// of range, and anything else is a failed precondition.
pub fn refusal_status(e: &AggregateError) -> (s: ServiceStatus)
    ensures
        s == match e {
            AggregateError::NodeNotFound(_) | AggregateError::EdgeNotFound(_) => ServiceStatus::NotFound,
            AggregateError::InvalidProbability(_) => ServiceStatus::OutOfRange,
            _ => ServiceStatus::FailedPrecondition,
        },
{
    match e {
        AggregateError::NodeNotFound(_) | AggregateError::EdgeNotFound(_) => ServiceStatus::NotFound,
        AggregateError::InvalidProbability(_) => ServiceStatus::OutOfRange,
        _ => ServiceStatus::FailedPrecondition,
    }
}

/// A collapse request: the story id and the reader id must parse, and the
/// reader's signal must be present. The collapsing node is the story's own
/// id (the request carries no node of its own).
pub fn collapse_request(story_id: &str, reader_id: &str, signal: Option<ObserverSignalPayload>) -> (r: Result<NarrativeCommand, RequestError>)
    ensures
        match (parsed_id(story_id@), parsed_id(reader_id@), signal) {
            (None, _, _) => r == Err::<NarrativeCommand, RequestError>(RequestError::InvalidStoryId),
            (Some(_), None, _) => r == Err::<NarrativeCommand, RequestError>(RequestError::InvalidReaderId),
            (Some(_), Some(_), None) => r == Err::<NarrativeCommand, RequestError>(RequestError::MissingSignal),
            (Some(s), Some(rd), Some(sig)) => r == Ok::<NarrativeCommand, RequestError>(NarrativeCommand::CollapseBranch(
                CollapseBranchCommand { story_id: s, node_id: s, reader_id: rd, signal: sig },
            )),
        },
{
    let s = match parse_id(story_id) {
        Some(s) => s,
        None => return Err(RequestError::InvalidStoryId),
    };
    let rd = match parse_id(reader_id) {
        Some(rd) => rd,
        None => return Err(RequestError::InvalidReaderId),
    };
    match signal {
        Some(sig) => Ok(NarrativeCommand::CollapseBranch(CollapseBranchCommand { story_id: s, node_id: s, reader_id: rd, signal: sig })),
        None => Err(RequestError::MissingSignal),
    }
}

/// The story and actor of a command request, both parsed from text.
pub fn command_request(story_id: &str, actor_id: &str) -> (r: Result<(u128, u128), RequestError>)
    ensures
        match (parsed_id(story_id@), parsed_id(actor_id@)) {
            (None, _) => r == Err::<(u128, u128), RequestError>(RequestError::InvalidStoryId),
            (Some(_), None) => r == Err::<(u128, u128), RequestError>(RequestError::InvalidActorId),
            (Some(s), Some(a)) => r == Ok::<(u128, u128), RequestError>((s, a)),
        },
{
    let s = match parse_id(story_id) {
        Some(s) => s,
        None => return Err(RequestError::InvalidStoryId),
    };
    match parse_id(actor_id) {
        Some(a) => Ok((s, a)),
        None => Err(RequestError::InvalidActorId),
    }
}

/// A rollback request: the story id and the checkpoint id must parse.
pub fn rollback_request(story_id: &str, checkpoint_id: &str) -> (r: Result<NarrativeCommand, RequestError>)
    ensures
        match (parsed_id(story_id@), parsed_id(checkpoint_id@)) {
            (None, _) => r == Err::<NarrativeCommand, RequestError>(RequestError::InvalidStoryId),
            (Some(_), None) => r == Err::<NarrativeCommand, RequestError>(RequestError::InvalidCheckpointId),
            (Some(s), Some(c)) => r == Ok::<NarrativeCommand, RequestError>(
                NarrativeCommand::Rollback(RollbackCommand { story_id: s, checkpoint_id: c }),
            ),
        },
{
    let s = match parse_id(story_id) {
        Some(s) => s,
        None => return Err(RequestError::InvalidStoryId),
    };
    match parse_id(checkpoint_id) {
        Some(c) => Ok(NarrativeCommand::Rollback(RollbackCommand { story_id: s, checkpoint_id: c })),
        None => Err(RequestError::InvalidCheckpointId),
    }
}

/// The story of a timeline request, parsed from text.
pub fn timeline_request(story_id: &str) -> (r: Result<u128, RequestError>)
    ensures
        match parsed_id(story_id@) {
            None => r == Err::<u128, RequestError>(RequestError::InvalidStoryId),
            Some(s) => r == Ok::<u128, RequestError>(s),
        },
{
    match parse_id(story_id) {
        Some(s) => Ok(s),
        None => Err(RequestError::InvalidStoryId),
    }
}

/// The path a collapse chose: the collapsed path of the first event when it
/// is a collapse, nothing otherwise.
pub fn collapsed_path(events: &Vec<NarrativeEvent>) -> (r: Option<u128>)
    ensures
        r == (if events@.len() > 0 && events@[0] is BranchCollapsed {
            Some(events@[0]->collapsed_path_id)
        } else {
            None::<u128>
        }),
{
    if events.len() == 0 {
        return None;
    }
    match &events[0] {
        NarrativeEvent::BranchCollapsed { collapsed_path_id, .. } => Some(*collapsed_path_id),
        _ => None,
    }
}

} // verus!
