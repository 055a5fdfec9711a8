//! What the service reports when a request fails, and what a caller is to do about it.

use vstd::prelude::*;
use crate::node::ForwardError;
use crate::protocol::{AppendReply, WriteError};
use crate::token::AuthError;
use crate::types::{AppliedState, NodeId, StateMachineError};

verus! {

/// The category of a failure at the service's boundary.
#[derive(Clone, Copy, Debug, PartialEq, Eq, Structural)]
pub enum StatusCode {
    InvalidArgument,
    Unauthenticated,
    FailedPrecondition,
    Internal,
}

/// What a caller is to do about a failure.
#[derive(Clone, Copy, Debug, PartialEq, Eq, Structural)]
pub enum RetryAdvice {
    /// Ask the same node again, later.
    RetryHere,
    /// Ask another node: the leader, where one is named.
    RetryElsewhere(Option<NodeId>),
    /// The request itself is at fault: asking again does not help.
    FixRequest,
}

/// Why a request could not be read.
#[derive(Clone, Copy, Debug, PartialEq, Eq, Structural)]
pub enum ProtocolError {
    /// The stream ended before its first frame.
    MissingFrame,
    /// The bytes are not the message that the operation takes.
    Undecodable,
    /// The message breaks a rule of its kind.
    Malformed,
}

/// A failure at the service's boundary.
#[derive(Debug, PartialEq, Eq)]
pub enum ServiceError {
    /// The token is missing or not accepted.
    Auth(AuthError),
    /// The handshake named a principal that the service does not know.
    UnknownPrincipal(String),
    /// The request could not be read.
    Protocol(ProtocolError),
    /// The node neither took the request nor passed it on. `leader` and `term` are
    /// what the node knew when it failed.
    Forward { error: ForwardError, leader: Option<NodeId>, term: u64 },
    /// A failure inside the service.
    Internal,
}

/// What a `ServiceError` is, as plain values.
pub enum ErrorView {
    Auth(AuthError),
    UnknownPrincipal(Seq<char>),
    Protocol(ProtocolError),
    Forward { error: ForwardError, leader: Option<NodeId>, term: u64 },
    Internal,
}

impl View for ServiceError {
    type V = ErrorView;

    open spec fn view(&self) -> ErrorView {
        match *self {
            ServiceError::Auth(e) => ErrorView::Auth(e),
            ServiceError::UnknownPrincipal(name) => ErrorView::UnknownPrincipal(name@),
            ServiceError::Protocol(e) => ErrorView::Protocol(e),
            ServiceError::Forward { error, leader, term } => ErrorView::Forward {
                error,
                leader,
                term,
            },
            ServiceError::Internal => ErrorView::Internal,
        }
    }
}

impl ErrorView {
    /// The category of the failure: a request that cannot be read is an invalid
    /// argument; a token or principal that is not accepted is unauthenticated; a node
    /// that is no leader fails a precondition; the rest is internal.
    pub open spec fn code(self) -> StatusCode {
        match self {
            ErrorView::Auth(_) => StatusCode::Unauthenticated,
            ErrorView::UnknownPrincipal(_) => StatusCode::Unauthenticated,
            ErrorView::Protocol(_) => StatusCode::InvalidArgument,
            ErrorView::Forward { error: ForwardError::LogFull, .. } => StatusCode::Internal,
            ErrorView::Forward { .. } => StatusCode::FailedPrecondition,
            ErrorView::Internal => StatusCode::Internal,
        }
    }

    /// What the caller is to do: a request at fault is to be fixed; a request that
    /// ran out of hops is to go to the leader; without a known leader, and after an
    /// internal failure, the same node is to be asked again.
    pub open spec fn advice(self) -> RetryAdvice {
        match self {
            ErrorView::Auth(_) => RetryAdvice::FixRequest,
            ErrorView::UnknownPrincipal(_) => RetryAdvice::FixRequest,
            ErrorView::Protocol(_) => RetryAdvice::FixRequest,
            ErrorView::Forward { error: ForwardError::ForwardLoop, leader, .. } => {
                RetryAdvice::RetryElsewhere(leader)
            },
            ErrorView::Forward { .. } => RetryAdvice::RetryHere,
            ErrorView::Internal => RetryAdvice::RetryHere,
        }
    }

    /// The failure in words. An unknown principal is named.
    pub open spec fn message(self) -> Seq<char> {
        match self {
            ErrorView::Auth(AuthError::Missing) => "auth token is missing"@,
            ErrorView::Auth(AuthError::Invalid) => "auth token is invalid"@,
            ErrorView::Auth(AuthError::Unverified) => "auth token is not verified"@,
            ErrorView::UnknownPrincipal(name) => "Unknown user: "@ + name,
            ErrorView::Protocol(ProtocolError::MissingFrame) => "request stream is empty"@,
            ErrorView::Protocol(ProtocolError::Undecodable) => "request cannot be decoded"@,
            ErrorView::Protocol(ProtocolError::Malformed) => "request is malformed"@,
            ErrorView::Forward { error: ForwardError::NoLeader, .. } => "no leader is known"@,
            ErrorView::Forward { error: ForwardError::ForwardLoop, .. } => {
                "request was forwarded too often"@
            },
            ErrorView::Forward { error: ForwardError::LogFull, .. } => "log is full"@,
            ErrorView::Internal => "internal failure"@,
        }
    }
}

/// Joins two texts, with `format!`.
#[verifier::external_body]
fn joined(a: &str, b: &str) -> (r: String)
    ensures
        r@ == a@ + b@,
{
    format!("{}{}", a, b)
}

impl ServiceError {
    /// The category of the failure.
    pub fn code(&self) -> (r: StatusCode)
        ensures
            r == self@.code(),
    {
        match self {
            ServiceError::Auth(_) => StatusCode::Unauthenticated,
            ServiceError::UnknownPrincipal(_) => StatusCode::Unauthenticated,
            ServiceError::Protocol(_) => StatusCode::InvalidArgument,
            ServiceError::Forward { error, .. } => match error {
                ForwardError::LogFull => StatusCode::Internal,
                _ => StatusCode::FailedPrecondition,
            },
            ServiceError::Internal => StatusCode::Internal,
        }
    }

    /// What the caller is to do about the failure.
    pub fn advice(&self) -> (r: RetryAdvice)
        ensures
            r == self@.advice(),
    {
        match self {
            ServiceError::Auth(_) => RetryAdvice::FixRequest,
            ServiceError::UnknownPrincipal(_) => RetryAdvice::FixRequest,
            ServiceError::Protocol(_) => RetryAdvice::FixRequest,
            ServiceError::Forward { error, leader, .. } => match error {
                ForwardError::ForwardLoop => RetryAdvice::RetryElsewhere(*leader),
                _ => RetryAdvice::RetryHere,
            },
            ServiceError::Internal => RetryAdvice::RetryHere,
        }
    }

    /// The failure in words.
    pub fn message(&self) -> (r: String)
        ensures
            r@ == self@.message(),
    {
        match self {
            ServiceError::Auth(e) => match e {
                AuthError::Missing => "auth token is missing".to_owned(),
                AuthError::Invalid => "auth token is invalid".to_owned(),
                AuthError::Unverified => "auth token is not verified".to_owned(),
            },
            ServiceError::UnknownPrincipal(name) => joined("Unknown user: ", name.as_str()),
            ServiceError::Protocol(e) => match e {
                ProtocolError::MissingFrame => "request stream is empty".to_owned(),
                ProtocolError::Undecodable => "request cannot be decoded".to_owned(),
                ProtocolError::Malformed => "request is malformed".to_owned(),
            },
            ServiceError::Forward { error, .. } => match error {
                ForwardError::NoLeader => "no leader is known".to_owned(),
                ForwardError::ForwardLoop => "request was forwarded too often".to_owned(),
                ForwardError::LogFull => "log is full".to_owned(),
            },
            ServiceError::Internal => "internal failure".to_owned(),
        }
    }
}

/// Why the consensus engine refused a request. Each says what the caller needs to
/// try again in the right place: the term to catch up with, or the leader to turn to.
#[derive(Clone, Copy, Debug, PartialEq, Eq, Structural)]
pub enum ConsensusError {
    /// The request came from a term behind the node's own, which is `current_term`.
    StaleTerm { current_term: u64 },
    /// The node does not hold the entry before the request's entries, or would have
    /// to give up a committed entry: the leader is to go back and try earlier entries.
    LogMismatch,
    /// The node is no leader; `leader` is the one it knows of, if any.
    NotLeader { leader: Option<NodeId> },
    /// The leader's log has no index left.
    LogFull,
}

/// What an answer to an append-entries request of term `req_term` says of a refusal:
/// nothing where the entries were taken; a stale term where the answer's term is
/// ahead of the request's; else a log mismatch.
pub open spec fn append_refusal(req_term: u64, reply: AppendReply) -> Option<ConsensusError> {
    if reply.success {
        None
    } else if reply.term > req_term {
        Some(ConsensusError::StaleTerm { current_term: reply.term })
    } else {
        Some(ConsensusError::LogMismatch)
    }
}

/// Decides `append_refusal`.
pub fn refusal_of_append(req_term: u64, reply: AppendReply) -> (r: Option<ConsensusError>)
    ensures
        r == append_refusal(req_term, reply),
{
    if reply.success {
        None
    } else if reply.term > req_term {
        Some(ConsensusError::StaleTerm { current_term: reply.term })
    } else {
        Some(ConsensusError::LogMismatch)
    }
}

/// The refusal of a write as a consensus error.
pub fn refusal_of_write(e: WriteError) -> (r: ConsensusError)
    ensures
        r == match e {
            WriteError::NotLeader { leader } => ConsensusError::NotLeader { leader },
            WriteError::LogFull => ConsensusError::LogFull,
        },
{
    match e {
        WriteError::NotLeader { leader } => ConsensusError::NotLeader { leader },
        WriteError::LogFull => ConsensusError::LogFull,
    }
}

/// The category under which the result of an applied entry is reported: none for a
/// success; a version conflict and a missing key fail a precondition.
pub open spec fn applied_code(state: AppliedState) -> Option<StatusCode> {
    match state {
        AppliedState::Refused(StateMachineError::VersionExhausted) => Some(StatusCode::Internal),
        AppliedState::Refused(_) => Some(StatusCode::FailedPrecondition),
        _ => None,
    }
}

/// Decides `applied_code`.
pub fn code_of_applied(state: AppliedState) -> (r: Option<StatusCode>)
    ensures
        r == applied_code(state),
{
    match state {
        AppliedState::Refused(e) => match e {
            StateMachineError::VersionExhausted => Some(StatusCode::Internal),
            _ => Some(StatusCode::FailedPrecondition),
        },
        _ => None,
    }
}

} // verus!
