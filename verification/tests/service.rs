use arrow_format::flight::data::BasicAuth;
use metasrv::errors::{
    code_of_applied, refusal_of_append, refusal_of_write, ConsensusError, ProtocolError,
    RetryAdvice, ServiceError, StatusCode,
};
use metasrv::messages::{AppendEntriesRequest, SnapshotMeta};
use metasrv::node::{
    AdminReply, AdminRequest, ForwardError, ForwardRequest, ForwardRequestBody, Handled, MetaNode,
};
use metasrv::protocol::{AppendReply, VoteReply, VoteRequest, WriteError};
use metasrv::service::{GetReply, MetaServiceImpl, WRITE_HOPS};
use metasrv::state_machine::Record;
use metasrv::token::{AuthError, Claim, TokenService};
use metasrv::types::{AppliedState, LogEntry, LogId, MetadataCommand, Payload, StateMachineError};
use metasrv::wire::{read_credential, Credential};
use prost::Message;

fn upsert(key: &str, expected: Option<u64>, value: &str) -> MetadataCommand {
    MetadataCommand::Upsert {
        key: key.to_string(),
        expected_version: expected,
        value: value.to_string(),
    }
}

fn credential(user: &str, password: &str) -> Vec<u8> {
    BasicAuth { username: user.to_string(), password: password.to_string() }.encode_to_vec()
}

fn leader_service() -> MetaServiceImpl {
    let mut node = MetaNode::new(1, &vec![1]);
    node.election_timeout();
    MetaServiceImpl::create(node, b"k".to_vec())
}

fn follower_service() -> MetaServiceImpl {
    let mut node = MetaNode::new(2, &vec![1, 2, 3]);
    node.append_entries(AppendEntriesRequest {
        term: 1,
        leader: 3,
        prev: LogId { term: 0, index: 0 },
        entries: vec![],
        leader_commit: 0,
    });
    MetaServiceImpl::create(node, b"k".to_vec())
}

#[test]
fn credential_is_read_from_a_basic_auth_message() {
    let read = read_credential(&credential("root", "secret"));
    assert_eq!(
        read,
        Some(Credential { username: "root".to_string(), password: "secret".to_string() })
    );
    assert_eq!(
        read_credential(&[]),
        Some(Credential { username: String::new(), password: String::new() })
    );
    assert_eq!(read_credential(&[0xff]), None);
    // Field 2 announced with a length that the payload does not have.
    assert_eq!(read_credential(&[0x12, 0x05, b'r']), None);
}

#[test]
fn handshake_with_the_root_credential_gives_one_token() {
    let service = leader_service();
    let payload = credential("root", "");
    let token = service.handshake(Some(&payload)).unwrap();
    assert_eq!(token, TokenService::new(b"k".to_vec()).issue(&Claim { username: "root".to_string() }));
    assert_eq!(service.check_token(Some(&token)), Ok(Claim { username: "root".to_string() }));
}

#[test]
fn handshake_with_an_unknown_principal_is_unauthenticated() {
    let service = leader_service();
    let payload = credential("mallory", "root");
    let err = service.handshake(Some(&payload)).unwrap_err();
    assert_eq!(err, ServiceError::UnknownPrincipal("mallory".to_string()));
    assert_eq!(err.code(), StatusCode::Unauthenticated);
    assert_eq!(err.message(), "Unknown user: mallory");
    assert_eq!(err.advice(), RetryAdvice::FixRequest);
}

#[test]
fn handshake_without_a_readable_frame_is_refused() {
    let service = leader_service();
    let none = service.handshake(None).unwrap_err();
    assert_eq!(none, ServiceError::Protocol(ProtocolError::MissingFrame));
    assert_eq!(none.code(), StatusCode::InvalidArgument);
    let garbage = service.handshake(Some(&[0xff, 0xff])).unwrap_err();
    assert_eq!(garbage, ServiceError::Protocol(ProtocolError::Undecodable));
    assert_eq!(garbage.code(), StatusCode::InvalidArgument);
    assert_eq!(service.grant(None), Err(ServiceError::Protocol(ProtocolError::Undecodable)));
}

#[test]
fn token_check_reports_why_a_token_fails() {
    let service = leader_service();
    assert_eq!(service.check_token(None), Err(ServiceError::Auth(AuthError::Missing)));
    assert_eq!(service.check_token(Some(b"short")), Err(ServiceError::Auth(AuthError::Invalid)));
    let foreign = TokenService::new(b"other".to_vec()).issue(&Claim { username: "root".to_string() });
    let err = service.check_token(Some(&foreign)).unwrap_err();
    assert_eq!(err, ServiceError::Auth(AuthError::Unverified));
    assert_eq!(err.code(), StatusCode::Unauthenticated);
    assert_eq!(err.advice(), RetryAdvice::FixRequest);
}

#[test]
fn write_needs_no_token_and_may_be_passed_on_once() {
    assert_eq!(WRITE_HOPS, 1);
    let mut leader = leader_service();
    assert_eq!(
        leader.write(upsert("a", Some(0), "x")),
        Ok(Handled::Pending(LogId { term: 1, index: 2 }))
    );
    let mut follower = follower_service();
    assert_eq!(
        follower.write(upsert("a", Some(0), "x")),
        Ok(Handled::Forward {
            to: 3,
            request: ForwardRequest {
                forward_to_leader: 0,
                body: ForwardRequestBody::Write(upsert("a", Some(0), "x")),
            },
        })
    );
}

#[test]
fn forward_needs_a_token_that_verifies() {
    let mut follower = follower_service();
    let request = || ForwardRequest {
        forward_to_leader: 0,
        body: ForwardRequestBody::Write(upsert("a", None, "x")),
    };
    assert_eq!(follower.forward(None, request()), Err(ServiceError::Auth(AuthError::Missing)));
    let token = follower.handshake(Some(&credential("root", ""))).unwrap();
    let err = follower.forward(Some(&token), request()).unwrap_err();
    assert_eq!(
        err,
        ServiceError::Forward { error: ForwardError::ForwardLoop, leader: Some(3), term: 1 }
    );
    assert_eq!(err.code(), StatusCode::FailedPrecondition);
    assert_eq!(err.advice(), RetryAdvice::RetryElsewhere(Some(3)));

    let mut leader = leader_service();
    // The same key signs on every node: a token of one node is good at another.
    assert_eq!(
        leader.forward(Some(&token), request()),
        Ok(Handled::Pending(LogId { term: 1, index: 2 }))
    );
    let status = ForwardRequest {
        forward_to_leader: 0,
        body: ForwardRequestBody::Admin(AdminRequest::Get("zz".to_string())),
    };
    assert_eq!(leader.forward(Some(&token), status), Ok(Handled::Answer(AdminReply::Value(None))));
}

#[test]
fn failure_without_a_leader_asks_to_retry_here() {
    let mut service = MetaServiceImpl::create(MetaNode::new(2, &vec![1, 2, 3]), vec![]);
    let err = service.write(upsert("a", None, "x")).unwrap_err();
    assert_eq!(err, ServiceError::Forward { error: ForwardError::NoLeader, leader: None, term: 0 });
    assert_eq!(err.code(), StatusCode::FailedPrecondition);
    assert_eq!(err.advice(), RetryAdvice::RetryHere);
    assert_eq!(err.message(), "no leader is known");
}

#[test]
fn every_failure_has_its_category() {
    let cases = vec![
        (ServiceError::Auth(AuthError::Missing), StatusCode::Unauthenticated, "auth token is missing"),
        (ServiceError::Auth(AuthError::Invalid), StatusCode::Unauthenticated, "auth token is invalid"),
        (
            ServiceError::Auth(AuthError::Unverified),
            StatusCode::Unauthenticated,
            "auth token is not verified",
        ),
        (
            ServiceError::Protocol(ProtocolError::MissingFrame),
            StatusCode::InvalidArgument,
            "request stream is empty",
        ),
        (
            ServiceError::Protocol(ProtocolError::Undecodable),
            StatusCode::InvalidArgument,
            "request cannot be decoded",
        ),
        (
            ServiceError::Protocol(ProtocolError::Malformed),
            StatusCode::InvalidArgument,
            "request is malformed",
        ),
        (
            ServiceError::Forward { error: ForwardError::ForwardLoop, leader: None, term: 2 },
            StatusCode::FailedPrecondition,
            "request was forwarded too often",
        ),
        (
            ServiceError::Forward { error: ForwardError::LogFull, leader: Some(1), term: 2 },
            StatusCode::Internal,
            "log is full",
        ),
        (ServiceError::Internal, StatusCode::Internal, "internal failure"),
    ];
    for (err, code, message) in cases {
        assert_eq!(err.code(), code);
        assert_eq!(err.message(), message);
    }
    assert_eq!(ServiceError::Internal.advice(), RetryAdvice::RetryHere);
    assert_eq!(
        ServiceError::Forward { error: ForwardError::LogFull, leader: Some(1), term: 2 }.advice(),
        RetryAdvice::RetryHere
    );
}

#[test]
fn applied_results_are_reported_by_category() {
    assert_eq!(code_of_applied(AppliedState::Nothing), None);
    assert_eq!(code_of_applied(AppliedState::Written { version: 1 }), None);
    assert_eq!(code_of_applied(AppliedState::Removed { version: 1 }), None);
    assert_eq!(
        code_of_applied(AppliedState::Refused(StateMachineError::VersionConflict {
            expected: 0,
            actual: 1
        })),
        Some(StatusCode::FailedPrecondition)
    );
    assert_eq!(
        code_of_applied(AppliedState::Refused(StateMachineError::NotFound)),
        Some(StatusCode::FailedPrecondition)
    );
    assert_eq!(
        code_of_applied(AppliedState::Refused(StateMachineError::VersionExhausted)),
        Some(StatusCode::Internal)
    );
}

#[test]
fn get_never_fails_on_a_missing_key() {
    let mut service = leader_service();
    assert_eq!(
        service.get("a".to_string()),
        GetReply { ok: false, key: "a".to_string(), value: String::new() }
    );
    service.write(upsert("a", None, "x")).unwrap();
    service.meta_node.apply_committed();
    assert_eq!(
        service.get("a".to_string()),
        GetReply { ok: true, key: "a".to_string(), value: "x".to_string() }
    );
}

#[test]
fn consensus_requests_are_dispatched_to_the_node() {
    let mut service = MetaServiceImpl::create(MetaNode::new(2, &vec![1, 2, 3]), vec![]);
    let vote = service.vote(VoteRequest {
        term: 1,
        candidate: 1,
        last_log: LogId { term: 0, index: 0 },
    });
    assert_eq!(vote, VoteReply { term: 1, granted: true });
    let reply = service.append_entries(AppendEntriesRequest {
        term: 1,
        leader: 1,
        prev: LogId { term: 0, index: 0 },
        entries: vec![LogEntry { term: 1, index: 1, payload: Payload::Blank }],
        leader_commit: 1,
    });
    assert_eq!(reply, Ok(AppendReply { term: 1, success: true, match_index: 1 }));
    let gap = service.append_entries(AppendEntriesRequest {
        term: 1,
        leader: 1,
        prev: LogId { term: 1, index: 1 },
        entries: vec![LogEntry { term: 1, index: 3, payload: Payload::Blank }],
        leader_commit: 1,
    });
    assert_eq!(gap, Err(ServiceError::Protocol(ProtocolError::Malformed)));
    assert_eq!(service.meta_node.engine().last_index(), 1);

    let meta = SnapshotMeta {
        term: 1,
        leader: 1,
        last: LogId { term: 1, index: 4 },
        members: vec![1, 2, 3],
    };
    let twice = vec![
        Record { key: "a".to_string(), version: 1, value: String::new() },
        Record { key: "a".to_string(), version: 1, value: String::new() },
    ];
    assert_eq!(
        service.install_snapshot(&meta, twice),
        Err(ServiceError::Protocol(ProtocolError::Malformed))
    );
    let once = vec![Record { key: "a".to_string(), version: 5, value: "v".to_string() }];
    let installed = service.install_snapshot(&meta, once).unwrap();
    assert!(installed.installed);
    assert_eq!(service.get("a".to_string()).value, "v");
}

#[test]
fn refusals_of_the_engine_say_how_to_retry() {
    let taken = AppendReply { term: 3, success: true, match_index: 7 };
    assert_eq!(refusal_of_append(3, taken), None);
    let stale = AppendReply { term: 5, success: false, match_index: 0 };
    assert_eq!(refusal_of_append(3, stale), Some(ConsensusError::StaleTerm { current_term: 5 }));
    let mismatch = AppendReply { term: 3, success: false, match_index: 0 };
    assert_eq!(refusal_of_append(3, mismatch), Some(ConsensusError::LogMismatch));
    assert_eq!(
        refusal_of_write(WriteError::NotLeader { leader: Some(2) }),
        ConsensusError::NotLeader { leader: Some(2) }
    );
    assert_eq!(refusal_of_write(WriteError::LogFull), ConsensusError::LogFull);
}
