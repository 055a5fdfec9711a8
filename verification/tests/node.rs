use metasrv::messages::AppendEntriesRequest;
use metasrv::node::{
    settle, AdminReply, AdminRequest, Applied, ForwardError, ForwardRequest, ForwardRequestBody,
    Handled, MetaNode, NodeStatus, Outcome,
};
use metasrv::protocol::Role;
use metasrv::state_machine::Record;
use metasrv::messages::SnapshotMeta;
use metasrv::types::{AppliedState, LogEntry, LogId, MetadataCommand, Payload, StateMachineError};

fn upsert(key: &str, expected: Option<u64>, value: &str) -> MetadataCommand {
    MetadataCommand::Upsert {
        key: key.to_string(),
        expected_version: expected,
        value: value.to_string(),
    }
}

fn write(hops: u64, key: &str, expected: Option<u64>, value: &str) -> ForwardRequest {
    ForwardRequest {
        forward_to_leader: hops,
        body: ForwardRequestBody::Write(upsert(key, expected, value)),
    }
}

fn heartbeat(term: u64, leader: u64) -> AppendEntriesRequest {
    AppendEntriesRequest {
        term,
        leader,
        prev: LogId { term: 0, index: 0 },
        entries: vec![],
        leader_commit: 0,
    }
}

fn single_leader() -> MetaNode {
    let mut node = MetaNode::new(1, &vec![1]);
    node.election_timeout();
    node
}

/// A follower that takes `leader` for the leader of term 1.
fn follower_of(id: u64, leader: u64) -> MetaNode {
    let mut node = MetaNode::new(id, &vec![1, 2, 3, 4]);
    node.append_entries(heartbeat(1, leader));
    node
}

#[test]
fn leader_takes_a_write_and_applies_it_once_committed() {
    let mut node = single_leader();
    let handled = node.handle_forwardable_request(write(1, "a", Some(0), "x"));
    assert_eq!(handled, Ok(Handled::Pending(LogId { term: 1, index: 2 })));
    assert_eq!(node.last_applied(), 0);
    let applied = node.apply_committed();
    assert_eq!(
        applied,
        vec![
            Applied { id: LogId { term: 1, index: 1 }, state: AppliedState::Nothing },
            Applied { id: LogId { term: 1, index: 2 }, state: AppliedState::Written { version: 1 } },
        ]
    );
    assert_eq!(node.last_applied(), 2);
    assert_eq!(node.store().get(&"a".to_string()), Some((1, "x".to_string())));
    assert_eq!(node.apply_committed(), vec![]);
    assert_eq!(node.apply_next(), None);
}

#[test]
fn expected_version_scenario_through_the_node() {
    let mut node = single_leader();
    let mut results = Vec::new();
    for (expected, value) in [(0, "x"), (0, "y"), (1, "y")] {
        let pending = match node.handle_forwardable_request(write(1, "a", Some(expected), value)) {
            Ok(Handled::Pending(id)) => id,
            other => panic!("unexpected {:?}", other),
        };
        for applied in node.apply_committed() {
            if let Outcome::Done(state) = settle(pending, applied) {
                results.push(state);
            }
        }
    }
    assert_eq!(
        results,
        vec![
            AppliedState::Written { version: 1 },
            AppliedState::Refused(StateMachineError::VersionConflict { expected: 0, actual: 1 }),
            AppliedState::Written { version: 2 },
        ]
    );
    assert_eq!(node.store().get(&"a".to_string()), Some((2, "y".to_string())));
}

#[test]
fn follower_passes_a_write_on_with_one_hop_less() {
    let mut node = follower_of(2, 3);
    let handled = node.handle_forwardable_request(write(5, "a", None, "x"));
    assert_eq!(handled, Ok(Handled::Forward { to: 3, request: write(4, "a", None, "x") }));
    assert_eq!(node.engine().last_index(), 0);
}

#[test]
fn write_without_hops_fails_with_forward_loop() {
    let mut node = follower_of(2, 3);
    assert_eq!(
        node.handle_forwardable_request(write(0, "a", None, "x")),
        Err(ForwardError::ForwardLoop)
    );
    // Without hops the budget decides, known leader or not.
    let mut lost = MetaNode::new(2, &vec![1, 2, 3]);
    assert_eq!(
        lost.handle_forwardable_request(write(0, "a", None, "x")),
        Err(ForwardError::ForwardLoop)
    );
}

#[test]
fn write_without_a_known_leader_fails_with_no_leader() {
    let mut fresh = MetaNode::new(2, &vec![1, 2, 3]);
    assert_eq!(
        fresh.handle_forwardable_request(write(3, "a", None, "x")),
        Err(ForwardError::NoLeader)
    );
    let mut candidate = MetaNode::new(2, &vec![1, 2, 3]);
    candidate.election_timeout();
    assert_eq!(
        candidate.handle_forwardable_request(write(3, "a", None, "x")),
        Err(ForwardError::NoLeader)
    );
}

#[test]
fn request_is_passed_on_at_most_as_often_as_its_budget() {
    // Leadership in flux: each node takes the next for the leader, and none is.
    let mut ring = vec![follower_of(1, 2), follower_of(2, 3), follower_of(3, 4), follower_of(4, 1)];
    for budget in 0..6u64 {
        let mut request = write(budget, "a", None, "x");
        let mut at = 0usize;
        let mut forwards = 0u64;
        let end = loop {
            match ring[at].handle_forwardable_request(request) {
                Ok(Handled::Forward { to, request: next }) => {
                    forwards += 1;
                    assert_eq!(to as usize, (at + 1) % 4 + 1);
                    at = (at + 1) % 4;
                    request = next;
                }
                other => break other,
            }
        };
        assert_eq!(forwards, budget);
        assert_eq!(end, Err(ForwardError::ForwardLoop));
    }
}

#[test]
fn admin_requests_are_answered_from_local_state() {
    let mut node = single_leader();
    node.handle_forwardable_request(write(0, "a", None, "x")).unwrap();
    node.apply_committed();
    let get = ForwardRequest {
        forward_to_leader: 0,
        body: ForwardRequestBody::Admin(AdminRequest::Get("a".to_string())),
    };
    assert_eq!(
        node.handle_forwardable_request(get),
        Ok(Handled::Answer(AdminReply::Value(Some((1, "x".to_string())))))
    );
    let mut follower = follower_of(2, 3);
    let missing = ForwardRequest {
        forward_to_leader: 0,
        body: ForwardRequestBody::Admin(AdminRequest::Get("a".to_string())),
    };
    assert_eq!(
        follower.handle_forwardable_request(missing),
        Ok(Handled::Answer(AdminReply::Value(None)))
    );
    let status = ForwardRequest {
        forward_to_leader: 0,
        body: ForwardRequestBody::Admin(AdminRequest::Status),
    };
    assert_eq!(
        follower.handle_forwardable_request(status),
        Ok(Handled::Answer(AdminReply::Status(NodeStatus {
            id: 2,
            role: Role::Follower,
            term: 1,
            leader: Some(3),
            commit_index: 0,
            last_applied: 0,
        })))
    );
}

#[test]
fn waiting_caller_learns_result_or_loss() {
    let pending = LogId { term: 2, index: 7 };
    let state = AppliedState::Written { version: 3 };
    let at = |term, index| Applied { id: LogId { term, index }, state };
    assert_eq!(settle(pending, at(2, 6)), Outcome::Waiting);
    assert_eq!(settle(pending, at(2, 7)), Outcome::Done(state));
    assert_eq!(settle(pending, at(3, 7)), Outcome::Lost);
    assert_eq!(settle(pending, at(2, 8)), Outcome::Waiting);
}

#[test]
fn committed_membership_takes_effect_when_applied() {
    let mut node = MetaNode::new(2, &vec![1, 2]);
    node.append_entries(AppendEntriesRequest {
        term: 1,
        leader: 1,
        prev: LogId { term: 0, index: 0 },
        entries: vec![
            LogEntry { term: 1, index: 1, payload: Payload::Membership(vec![1, 2, 3, 3]) },
            LogEntry { term: 1, index: 2, payload: Payload::Write(upsert("a", None, "x")) },
        ],
        leader_commit: 1,
    });
    assert_eq!(node.engine().members(), vec![1, 2]);
    let first = node.apply_next();
    assert_eq!(
        first,
        Some(Applied { id: LogId { term: 1, index: 1 }, state: AppliedState::Nothing })
    );
    assert_eq!(node.engine().members(), vec![1, 2, 3]);
    // The second entry is not committed yet.
    assert_eq!(node.apply_next(), None);
    assert_eq!(node.store().get(&"a".to_string()), None);
}

#[test]
fn snapshot_is_taken_and_installed() {
    let mut leader = single_leader();
    leader.handle_forwardable_request(write(0, "a", None, "x")).unwrap();
    leader.handle_forwardable_request(write(0, "b", None, "y")).unwrap();
    leader.apply_committed();
    let (last, members, records) = leader.snapshot();
    assert_eq!(last, LogId { term: 1, index: 3 });
    assert_eq!(members, vec![1]);
    assert_eq!(
        records,
        vec![
            Record { key: "a".to_string(), version: 1, value: "x".to_string() },
            Record { key: "b".to_string(), version: 1, value: "y".to_string() },
        ]
    );
    assert_eq!(leader.engine().entry(3), None);
    assert_eq!(leader.engine().last_index(), 3);

    let mut follower = MetaNode::new(2, &vec![1, 2]);
    let meta = SnapshotMeta { term: 1, leader: 1, last, members: vec![1, 2] };
    let bad = vec![
        Record { key: "a".to_string(), version: 1, value: "x".to_string() },
        Record { key: "a".to_string(), version: 2, value: "y".to_string() },
    ];
    assert_eq!(follower.install_snapshot(&meta, bad), None);
    assert_eq!(follower.engine().current_term(), 0);
    let reply = follower.install_snapshot(&meta, records).unwrap();
    assert!(reply.installed);
    assert_eq!(follower.last_applied(), 3);
    assert_eq!(follower.engine().commit_index(), 3);
    assert_eq!(follower.store().get(&"b".to_string()), Some((1, "y".to_string())));
    assert_eq!(follower.apply_committed(), vec![]);
}
