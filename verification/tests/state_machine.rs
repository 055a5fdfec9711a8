use metasrv::state_machine::{Record, StateMachine};
use metasrv::types::{AppliedState, LogEntry, MetadataCommand, Payload, StateMachineError};

fn upsert(key: &str, expected: Option<u64>, value: &str) -> MetadataCommand {
    MetadataCommand::Upsert {
        key: key.to_string(),
        expected_version: expected,
        value: value.to_string(),
    }
}

fn delete(key: &str, expected: Option<u64>) -> MetadataCommand {
    MetadataCommand::Delete { key: key.to_string(), expected_version: expected }
}

fn record(key: &str, version: u64, value: &str) -> Record {
    Record { key: key.to_string(), version, value: value.to_string() }
}

#[test]
fn expected_version_write_scenario() {
    let mut sm = StateMachine::new();
    let first = sm.apply_command(&upsert("a", Some(0), "x"));
    assert_eq!(first, AppliedState::Written { version: 1 });
    let second = sm.apply_command(&upsert("a", Some(0), "y"));
    assert_eq!(
        second,
        AppliedState::Refused(StateMachineError::VersionConflict { expected: 0, actual: 1 })
    );
    assert_eq!(sm.get(&"a".to_string()), Some((1, "x".to_string())));
    let third = sm.apply_command(&upsert("a", Some(1), "y"));
    assert_eq!(third, AppliedState::Written { version: 2 });
    assert_eq!(sm.get(&"a".to_string()), Some((2, "y".to_string())));
}

#[test]
fn unconditional_upsert_counts_versions_per_key() {
    let mut sm = StateMachine::new();
    assert_eq!(sm.apply_command(&upsert("a", None, "1")), AppliedState::Written { version: 1 });
    assert_eq!(sm.apply_command(&upsert("b", None, "1")), AppliedState::Written { version: 1 });
    assert_eq!(sm.apply_command(&upsert("a", None, "2")), AppliedState::Written { version: 2 });
    assert_eq!(sm.version(&"a".to_string()), 2);
    assert_eq!(sm.version(&"b".to_string()), 1);
    assert_eq!(sm.version(&"c".to_string()), 0);
    assert_eq!(sm.get(&"c".to_string()), None);
}

#[test]
fn delete_removes_a_key_and_its_version() {
    let mut sm = StateMachine::new();
    sm.apply_command(&upsert("a", None, "1"));
    sm.apply_command(&upsert("a", None, "2"));
    sm.apply_command(&upsert("b", None, "3"));
    assert_eq!(
        sm.apply_command(&delete("a", Some(1))),
        AppliedState::Refused(StateMachineError::VersionConflict { expected: 1, actual: 2 })
    );
    assert_eq!(sm.apply_command(&delete("a", Some(2))), AppliedState::Removed { version: 2 });
    assert_eq!(sm.get(&"a".to_string()), None);
    assert_eq!(sm.get(&"b".to_string()), Some((1, "3".to_string())));
    assert_eq!(
        sm.apply_command(&delete("a", None)),
        AppliedState::Refused(StateMachineError::NotFound)
    );
    assert_eq!(
        sm.apply_command(&delete("zz", Some(0))),
        AppliedState::Refused(StateMachineError::NotFound)
    );
    // A key that was removed starts again at version 1.
    assert_eq!(sm.apply_command(&upsert("a", Some(0), "4")), AppliedState::Written { version: 1 });
}

#[test]
fn version_that_cannot_grow_is_refused() {
    let mut sm = StateMachine::from_records(vec![record("a", u64::MAX, "x")]).unwrap();
    assert_eq!(
        sm.apply_command(&upsert("a", None, "y")),
        AppliedState::Refused(StateMachineError::VersionExhausted)
    );
    assert_eq!(sm.get(&"a".to_string()), Some((u64::MAX, "x".to_string())));
}

#[test]
fn entries_without_a_command_change_nothing() {
    let mut sm = StateMachine::new();
    sm.apply_command(&upsert("a", None, "1"));
    let blank = LogEntry { term: 1, index: 2, payload: Payload::Blank };
    let members = LogEntry { term: 1, index: 3, payload: Payload::Membership(vec![1, 2]) };
    assert_eq!(sm.apply(&blank), AppliedState::Nothing);
    assert_eq!(sm.apply(&members), AppliedState::Nothing);
    assert_eq!(sm.to_records(), vec![record("a", 1, "1")]);
}

#[test]
fn same_entry_on_equal_stores_gives_equal_results() {
    let entries = vec![
        LogEntry { term: 1, index: 1, payload: Payload::Write(upsert("a", None, "1")) },
        LogEntry { term: 1, index: 2, payload: Payload::Write(upsert("b", Some(0), "2")) },
        LogEntry { term: 2, index: 3, payload: Payload::Write(upsert("a", Some(7), "3")) },
        LogEntry { term: 2, index: 4, payload: Payload::Write(delete("b", None)) },
    ];
    let mut one = StateMachine::new();
    let mut two = StateMachine::new();
    for e in entries.iter() {
        let r1 = one.apply(e);
        let r2 = two.apply(e);
        assert_eq!(r1, r2);
        assert_eq!(one.to_records(), two.to_records());
    }
    assert_eq!(one.to_records(), vec![record("a", 1, "1")]);
}

#[test]
fn records_round_trip_through_a_snapshot() {
    let mut sm = StateMachine::new();
    sm.apply_command(&upsert("a", None, "1"));
    sm.apply_command(&upsert("b", None, "2"));
    sm.apply_command(&upsert("a", None, "3"));
    let records = sm.to_records();
    assert_eq!(records, vec![record("a", 2, "3"), record("b", 1, "2")]);
    let copy = StateMachine::from_records(records).unwrap();
    assert_eq!(copy.get(&"a".to_string()), Some((2, "3".to_string())));
    assert_eq!(copy.get(&"b".to_string()), Some((1, "2".to_string())));
}

#[test]
fn records_with_a_repeated_key_or_version_zero_are_refused() {
    assert!(StateMachine::check_records(&vec![]));
    assert!(StateMachine::check_records(&vec![record("a", 1, ""), record("b", 1, "")]));
    assert!(!StateMachine::check_records(&vec![record("a", 1, ""), record("a", 2, "")]));
    assert!(!StateMachine::check_records(&vec![record("a", 0, "")]));
    assert!(StateMachine::from_records(vec![record("a", 1, "x"), record("a", 1, "x")]).is_none());
}
