use metasrv::engine::{majority_of, Engine};
use metasrv::messages::{AppendEntriesRequest, Replication, SnapshotMeta};
use metasrv::protocol::{AppendReply, Role, SnapshotReply, VoteReply, VoteRequest, WriteError};
use metasrv::types::{LogEntry, LogId, MetadataCommand, Payload};

fn id(term: u64, index: u64) -> LogId {
    LogId { term, index }
}

fn blank(term: u64, index: u64) -> LogEntry {
    LogEntry { term, index, payload: Payload::Blank }
}

fn put(key: &str, value: &str) -> Payload {
    Payload::Write(MetadataCommand::Upsert {
        key: key.to_string(),
        expected_version: None,
        value: value.to_string(),
    })
}

fn append(term: u64, leader: u64, prev: LogId, entries: Vec<LogEntry>, commit: u64) -> AppendEntriesRequest {
    AppendEntriesRequest { term, leader, prev, entries, leader_commit: commit }
}

/// A follower of leader 9 in term 1 whose log holds blank entries of term 1 at 1..=n.
fn follower_with(n: u64, commit: u64) -> Engine {
    let mut e = Engine::new(2, &vec![1, 2, 9]);
    let entries: Vec<LogEntry> = (1..=n).map(|i| blank(1, i)).collect();
    let reply = e.append_entries(append(1, 9, id(0, 0), entries, commit));
    assert!(reply.success);
    e
}

#[test]
fn new_engine_is_a_follower_in_term_zero() {
    let e = Engine::new(1, &vec![1, 2, 2, 3, 1]);
    assert_eq!(e.id(), 1);
    assert_eq!(e.role(), Role::Follower);
    assert_eq!(e.current_term(), 0);
    assert_eq!(e.voted_for(), None);
    assert_eq!(e.leader(), None);
    assert_eq!(e.commit_index(), 0);
    assert_eq!(e.last_index(), 0);
    assert_eq!(e.last_log_id(), id(0, 0));
    assert_eq!(e.members(), vec![1, 2, 3]);
}

#[test]
fn majority_is_strict() {
    assert!(!majority_of(0, 0));
    assert!(majority_of(1, 1));
    assert!(!majority_of(1, 2));
    assert!(majority_of(2, 2));
    assert!(majority_of(2, 3));
    assert!(!majority_of(2, 4));
    assert!(majority_of(3, 5));
    assert!(!majority_of(usize::MAX / 2, usize::MAX));
    assert!(majority_of(usize::MAX / 2 + 1, usize::MAX));
}

#[test]
fn up_to_date_compares_term_then_index() {
    assert!(id(2, 1).is_up_to_date(&id(1, 9)));
    assert!(!id(1, 9).is_up_to_date(&id(2, 1)));
    assert!(id(3, 4).is_up_to_date(&id(3, 4)));
    assert!(id(3, 5).is_up_to_date(&id(3, 4)));
    assert!(!id(3, 3).is_up_to_date(&id(3, 4)));
}

#[test]
fn single_node_elects_itself_and_commits_alone() {
    let mut e = Engine::new(1, &vec![1]);
    let req = e.election_timeout();
    assert_eq!(req, Some(VoteRequest { term: 1, candidate: 1, last_log: id(0, 0) }));
    assert_eq!(e.role(), Role::Leader);
    assert_eq!(e.leader(), Some(1));
    assert_eq!(e.entry(1), Some(&blank(1, 1)));
    assert_eq!(e.commit_index(), 1);
    assert_eq!(e.client_write(put("a", "x")), Ok(id(1, 2)));
    assert_eq!(e.commit_index(), 2);
    assert_eq!(e.entry(2).map(|x| x.payload.clone()), Some(put("a", "x")));
}

#[test]
fn timeout_makes_a_candidate_that_votes_for_itself() {
    let mut e = Engine::new(2, &vec![1, 2, 3]);
    let req = e.election_timeout();
    assert_eq!(req, Some(VoteRequest { term: 1, candidate: 2, last_log: id(0, 0) }));
    assert_eq!(e.role(), Role::Candidate);
    assert_eq!(e.current_term(), 1);
    assert_eq!(e.voted_for(), Some(2));
    let again = e.election_timeout();
    assert_eq!(again, Some(VoteRequest { term: 2, candidate: 2, last_log: id(0, 0) }));
    assert_eq!(e.current_term(), 2);
}

#[test]
fn timeout_does_nothing_for_a_leader_or_an_outsider() {
    let mut leader = Engine::new(1, &vec![1]);
    leader.election_timeout();
    assert_eq!(leader.election_timeout(), None);
    assert_eq!(leader.current_term(), 1);
    assert_eq!(leader.role(), Role::Leader);

    let mut outsider = Engine::new(7, &vec![1, 2, 3]);
    assert_eq!(outsider.election_timeout(), None);
    assert_eq!(outsider.current_term(), 0);
    assert_eq!(outsider.role(), Role::Follower);
}

#[test]
fn candidate_wins_with_a_strict_majority_only() {
    let mut e = Engine::new(1, &vec![1, 2, 3, 4, 5]);
    e.election_timeout();
    e.handle_vote_reply(2, VoteReply { term: 1, granted: true });
    assert_eq!(e.role(), Role::Candidate);
    // The same member again, a member that refuses and a stranger do not count.
    e.handle_vote_reply(2, VoteReply { term: 1, granted: true });
    e.handle_vote_reply(3, VoteReply { term: 1, granted: false });
    e.handle_vote_reply(9, VoteReply { term: 1, granted: true });
    assert_eq!(e.role(), Role::Candidate);
    e.handle_vote_reply(4, VoteReply { term: 1, granted: true });
    assert_eq!(e.role(), Role::Leader);
    assert_eq!(e.leader(), Some(1));
    assert_eq!(e.entry(1), Some(&blank(1, 1)));
    assert_eq!(e.commit_index(), 0);
}

#[test]
fn vote_of_an_earlier_term_is_not_counted() {
    let mut e = Engine::new(1, &vec![1, 2, 3]);
    e.election_timeout();
    e.election_timeout();
    assert_eq!(e.current_term(), 2);
    e.handle_vote_reply(2, VoteReply { term: 1, granted: true });
    assert_eq!(e.role(), Role::Candidate);
}

#[test]
fn higher_term_in_a_reply_makes_a_follower() {
    let mut e = Engine::new(1, &vec![1, 2, 3]);
    e.election_timeout();
    e.handle_vote_reply(2, VoteReply { term: 5, granted: false });
    assert_eq!(e.role(), Role::Follower);
    assert_eq!(e.current_term(), 5);
    assert_eq!(e.voted_for(), None);

    let mut leader = Engine::new(1, &vec![1]);
    leader.election_timeout();
    leader.handle_append_reply(2, AppendReply { term: 3, success: false, match_index: 0 });
    assert_eq!(leader.role(), Role::Follower);
    assert_eq!(leader.current_term(), 3);
    assert_eq!(leader.leader(), None);
}

#[test]
fn vote_is_granted_once_per_term() {
    let mut e = Engine::new(1, &vec![1, 2, 3]);
    let first = e.vote(VoteRequest { term: 1, candidate: 2, last_log: id(0, 0) });
    assert_eq!(first, VoteReply { term: 1, granted: true });
    assert_eq!(e.voted_for(), Some(2));
    let other = e.vote(VoteRequest { term: 1, candidate: 3, last_log: id(0, 0) });
    assert_eq!(other, VoteReply { term: 1, granted: false });
    assert_eq!(e.voted_for(), Some(2));
    let same = e.vote(VoteRequest { term: 1, candidate: 2, last_log: id(0, 0) });
    assert_eq!(same, VoteReply { term: 1, granted: true });
    // A later term frees the vote.
    let later = e.vote(VoteRequest { term: 2, candidate: 3, last_log: id(0, 0) });
    assert_eq!(later, VoteReply { term: 2, granted: true });
    assert_eq!(e.voted_for(), Some(3));
}

#[test]
fn vote_is_refused_to_a_stale_term() {
    let mut e = Engine::new(1, &vec![1, 2, 3]);
    e.vote(VoteRequest { term: 4, candidate: 2, last_log: id(0, 0) });
    let reply = e.vote(VoteRequest { term: 3, candidate: 3, last_log: id(9, 9) });
    assert_eq!(reply, VoteReply { term: 4, granted: false });
    assert_eq!(e.current_term(), 4);
    assert_eq!(e.voted_for(), Some(2));
}

#[test]
fn vote_is_refused_to_a_shorter_log_but_the_term_is_taken() {
    let mut e = follower_with(2, 0);
    let reply = e.vote(VoteRequest { term: 2, candidate: 1, last_log: id(1, 1) });
    assert_eq!(reply, VoteReply { term: 2, granted: false });
    assert_eq!(e.current_term(), 2);
    assert_eq!(e.voted_for(), None);
    assert_eq!(e.role(), Role::Follower);
    let equal = e.vote(VoteRequest { term: 2, candidate: 1, last_log: id(1, 2) });
    assert_eq!(equal, VoteReply { term: 2, granted: true });
}

#[test]
fn append_of_a_stale_term_changes_nothing() {
    let mut e = Engine::new(2, &vec![1, 2, 3]);
    e.vote(VoteRequest { term: 3, candidate: 3, last_log: id(0, 0) });
    let reply = e.append_entries(append(2, 1, id(0, 0), vec![blank(2, 1)], 1));
    assert_eq!(reply, AppendReply { term: 3, success: false, match_index: 0 });
    assert_eq!(e.current_term(), 3);
    assert_eq!(e.leader(), None);
    assert_eq!(e.voted_for(), Some(3));
    assert_eq!(e.last_index(), 0);
    assert_eq!(e.commit_index(), 0);
}

#[test]
fn append_accepts_the_leader_and_takes_entries() {
    let mut e = Engine::new(2, &vec![1, 2, 3]);
    e.election_timeout();
    let reply = e.append_entries(append(1, 1, id(0, 0), vec![blank(1, 1), blank(1, 2)], 1));
    assert_eq!(reply, AppendReply { term: 1, success: true, match_index: 2 });
    assert_eq!(e.role(), Role::Follower);
    assert_eq!(e.leader(), Some(1));
    assert_eq!(e.last_log_id(), id(1, 2));
    assert_eq!(e.commit_index(), 1);
    assert_eq!(e.term_at(2), Some(1));
    assert_eq!(e.term_at(3), None);
}

#[test]
fn append_is_refused_where_prev_does_not_match() {
    let mut e = follower_with(2, 0);
    let beyond = e.append_entries(append(2, 1, id(1, 5), vec![blank(2, 6)], 0));
    assert_eq!(beyond, AppendReply { term: 2, success: false, match_index: 0 });
    assert_eq!(e.current_term(), 2);
    assert_eq!(e.leader(), Some(1));
    assert_eq!(e.last_index(), 2);
    let other_term = e.append_entries(append(2, 1, id(2, 2), vec![blank(2, 3)], 0));
    assert_eq!(other_term, AppendReply { term: 2, success: false, match_index: 0 });
    assert_eq!(e.last_index(), 2);
}

#[test]
fn append_cuts_the_log_at_the_first_conflict() {
    let mut e = follower_with(3, 1);
    let reply = e.append_entries(append(2, 1, id(1, 1), vec![blank(2, 2)], 1));
    assert_eq!(reply, AppendReply { term: 2, success: true, match_index: 2 });
    assert_eq!(e.last_index(), 2);
    assert_eq!(e.entry(1), Some(&blank(1, 1)));
    assert_eq!(e.entry(2), Some(&blank(2, 2)));
    assert_eq!(e.entry(3), None);
}

#[test]
fn append_of_entries_already_held_keeps_the_longer_log() {
    let mut e = follower_with(3, 0);
    let reply = e.append_entries(append(1, 9, id(0, 0), vec![blank(1, 1)], 0));
    assert_eq!(reply, AppendReply { term: 1, success: true, match_index: 1 });
    assert_eq!(e.last_index(), 3);
}

#[test]
fn append_never_cuts_a_committed_entry() {
    let mut e = follower_with(2, 2);
    let reply = e.append_entries(append(2, 1, id(1, 1), vec![blank(2, 2)], 2));
    assert_eq!(reply, AppendReply { term: 2, success: false, match_index: 0 });
    assert_eq!(e.entry(2), Some(&blank(1, 2)));
    assert_eq!(e.commit_index(), 2);
    assert_eq!(e.current_term(), 2);
}

#[test]
fn commit_index_follows_the_leader_as_far_as_the_request_reaches() {
    let mut e = Engine::new(2, &vec![1, 2, 3]);
    e.append_entries(append(1, 1, id(0, 0), vec![blank(1, 1), blank(1, 2)], 10));
    assert_eq!(e.commit_index(), 2);
    e.append_entries(append(1, 1, id(1, 2), vec![blank(1, 3)], 1));
    assert_eq!(e.commit_index(), 2);
    e.append_entries(append(1, 1, id(1, 3), vec![], 3));
    assert_eq!(e.commit_index(), 3);
}

#[test]
fn request_with_a_gap_is_not_well_formed() {
    assert!(append(1, 1, id(0, 0), vec![blank(1, 1), blank(1, 2)], 0).is_well_formed());
    assert!(append(1, 1, id(1, 4), vec![], 0).is_well_formed());
    assert!(!append(1, 1, id(0, 0), vec![blank(1, 2)], 0).is_well_formed());
    assert!(!append(1, 1, id(0, 0), vec![blank(1, 1), blank(1, 3)], 0).is_well_formed());
    assert!(!append(1, 1, id(1, u64::MAX), vec![], 0).is_well_formed());
    assert!(!append(1, 1, id(1, u64::MAX - 1), vec![blank(1, u64::MAX)], 0).is_well_formed());
}

#[test]
fn leader_replicates_and_commits_on_a_majority() {
    let members = vec![1, 2, 3];
    let mut leader = Engine::new(1, &members);
    let mut follower = Engine::new(2, &members);
    let req = leader.election_timeout().unwrap();
    let vote = follower.vote(req);
    leader.handle_vote_reply(2, vote);
    assert_eq!(leader.role(), Role::Leader);
    assert_eq!(leader.client_write(put("k", "v")), Ok(id(1, 2)));
    assert_eq!(leader.commit_index(), 0);

    let sent = match leader.replicate_to(2) {
        Replication::Entries(req) => req,
        other => panic!("unexpected {:?}", other),
    };
    assert_eq!(sent.term, 1);
    assert_eq!(sent.leader, 1);
    assert_eq!(sent.prev, id(0, 0));
    assert_eq!(sent.entries.len(), 2);
    assert_eq!(sent.leader_commit, 0);
    let reply = follower.append_entries(sent);
    assert_eq!(reply, AppendReply { term: 1, success: true, match_index: 2 });
    leader.handle_append_reply(2, reply);
    assert_eq!(leader.commit_index(), 2);

    // The next request is a heartbeat that carries the commit index.
    let beat = match leader.replicate_to(2) {
        Replication::Entries(req) => req,
        other => panic!("unexpected {:?}", other),
    };
    assert_eq!(beat.prev, id(1, 2));
    assert!(beat.entries.is_empty());
    assert_eq!(beat.leader_commit, 2);
    follower.append_entries(beat);
    assert_eq!(follower.commit_index(), 2);
}

#[test]
fn leader_commits_only_entries_of_its_own_term_by_counting() {
    let members = vec![1, 2, 3];
    let mut e = Engine::new(1, &members);
    let mut peer = Engine::new(2, &members);
    let req = e.election_timeout().unwrap();
    let vote = peer.vote(req);
    e.handle_vote_reply(2, vote);
    e.restart();
    assert_eq!(e.role(), Role::Follower);
    assert_eq!(e.last_log_id(), id(1, 1));
    let req = e.election_timeout().unwrap();
    assert_eq!(req, VoteRequest { term: 2, candidate: 1, last_log: id(1, 1) });
    let vote = peer.vote(req);
    assert!(vote.granted);
    e.handle_vote_reply(2, vote);
    assert_eq!(e.role(), Role::Leader);
    assert_eq!(e.last_log_id(), id(2, 2));

    e.handle_append_reply(2, AppendReply { term: 2, success: true, match_index: 1 });
    assert_eq!(e.commit_index(), 0);
    e.handle_append_reply(2, AppendReply { term: 2, success: true, match_index: 2 });
    assert_eq!(e.commit_index(), 2);
}

#[test]
fn leader_backs_up_after_a_refusal() {
    let members = vec![1, 2, 3];
    let mut e = Engine::new(1, &members);
    e.append_entries(append(1, 3, id(0, 0), vec![blank(1, 1), blank(1, 2)], 0));
    let req = e.election_timeout().unwrap();
    assert_eq!(req.term, 2);
    e.handle_vote_reply(2, VoteReply { term: 2, granted: true });
    assert_eq!(e.role(), Role::Leader);
    let first = match e.replicate_to(2) {
        Replication::Entries(req) => req,
        other => panic!("unexpected {:?}", other),
    };
    assert_eq!(first.prev, id(1, 2));
    assert_eq!(first.entries, vec![blank(2, 3)]);
    e.handle_append_reply(2, AppendReply { term: 2, success: false, match_index: 0 });
    let second = match e.replicate_to(2) {
        Replication::Entries(req) => req,
        other => panic!("unexpected {:?}", other),
    };
    assert_eq!(second.prev, id(1, 1));
    assert_eq!(second.entries, vec![blank(1, 2), blank(2, 3)]);
    e.handle_append_reply(2, AppendReply { term: 2, success: false, match_index: 0 });
    e.handle_append_reply(2, AppendReply { term: 2, success: false, match_index: 0 });
    e.handle_append_reply(2, AppendReply { term: 2, success: false, match_index: 0 });
    let last = match e.replicate_to(2) {
        Replication::Entries(req) => req,
        other => panic!("unexpected {:?}", other),
    };
    assert_eq!(last.prev, id(0, 0));
    assert_eq!(last.entries.len(), 3);
}

#[test]
fn replication_is_idle_for_self_strangers_and_followers() {
    let mut e = Engine::new(1, &vec![1, 2, 3]);
    assert_eq!(e.replicate_to(2), Replication::Idle);
    e.election_timeout();
    e.handle_vote_reply(3, VoteReply { term: 1, granted: true });
    assert_eq!(e.replicate_to(1), Replication::Idle);
    assert_eq!(e.replicate_to(8), Replication::Idle);
}

#[test]
fn write_is_refused_by_a_node_that_is_no_leader() {
    let mut e = follower_with(1, 0);
    assert_eq!(e.client_write(put("a", "x")), Err(WriteError::NotLeader { leader: Some(9) }));
    assert_eq!(e.last_index(), 1);
    let mut fresh = Engine::new(1, &vec![1, 2, 3]);
    assert_eq!(fresh.client_write(put("a", "x")), Err(WriteError::NotLeader { leader: None }));
}

#[test]
fn snapshot_replaces_the_log_up_to_its_index() {
    let mut e = follower_with(3, 1);
    let meta = SnapshotMeta { term: 1, leader: 9, last: id(1, 2), members: vec![2, 9, 9, 4] };
    let reply = e.install_snapshot(&meta);
    assert_eq!(reply, SnapshotReply { term: 1, installed: true });
    assert_eq!(e.snapshot_id(), id(1, 2));
    assert_eq!(e.commit_index(), 2);
    assert_eq!(e.entry(2), None);
    assert_eq!(e.entry(3), Some(&blank(1, 3)));
    assert_eq!(e.last_index(), 3);
    assert_eq!(e.members(), vec![2, 9, 4]);
    assert_eq!(e.term_at(2), Some(1));
}

#[test]
fn snapshot_beyond_or_against_the_log_empties_it() {
    let mut e = follower_with(3, 1);
    let meta = SnapshotMeta { term: 4, leader: 1, last: id(3, 7), members: vec![1, 2, 9] };
    let reply = e.install_snapshot(&meta);
    assert_eq!(reply, SnapshotReply { term: 4, installed: true });
    assert_eq!(e.current_term(), 4);
    assert_eq!(e.leader(), Some(1));
    assert_eq!(e.last_index(), 7);
    assert_eq!(e.last_log_id(), id(3, 7));
    assert_eq!(e.entry(3), None);

    let mut f = follower_with(3, 1);
    let meta = SnapshotMeta { term: 4, leader: 1, last: id(2, 2), members: vec![1, 2, 9] };
    f.install_snapshot(&meta);
    assert_eq!(f.last_index(), 2);
    assert_eq!(f.entry(3), None);
}

#[test]
fn snapshot_is_not_installed_when_stale_or_behind() {
    let mut e = follower_with(3, 2);
    let behind = SnapshotMeta { term: 1, leader: 9, last: id(1, 2), members: vec![7] };
    assert_eq!(e.install_snapshot(&behind), SnapshotReply { term: 1, installed: false });
    assert_eq!(e.snapshot_id(), id(0, 0));
    assert_eq!(e.members(), vec![1, 2, 9]);
    e.vote(VoteRequest { term: 5, candidate: 1, last_log: id(0, 0) });
    let stale = SnapshotMeta { term: 4, leader: 9, last: id(4, 9), members: vec![7] };
    assert_eq!(e.install_snapshot(&stale), SnapshotReply { term: 5, installed: false });
    assert_eq!(e.last_index(), 3);
    assert_eq!(e.leader(), None);
}

#[test]
fn compaction_cuts_committed_entries_only() {
    let mut e = follower_with(3, 2);
    assert!(!e.compact(3));
    assert!(!e.compact(0));
    assert!(e.compact(2));
    assert_eq!(e.snapshot_id(), id(1, 2));
    assert_eq!(e.entry(1), None);
    assert_eq!(e.entry(2), None);
    assert_eq!(e.entry(3), Some(&blank(1, 3)));
    assert_eq!(e.last_index(), 3);
    assert_eq!(e.commit_index(), 2);
    assert!(!e.compact(2));
    // An append whose prev lies below the snapshot is answered with the snapshot's index.
    let reply = e.append_entries(append(1, 9, id(1, 1), vec![blank(1, 2)], 0));
    assert_eq!(reply, AppendReply { term: 1, success: true, match_index: 2 });
    assert_eq!(e.last_index(), 3);
}

#[test]
fn leader_asks_for_a_snapshot_where_the_log_was_cut() {
    let mut e = Engine::new(1, &vec![1]);
    e.election_timeout();
    e.client_write(put("a", "x")).unwrap();
    e.set_members(&vec![1, 2]);
    assert!(e.compact(2));
    // Progress starts at the end of the log: entries are at hand.
    match e.replicate_to(2) {
        Replication::Entries(req) => assert_eq!(req.prev, id(1, 2)),
        other => panic!("unexpected {:?}", other),
    }
    e.handle_append_reply(2, AppendReply { term: 1, success: false, match_index: 0 });
    assert_eq!(e.replicate_to(2), Replication::Snapshot);
}

#[test]
fn restart_keeps_what_is_durable() {
    let mut e = Engine::new(1, &vec![1]);
    e.election_timeout();
    e.client_write(put("a", "x")).unwrap();
    e.restart();
    assert_eq!(e.role(), Role::Follower);
    assert_eq!(e.leader(), None);
    assert_eq!(e.current_term(), 1);
    assert_eq!(e.voted_for(), Some(1));
    assert_eq!(e.last_index(), 2);
    assert_eq!(e.commit_index(), 0);
}
