use metasrv::messages::Replication;
use metasrv::node::{
    settle, Applied, ForwardRequest, ForwardRequestBody, Handled, MetaNode, Outcome,
};
use metasrv::protocol::Role;
use metasrv::types::{AppliedState, LogId, MetadataCommand};

fn write(key: &str, value: &str) -> ForwardRequest {
    ForwardRequest {
        forward_to_leader: 1,
        body: ForwardRequestBody::Write(MetadataCommand::Upsert {
            key: key.to_string(),
            expected_version: Some(0),
            value: value.to_string(),
        }),
    }
}

fn cluster() -> Vec<MetaNode> {
    let members = vec![1, 2, 3];
    vec![MetaNode::new(1, &members), MetaNode::new(2, &members), MetaNode::new(3, &members)]
}

fn at(id: u64) -> usize {
    (id - 1) as usize
}

/// Node `candidate` times out and asks the nodes it can reach for their votes.
fn campaign(nodes: &mut Vec<MetaNode>, candidate: u64, reachable: &[u64]) {
    if let Some(req) = nodes[at(candidate)].election_timeout() {
        for peer in reachable {
            let reply = nodes[at(*peer)].vote(req);
            nodes[at(candidate)].handle_vote_reply(*peer, reply);
        }
    }
}

/// Node `leader` brings the nodes it can reach up to date, then tells them how far
/// it has committed.
fn replicate(nodes: &mut Vec<MetaNode>, leader: u64, reachable: &[u64]) {
    for round in 0..2 {
        for peer in reachable {
            for _ in 0..16 {
                let req = match nodes[at(leader)].replicate_to(*peer) {
                    Replication::Entries(req) => req,
                    _ => break,
                };
                let reply = nodes[at(*peer)].append_entries(req);
                nodes[at(leader)].handle_append_reply(*peer, reply);
                if reply.success || round == 1 {
                    break;
                }
            }
        }
    }
}

fn leaders_in(nodes: &Vec<MetaNode>, term: u64) -> Vec<u64> {
    nodes
        .iter()
        .filter(|n| n.engine().role() == Role::Leader && n.engine().current_term() == term)
        .map(|n| n.engine().id())
        .collect()
}

#[test]
fn two_candidates_of_one_term_do_not_both_win() {
    let mut nodes = cluster();
    let first = nodes[0].election_timeout().unwrap();
    let second = nodes[1].election_timeout().unwrap();
    assert_eq!(first.term, second.term);
    // Node 3 hears the first candidate first; each candidate hears the other.
    let r31 = nodes[2].vote(first);
    let r32 = nodes[2].vote(second);
    let r21 = nodes[1].vote(first);
    let r12 = nodes[0].vote(second);
    assert!(r31.granted);
    assert!(!r32.granted);
    assert!(!r21.granted);
    assert!(!r12.granted);
    nodes[0].handle_vote_reply(3, r31);
    nodes[0].handle_vote_reply(2, r21);
    nodes[1].handle_vote_reply(3, r32);
    nodes[1].handle_vote_reply(1, r12);
    assert_eq!(leaders_in(&nodes, 1), vec![1]);
    assert_eq!(nodes[1].engine().role(), Role::Candidate);
}

#[test]
fn logs_that_share_an_entry_share_what_precedes_it() {
    let mut nodes = cluster();
    campaign(&mut nodes, 1, &[2, 3]);
    nodes[0].handle_forwardable_request(write("a", "1")).unwrap();
    replicate(&mut nodes, 1, &[2]);
    nodes[0].handle_forwardable_request(write("b", "2")).unwrap();
    replicate(&mut nodes, 1, &[3]);
    for a in 0..3 {
        for b in 0..3 {
            let shared = nodes[a].engine().last_index().min(nodes[b].engine().last_index());
            for index in 1..=shared {
                let x = nodes[a].engine().entry(index).unwrap();
                let y = nodes[b].engine().entry(index).unwrap();
                if x.term == y.term {
                    for earlier in 1..=index {
                        assert_eq!(nodes[a].engine().entry(earlier), nodes[b].engine().entry(earlier));
                    }
                }
            }
        }
    }
    assert_eq!(nodes[1].engine().last_index(), 2);
    assert_eq!(nodes[2].engine().last_index(), 3);
}

#[test]
fn partitioned_leader_loses_its_write_and_the_new_leader_commits() {
    let mut nodes = cluster();
    campaign(&mut nodes, 1, &[2, 3]);
    replicate(&mut nodes, 1, &[2, 3]);
    assert_eq!(leaders_in(&nodes, 1), vec![1]);
    for n in nodes.iter_mut() {
        assert_eq!(n.apply_committed().len(), 1);
    }

    // The partition isolates node 1. A write that it takes cannot commit.
    let old = match nodes[0].handle_forwardable_request(write("old", "lost")) {
        Ok(Handled::Pending(id)) => id,
        other => panic!("unexpected {:?}", other),
    };
    assert_eq!(old, LogId { term: 1, index: 2 });
    replicate(&mut nodes, 1, &[]);
    assert_eq!(nodes[0].engine().commit_index(), 1);
    assert_eq!(nodes[0].apply_committed(), vec![]);

    // Nodes 2 and 3 elect a leader after one timeout.
    campaign(&mut nodes, 2, &[3]);
    assert_eq!(leaders_in(&nodes, 2), vec![2]);
    let new = match nodes[1].handle_forwardable_request(write("new", "kept")) {
        Ok(Handled::Pending(id)) => id,
        other => panic!("unexpected {:?}", other),
    };
    assert_eq!(new, LogId { term: 2, index: 3 });
    replicate(&mut nodes, 2, &[3]);
    assert_eq!(nodes[1].engine().commit_index(), 3);
    let applied = nodes[1].apply_committed();
    let done: Vec<Outcome> = applied.iter().map(|a| settle(new, *a)).collect();
    assert_eq!(
        done,
        vec![Outcome::Waiting, Outcome::Done(AppliedState::Written { version: 1 })]
    );

    // The partition heals: node 1 follows the new leader and gives up its entry.
    replicate(&mut nodes, 2, &[1, 3]);
    assert_eq!(nodes[0].engine().role(), Role::Follower);
    assert_eq!(nodes[0].engine().current_term(), 2);
    let healed: Vec<Applied> = nodes[0].apply_committed();
    let old_outcomes: Vec<Outcome> = healed.iter().map(|a| settle(old, *a)).collect();
    assert_eq!(old_outcomes, vec![Outcome::Lost, Outcome::Waiting]);
    nodes[2].apply_committed();
    for n in nodes.iter() {
        assert_eq!(n.store().get(&"new".to_string()), Some((1, "kept".to_string())));
        assert_eq!(n.store().get(&"old".to_string()), None);
        assert_eq!(n.last_applied(), 3);
    }
}

#[test]
fn committed_entry_stands_in_a_majority_of_logs() {
    let mut nodes = cluster();
    campaign(&mut nodes, 1, &[2, 3]);
    nodes[0].handle_forwardable_request(write("a", "1")).unwrap();
    replicate(&mut nodes, 1, &[2]);
    let committed = nodes[0].engine().commit_index();
    assert_eq!(committed, 2);
    for index in 1..=committed {
        let entry = nodes[0].engine().entry(index).unwrap();
        let holders = nodes.iter().filter(|n| n.engine().entry(index) == Some(entry)).count();
        assert!(2 * holders > 3);
    }
    assert_eq!(nodes[2].engine().last_index(), 0);
}

#[test]
fn later_leader_holds_what_was_committed() {
    let mut nodes = cluster();
    campaign(&mut nodes, 1, &[2, 3]);
    nodes[0].handle_forwardable_request(write("a", "1")).unwrap();
    replicate(&mut nodes, 1, &[2]);
    assert_eq!(nodes[0].engine().commit_index(), 2);
    let committed: Vec<_> = (1..=2).map(|i| nodes[0].engine().entry(i).unwrap().clone()).collect();

    // Node 3 has none of the entries: neither of the others votes for it.
    campaign(&mut nodes, 3, &[1, 2]);
    assert_eq!(nodes[2].engine().role(), Role::Candidate);
    assert_eq!(nodes[2].engine().current_term(), 2);
    assert_eq!(leaders_in(&nodes, 2), Vec::<u64>::new());
    // The old leader has seen the higher term and is a follower.
    assert_eq!(nodes[0].engine().role(), Role::Follower);

    // Node 2 holds the entries and wins the next term.
    campaign(&mut nodes, 2, &[1, 3]);
    assert_eq!(leaders_in(&nodes, 3), vec![2]);
    for (i, entry) in committed.iter().enumerate() {
        assert_eq!(nodes[1].engine().entry(i as u64 + 1), Some(entry));
    }
    assert_eq!(nodes[1].engine().last_log_id(), LogId { term: 3, index: 3 });
}
