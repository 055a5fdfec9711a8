//! Every event keeps what the records say of committed entries.

use vstd::prelude::*;
use crate::cluster::{
    acks_upto, storing, Ack, AppendMsg, AppendReplyMsg, Cluster, Commit, Election, Event, Grant,
};
use crate::commitment::{
    ack_valid, backed, beginning, commit_inv, commit_valid, holds, lacks, leader_valid,
    lemma_holds_longer, lost_by, own,
};
use crate::election::{election_valid, grant_valid, lemma_one_leader, node_valid};
use crate::growth::{
    lemma_grow_ack, lemma_grow_backed, lemma_grow_beginning, lemma_grow_commit, lemma_grow_lost,
    records_grow,
};
use crate::handover::{lemma_append_taken, lemma_no_cut, lemma_storing, lemma_vote_keeps};
use crate::growth::{lemma_after_grows, lemma_elected_log};
use crate::leadership::{
    campaign_valid, election_logged, full_inv, lemma_after_terms, lemma_prefix_push,
    message_logged, prefix, seq_last_id,
};
use crate::log_matching::{held, log_of, log_shape, matching, message_valid, LogSource};
use crate::preservation::lemma_highest_committable;
use crate::protocol::{fresh_progress, position, EngineState, Role};
use crate::types::NodeId;

verus! {

/// What is on record before a step in which node `n` acts is still valid after it.
pub proof fn lemma_carry(c: Cluster, d: Cluster, n: NodeId)
    requires
        full_inv(c),
        commit_inv(c),
        full_inv(d),
        records_grow(c, d),
        c.nodes.contains_key(n),
        d.nodes == c.nodes.insert(n, d.nodes[n]),
    ensures
        forall|a: Ack| #[trigger]
            c.acks.contains(a) && (a.voter != n || prefix(c.nodes[n].log, d.nodes[n].log))
                ==> ack_valid(d, a),
        forall|g: Grant, a: Ack| #[trigger]
            c.grants.contains(g) && #[trigger] c.acks.contains(a) && a.voter == g.voter && a.term
                < g.term && own(d, a.term, a.index) ==> holds(
                d.campaigns[(g.term, g.candidate)],
                d,
                a.term,
                a.index,
            ) || lost_by(d, a.term, a.index, g.term as int),
        forall|e: Election, i: int, a: Ack| #[trigger]
            c.elections.contains(e) && 0 <= i < e.voters.len() && #[trigger] c.acks.contains(a)
                && a.voter == #[trigger] e.voters[i] && a.term < e.term && own(
                d,
                a.term,
                a.index,
            ) ==> holds(d.campaigns[(e.term, e.leader)], d, a.term, a.index) || lost_by(
                d,
                a.term,
                a.index,
                e.term - 1,
            ),
        forall|k: Commit| #[trigger] c.commits.contains(k) ==> commit_valid(d, k),
        forall|x: NodeId| #[trigger]
            c.nodes.contains_key(x) && x != n && d.nodes[x].commit_index >= 1 ==> backed(
                d,
                d.nodes[x].log,
                d.nodes[x].commit_index as int,
                d.nodes[x].current_term,
            ),
        forall|m: AppendMsg| #[trigger]
            c.appends.contains(m) && m.req.leader_commit >= 1 ==> backed(
                d,
                m.log,
                m.req.leader_commit as int,
                m.req.term,
            ),
        forall|x: NodeId| #[trigger] c.nodes.contains_key(x) && x != n ==> leader_valid(d, x),
{
    assert forall|a: Ack| #[trigger]
        c.acks.contains(a) && (a.voter != n || prefix(
            c.nodes[n].log,
            d.nodes[n].log,
        )) implies ack_valid(d, a) by {
        assert(ack_valid(c, a));
        if a.voter != n {
            lemma_prefix_push(c.nodes[a.voter].log, c.nodes[a.voter].elected_blank());
        }
        lemma_grow_ack(c, d, a);
    }
    assert forall|g: Grant, a: Ack| #[trigger]
        c.grants.contains(g) && #[trigger] c.acks.contains(a) && a.voter == g.voter && a.term
            < g.term && own(d, a.term, a.index) implies holds(
        d.campaigns[(g.term, g.candidate)],
        d,
        a.term,
        a.index,
    ) || lost_by(d, a.term, a.index, g.term as int) by {
        assert(ack_valid(c, a));
        lemma_grow_beginning(c, d, a.term, a.index);
        if !holds(c.campaigns[(g.term, g.candidate)], c, a.term, a.index) {
            lemma_grow_lost(c, d, a.term, a.index, g.term as int, g.term as int);
        }
    }
    assert forall|e: Election, i: int, a: Ack| #[trigger]
        c.elections.contains(e) && 0 <= i < e.voters.len() && #[trigger] c.acks.contains(a)
            && a.voter == #[trigger] e.voters[i] && a.term < e.term && own(
            d,
            a.term,
            a.index,
        ) implies holds(d.campaigns[(e.term, e.leader)], d, a.term, a.index) || lost_by(
        d,
        a.term,
        a.index,
        e.term - 1,
    ) by {
        assert(ack_valid(c, a));
        assert(election_logged(c, e));
        lemma_grow_beginning(c, d, a.term, a.index);
        if !holds(c.campaigns[(e.term, e.leader)], c, a.term, a.index) {
            lemma_grow_lost(c, d, a.term, a.index, e.term - 1, e.term - 1);
        }
    }
    assert forall|k: Commit| #[trigger] c.commits.contains(k) implies commit_valid(d, k) by {
        lemma_grow_commit(c, d, k);
    }
    assert forall|x: NodeId| #[trigger]
        c.nodes.contains_key(x) && x != n && d.nodes[x].commit_index >= 1 implies backed(
        d,
        d.nodes[x].log,
        d.nodes[x].commit_index as int,
        d.nodes[x].current_term,
    ) by {
        let s = c.nodes[x];
        assert(node_valid(c, x));
        lemma_grow_backed(c, d, s.log, s.log, s.commit_index as int, s.current_term, s.current_term);
    }
    assert forall|m: AppendMsg| #[trigger]
        c.appends.contains(m) && m.req.leader_commit >= 1 implies backed(
        d,
        m.log,
        m.req.leader_commit as int,
        m.req.term,
    ) by {
        let k = choose|k: Commit| #[trigger]
            c.commits.contains(k) && k.index >= m.req.leader_commit && k.term <= m.req.term
                && holds(m.log, c, k.term, m.req.leader_commit as int);
        lemma_grow_backed(
            c,
            d,
            m.log,
            m.log,
            m.req.leader_commit as int,
            m.req.term,
            m.req.term,
        );
    }
    assert forall|x: NodeId| #[trigger] c.nodes.contains_key(x) && x != n implies leader_valid(
        d,
        x,
    ) by {
        assert(leader_valid(c, x));
    }
}

/// The record that a leader holds an entry of its own log is valid.
pub proof fn lemma_self_ack(d: Cluster, n: NodeId, a: Ack)
    requires
        full_inv(d),
        d.nodes.contains_key(n),
        d.nodes[n].role == Role::Leader,
        a.voter == n,
        a.term == d.nodes[n].current_term,
        1 <= a.index <= d.nodes[n].log.len(),
        acks_upto(n, a.term, d.nodes[n].log.len() as int).subset_of(d.acks),
    ensures
        ack_valid(d, a),
{
    assert(d.leader_logs[a.term] == d.nodes[n].log);
    assert forall|j: int| 1 <= j <= a.index implies #[trigger] d.acks.contains(
        Ack { voter: a.voter, term: a.term, index: j },
    ) by {
        assert(acks_upto(n, a.term, d.nodes[n].log.len() as int).contains(
            Ack { voter: a.voter, term: a.term, index: j },
        ));
    }
}

/// A step after which node `n` is leader keeps what the records say of committed
/// entries: its log has stayed or grown, it is on record as holding its own entries,
/// and a commit index that it has raised is on record. `won` says whether the node
/// has just won its election.
pub proof fn lemma_commit_led(c: Cluster, d: Cluster, n: NodeId, won: bool)
    requires
        full_inv(c),
        commit_inv(c),
        full_inv(d),
        records_grow(c, d),
        c.nodes.contains_key(n),
        d.nodes == c.nodes.insert(n, d.nodes[n]),
        d.nodes[n].role == Role::Leader,
        prefix(c.nodes[n].log, d.nodes[n].log),
        d.appends == c.appends,
        d.append_replies == c.append_replies,
        d.acks == c.acks.union(
            acks_upto(n, d.nodes[n].current_term, d.nodes[n].log.len() as int),
        ),
        d.nodes[n].commit_index >= c.nodes[n].commit_index,
        d.nodes[n].commit_index > c.nodes[n].commit_index ==> {
            let now = d.nodes[n];
            &&& now.committable_at(now.commit_index as int)
            &&& d.commits == c.commits.insert(
                Commit {
                    term: now.current_term,
                    index: now.commit_index as int,
                    quorum: storing(now, now.commit_index as int, now.members.len() as int),
                },
            )
        },
        d.nodes[n].commit_index == c.nodes[n].commit_index ==> d.commits == c.commits,
        forall|k: int|
            0 <= k < d.nodes[n].members.len() && (#[trigger] d.nodes[n].progress[k]).match_index
                >= 1 ==> d.acks.contains(
                Ack {
                    voter: d.nodes[n].members[k],
                    term: d.nodes[n].current_term,
                    index: d.nodes[n].progress[k].match_index as int,
                },
            ),
        d.grants == c.grants || (d.grants == c.grants.insert(
            Grant { voter: n, term: d.nodes[n].current_term, candidate: n },
        ) && d.campaigns[(d.nodes[n].current_term, n)] == c.nodes[n].log
            && c.nodes[n].current_term < d.nodes[n].current_term),
        !won ==> d.elections == c.elections && c.nodes[n].role == Role::Leader
            && c.nodes[n].current_term == d.nodes[n].current_term,
        won ==> d.elections == c.elections.insert(
            Election { term: d.nodes[n].current_term, leader: n, voters: d.nodes[n].votes },
        ) && d.campaigns[(d.nodes[n].current_term, n)] == c.nodes[n].log && c.nodes[n].role
            != Role::Leader && (c.nodes[n].current_term < d.nodes[n].current_term || (
        c.nodes[n].current_term == d.nodes[n].current_term && c.nodes[n].role == Role::Candidate
            && d.grants == c.grants)),
    ensures
        commit_inv(d),
{
    let s = c.nodes[n];
    let now = d.nodes[n];
    let term = now.current_term;
    let mine = Election { term, leader: n, voters: now.votes };
    let own_acks = acks_upto(n, term, now.log.len() as int);
    assert(c.nodes.insert(n, now).contains_key(n));
    assert(node_valid(c, n) && node_valid(d, n));
    assert(d.elections.contains(mine));
    lemma_carry(c, d, n);
    assert forall|a: Ack| #[trigger] d.acks.contains(a) implies ack_valid(d, a) by {
        if !c.acks.contains(a) {
            assert(own_acks.contains(a));
            lemma_self_ack(d, n, a);
        }
    }
    assert forall|r: AppendReplyMsg| #[trigger]
        d.append_replies.contains(r) && r.reply.success && r.reply.match_index
            >= 1 implies d.acks.contains(
        Ack { voter: r.from, term: r.reply.term, index: r.reply.match_index as int },
    ) by {
        assert(c.acks.contains(
            Ack { voter: r.from, term: r.reply.term, index: r.reply.match_index as int },
        ));
    }
    assert forall|x: NodeId| #[trigger] d.nodes.contains_key(x) implies leader_valid(d, x) by {
        if x == n {
            assert forall|j: int| 1 <= j <= now.log.len() implies #[trigger] d.acks.contains(
                Ack { voter: n, term: now.current_term, index: j },
            ) by {
                assert(own_acks.contains(Ack { voter: n, term: now.current_term, index: j }));
            }
        } else {
            assert(c.nodes.contains_key(x));
        }
    }
    // A vote and an earlier acknowledgement of the voter.
    assert forall|g: Grant, a: Ack| #[trigger]
        d.grants.contains(g) && #[trigger] d.acks.contains(a) && a.voter == g.voter && a.term
            < g.term && own(d, a.term, a.index) implies holds(
        d.campaigns[(g.term, g.candidate)],
        d,
        a.term,
        a.index,
    ) || lost_by(d, a.term, a.index, g.term as int) by {
        if !c.acks.contains(a) {
            assert(own_acks.contains(a));
            if c.grants.contains(g) {
                assert(grant_valid(c, g));
            }
        } else if !c.grants.contains(g) {
            assert(ack_valid(c, a));
            lemma_grow_beginning(c, d, a.term, a.index);
            if !holds(s.log, c, a.term, a.index) {
                lemma_grow_lost(c, d, a.term, a.index, s.current_term as int, g.term as int);
            }
        }
    }
    // An election and an earlier acknowledgement of one of its voters.
    assert forall|e: Election, i: int, a: Ack| #[trigger]
        d.elections.contains(e) && 0 <= i < e.voters.len() && #[trigger] d.acks.contains(a)
            && a.voter == #[trigger] e.voters[i] && a.term < e.term && own(
            d,
            a.term,
            a.index,
        ) implies holds(d.campaigns[(e.term, e.leader)], d, a.term, a.index) || lost_by(
        d,
        a.term,
        a.index,
        e.term - 1,
    ) by {
        if !c.acks.contains(a) {
            assert(own_acks.contains(a));
            if c.elections.contains(e) {
                assert(election_valid(c, e));
                assert(grant_valid(
                    c,
                    Grant { voter: e.voters[i], term: e.term, candidate: e.leader },
                ));
            }
        } else if !c.elections.contains(e) {
            assert(e == mine);
            assert(ack_valid(c, a));
            lemma_grow_beginning(c, d, a.term, a.index);
            let g = Grant { voter: now.votes[i], term, candidate: n };
            assert(d.grants.contains(g));
            if c.grants.contains(g) {
                // The vote was on record before the election: no leader of the term was.
                if !holds(c.campaigns[(term, n)], c, a.term, a.index) {
                    assert(lost_by(c, a.term, a.index, term as int));
                    let w = choose|w: Election| #[trigger] lacks(c, w, a.term, a.index) && w.term
                        <= term;
                    if w.term == term {
                        assert(d.elections.contains(w));
                        lemma_one_leader(d, w, mine);
                        assert(election_valid(c, w));
                    }
                    assert(lacks(c, w, a.term, a.index) && w.term <= term - 1);
                    lemma_grow_lost(c, d, a.term, a.index, term - 1, term - 1);
                } else {
                    assert(campaign_valid(c, term, n));
                }
            } else {
                // The leader's own vote at its timeout.
                if !holds(s.log, c, a.term, a.index) {
                    lemma_grow_lost(c, d, a.term, a.index, s.current_term as int, term - 1);
                }
            }
        }
    }
    assert forall|k: Commit| #[trigger] d.commits.contains(k) implies commit_valid(d, k) by {
        if !c.commits.contains(k) {
            let index = now.commit_index as int;
            lemma_storing(now, index, now.members.len() as int);
            assert(d.leader_logs[term] == now.log);
            assert(now.entry_at(index) == now.log[index - 1]);
            assert forall|i: int| 0 <= i < k.quorum.len() implies d.members.contains(
                #[trigger] k.quorum[i],
            ) && d.acks.contains(Ack { voter: k.quorum[i], term: k.term, index: k.index }) by {
                let v = k.quorum[i];
                let p = position(now.members, v);
                crate::ids::lemma_position(now.members, v);
                if now.members[p] == now.id {
                    assert(own_acks.contains(Ack { voter: v, term, index }));
                } else {
                    let known = Ack {
                        voter: now.members[p],
                        term,
                        index: now.progress[p].match_index as int,
                    };
                    assert(d.acks.contains(known));
                    assert(ack_valid(d, known));
                }
            }
        }
    }
    assert forall|x: NodeId| #[trigger]
        d.nodes.contains_key(x) && d.nodes[x].commit_index >= 1 implies backed(
        d,
        d.nodes[x].log,
        d.nodes[x].commit_index as int,
        d.nodes[x].current_term,
    ) by {
        if x == n {
            let index = now.commit_index as int;
            if now.commit_index > s.commit_index {
                let k = Commit {
                    term,
                    index,
                    quorum: storing(now, index, now.members.len() as int),
                };
                assert(d.commits.contains(k));
                assert(d.leader_logs[term] == now.log);
                assert(holds(now.log, d, term, index));
            } else {
                assert(now.log.subrange(0, index) =~= s.log.subrange(0, index)) by {
                    assert forall|i: int| 0 <= i < index implies now.log[i] == s.log[i] by {
                        assert(s.log[i] == now.log.subrange(0, s.log.len() as int)[i]);
                    }
                }
                lemma_grow_backed(c, d, s.log, now.log, index, s.current_term, now.current_term);
            }
        } else {
            assert(c.nodes.contains_key(x));
        }
    }
}

/// A step that leaves the log of node `n` and what it knows as a leader as they were
/// keeps what the records say of committed entries. A vote that the node has granted
/// in the step went to a campaign whose log is at least as up to date as the node's.
pub proof fn lemma_commit_kept(c: Cluster, d: Cluster, n: NodeId, granted: Option<Grant>)
    requires
        full_inv(c),
        commit_inv(c),
        full_inv(d),
        records_grow(c, d),
        c.nodes.contains_key(n),
        d.nodes == c.nodes.insert(n, d.nodes[n]),
        d.nodes[n].role == Role::Leader ==> c.nodes[n].role == Role::Leader
            && d.nodes[n].current_term == c.nodes[n].current_term && d.nodes[n].progress
            == c.nodes[n].progress && d.nodes[n].members == c.nodes[n].members,
        d.nodes[n].log == c.nodes[n].log,
        d.nodes[n].commit_index == c.nodes[n].commit_index || d.nodes[n].commit_index == 0,
        d.appends == c.appends,
        d.append_replies == c.append_replies,
        d.acks == c.acks,
        d.commits == c.commits,
        d.elections == c.elections,
        match granted {
            None => d.grants == c.grants,
            Some(g) => {
                &&& d.grants == c.grants.insert(g)
                &&& g.voter == n
                &&& c.nodes[n].current_term <= g.term
                &&& seq_last_id(d.campaigns[(g.term, g.candidate)]).up_to_date(
                    seq_last_id(c.nodes[n].log),
                )
            },
        },
    ensures
        commit_inv(d),
{
    let s = c.nodes[n];
    let now = d.nodes[n];
    assert(c.nodes.insert(n, now).contains_key(n));
    assert(node_valid(c, n));
    lemma_prefix_push(s.log, s.elected_blank());
    lemma_carry(c, d, n);
    assert forall|x: NodeId| #[trigger] d.nodes.contains_key(x) implies leader_valid(d, x) by {
        assert(c.nodes.contains_key(x));
        assert(leader_valid(c, x));
    }
    assert forall|g: Grant, a: Ack| #[trigger]
        d.grants.contains(g) && #[trigger] d.acks.contains(a) && a.voter == g.voter && a.term
            < g.term && own(d, a.term, a.index) implies holds(
        d.campaigns[(g.term, g.candidate)],
        d,
        a.term,
        a.index,
    ) || lost_by(d, a.term, a.index, g.term as int) by {
        if !c.grants.contains(g) {
            assert(granted == Some(g));
            assert(ack_valid(c, a));
            lemma_grow_beginning(c, d, a.term, a.index);
            if holds(s.log, c, a.term, a.index) {
                assert(held(d, LogSource::Node(n)));
                assert(d.campaigns.contains_key((g.term, g.candidate)));
                assert(held(d, LogSource::Campaign(g.term, g.candidate)));
                assert(campaign_valid(d, g.term, g.candidate));
                lemma_vote_keeps(
                    d,
                    LogSource::Node(n),
                    LogSource::Campaign(g.term, g.candidate),
                    a.term,
                    a.index,
                    g.term,
                );
            } else {
                lemma_grow_lost(c, d, a.term, a.index, s.current_term as int, g.term as int);
            }
        }
    }
    assert forall|x: NodeId| #[trigger]
        d.nodes.contains_key(x) && d.nodes[x].commit_index >= 1 implies backed(
        d,
        d.nodes[x].log,
        d.nodes[x].commit_index as int,
        d.nodes[x].current_term,
    ) by {
        assert(c.nodes.contains_key(x));
        if x == n {
            lemma_grow_backed(
                c,
                d,
                s.log,
                now.log,
                s.commit_index as int,
                s.current_term,
                now.current_term,
            );
        }
    }
}

/// What a leader's moving its commit index brings about: the index does not fall, and
/// where it rises, the entry there is of the leader's term and stored by a strict
/// majority.
pub proof fn lemma_advanced_facts(s: EngineState)
    requires
        s.wf(),
    ensures
        s.advanced().commit_index >= s.commit_index,
        s.advanced().commit_index > s.commit_index ==> s.advanced().committable_at(
            s.advanced().commit_index as int,
        ),
{
    lemma_highest_committable(s, s.last_index());
    let t = s.advanced();
    if t.commit_index > s.commit_index {
        let index = t.commit_index as int;
        assert(s.committable(index));
        lemma_count_same(s, t, index, s.members.len() as int);
    }
}

/// The count of stored copies looks at the members and the progress records only.
pub proof fn lemma_count_same(s: EngineState, t: EngineState, index: int, upto: int)
    requires
        s.members == t.members,
        s.progress == t.progress,
        s.id == t.id,
    ensures
        s.count_stored(index, upto) == t.count_stored(index, upto),
        storing(s, index, upto) == storing(t, index, upto),
    decreases upto,
{
    if upto > 0 {
        lemma_count_same(s, t, index, upto - 1);
    }
}

/// Sending what `replication` gives keeps what the records say of committed entries.
pub proof fn lemma_commit_sent(c: Cluster, n: NodeId, to: NodeId)
    requires
        full_inv(c),
        commit_inv(c),
        c.enabled(Event::SendAppend(n, to)),
    ensures
        commit_inv(c.after(Event::SendAppend(n, to))),
{
    let event = Event::SendAppend(n, to);
    let d = c.after(event);
    let s = c.nodes[n];
    lemma_after_terms(c, event);
    lemma_after_grows(c, event);
    assert(d.nodes =~= c.nodes.insert(n, s));
    assert(node_valid(c, n));
    lemma_prefix_push(s.log, s.elected_blank());
    lemma_carry(c, d, n);
    assert forall|x: NodeId| #[trigger] d.nodes.contains_key(x) implies leader_valid(d, x) by {
        assert(c.nodes.contains_key(x));
        assert(leader_valid(c, x));
    }
    assert forall|x: NodeId| #[trigger]
        d.nodes.contains_key(x) && d.nodes[x].commit_index >= 1 implies backed(
        d,
        d.nodes[x].log,
        d.nodes[x].commit_index as int,
        d.nodes[x].current_term,
    ) by {
        assert(c.nodes.contains_key(x));
        let sx = c.nodes[x];
        assert(node_valid(c, x));
        lemma_grow_backed(c, d, sx.log, sx.log, sx.commit_index as int, sx.current_term, sx.current_term);
    }
    assert forall|m: AppendMsg| #[trigger]
        d.appends.contains(m) && m.req.leader_commit >= 1 implies backed(
        d,
        m.log,
        m.req.leader_commit as int,
        m.req.term,
    ) by {
        if !c.appends.contains(m) {
            crate::ids::lemma_position(s.members, to);
            assert(m.log == s.log && m.req.leader_commit == s.commit_index && m.req.term
                == s.current_term);
            lemma_grow_backed(c, d, s.log, s.log, s.commit_index as int, s.current_term, s.current_term);
        }
    }
}

/// Delivering an append-entries request keeps what the records say of committed
/// entries.
pub proof fn lemma_commit_append(c: Cluster, m: AppendMsg)
    requires
        full_inv(c),
        commit_inv(c),
        c.enabled(Event::DeliverAppend(m)),
    ensures
        commit_inv(c.after(Event::DeliverAppend(m))),
{
    let event = Event::DeliverAppend(m);
    let d = c.after(event);
    let n = m.to;
    let s = c.nodes[n];
    let now = s.appended(m.req);
    let reply = s.append_reply(m.req);
    let tm = m.req.term;
    lemma_after_terms(c, event);
    lemma_after_grows(c, event);
    assert(c.nodes.insert(n, now).contains_key(n));
    assert(d.nodes[n] == now);
    assert(node_valid(c, n) && node_valid(d, n));
    assert(held(c, LogSource::Node(n)) && held(c, LogSource::Message(m)));
    assert(message_valid(c, m) && message_logged(c, m));
    assert(matching(log_of(c, LogSource::Node(n)), log_of(c, LogSource::Message(m))));
    assert(log_shape(log_of(c, LogSource::Node(n))));
    assert(log_shape(log_of(c, LogSource::Message(m))));
    let taken = s.accepts_leader(m.req) && s.can_append(m.req);
    if taken {
        lemma_append_taken(s, m, c);
    }
    assert(reply.success == taken);
    let new_acks = acks_upto(n, tm, reply.match_index as int);
    let theirs = Election { term: tm, leader: m.req.leader, voters: m.voters };
    assert(c.elections.contains(theirs));
    assert(election_logged(c, theirs));
    lemma_carry(c, d, n);
    // The node's log after the step: as before, or the sender's.
    assert(now.log == s.log || (taken && now.log == m.log));
    assert forall|a: Ack| #[trigger] d.acks.contains(a) implies ack_valid(d, a) by {
        if c.acks.contains(a) {
            assert(ack_valid(c, a));
            if a.voter == n {
                if now.log == s.log {
                    lemma_prefix_push(s.log, s.elected_blank());
                } else {
                    lemma_replaced(c, d, m, a);
                }
            }
        } else {
            assert(new_acks.contains(a));
            let full = d.leader_logs[tm];
            assert(prefix(m.log, c.leader_logs[tm]));
            assert(prefix(c.leader_logs[tm], full));
            crate::leadership::lemma_prefix_trans(m.log, c.leader_logs[tm], full);
            assert forall|j: int| 1 <= j <= a.index implies #[trigger] d.acks.contains(
                Ack { voter: a.voter, term: a.term, index: j },
            ) by {
                assert(new_acks.contains(Ack { voter: a.voter, term: a.term, index: j }));
            }
            assert(now.log.subrange(0, a.index) =~= beginning(d, tm, a.index)) by {
                assert forall|i: int| 0 <= i < a.index implies now.log[i] == full[i] by {
                    assert(m.log[i] == now.log.subrange(0, m.log.len() as int)[i]);
                    assert(m.log[i] == full.subrange(0, m.log.len() as int)[i]);
                }
            }
        }
    }
    assert forall|r: AppendReplyMsg| #[trigger]
        d.append_replies.contains(r) && r.reply.success && r.reply.match_index
            >= 1 implies d.acks.contains(
        Ack { voter: r.from, term: r.reply.term, index: r.reply.match_index as int },
    ) by {
        let a = Ack { voter: r.from, term: r.reply.term, index: r.reply.match_index as int };
        if c.append_replies.contains(r) {
            assert(c.acks.contains(a));
        } else {
            assert(new_acks.contains(a));
        }
    }
    assert forall|x: NodeId| #[trigger] d.nodes.contains_key(x) implies leader_valid(d, x) by {
        assert(c.nodes.contains_key(x));
        if x == n {
            assert(leader_valid(c, n));
        }
    }
    assert forall|g: Grant, a: Ack| #[trigger]
        d.grants.contains(g) && #[trigger] d.acks.contains(a) && a.voter == g.voter && a.term
            < g.term && own(d, a.term, a.index) implies holds(
        d.campaigns[(g.term, g.candidate)],
        d,
        a.term,
        a.index,
    ) || lost_by(d, a.term, a.index, g.term as int) by {
        if !c.acks.contains(a) {
            assert(new_acks.contains(a));
            assert(grant_valid(c, g));
        }
    }
    assert forall|e: Election, i: int, a: Ack| #[trigger]
        d.elections.contains(e) && 0 <= i < e.voters.len() && #[trigger] d.acks.contains(a)
            && a.voter == #[trigger] e.voters[i] && a.term < e.term && own(
            d,
            a.term,
            a.index,
        ) implies holds(d.campaigns[(e.term, e.leader)], d, a.term, a.index) || lost_by(
        d,
        a.term,
        a.index,
        e.term - 1,
    ) by {
        if !c.acks.contains(a) {
            assert(new_acks.contains(a));
            assert(election_valid(c, e));
            assert(grant_valid(c, Grant { voter: e.voters[i], term: e.term, candidate: e.leader }));
        }
    }
    assert forall|x: NodeId| #[trigger]
        d.nodes.contains_key(x) && d.nodes[x].commit_index >= 1 implies backed(
        d,
        d.nodes[x].log,
        d.nodes[x].commit_index as int,
        d.nodes[x].current_term,
    ) by {
        assert(c.nodes.contains_key(x));
        if x == n {
            let index = now.commit_index as int;
            crate::preservation::lemma_appended(s, m.req);
            if now.commit_index == s.commit_index {
                assert(now.log.subrange(0, index) =~= s.log.subrange(0, index)) by {
                    assert forall|i: int| 0 <= i < index implies now.log[i] == s.log[i] by {
                        assert(now.entry_at(i + 1) == s.entry_at(i + 1));
                    }
                }
                lemma_grow_backed(c, d, s.log, now.log, index, s.current_term, now.current_term);
            } else {
                // The commit index is the leader's, which the sender's log backs.
                assert(taken);
                assert(index <= m.req.leader_commit && index <= m.log.len());
                assert(backed(c, m.log, m.req.leader_commit as int, tm));
                let k = choose|k: Commit| #[trigger]
                    c.commits.contains(k) && k.index >= m.req.leader_commit && k.term <= tm
                        && holds(m.log, c, k.term, m.req.leader_commit as int);
                assert(commit_valid(c, k));
                crate::commitment::lemma_holds_shorter(
                    m.log,
                    c,
                    k.term,
                    m.req.leader_commit as int,
                    index,
                );
                lemma_holds_longer(m.log, now.log, c, k.term, index);
                lemma_grow_beginning(c, d, k.term, index);
                assert(d.commits.contains(k));
            }
        }
    }
}

/// A node whose log was cut and continued with the sender's still holds what it is
/// on record as holding, unless a later leader began without it.
proof fn lemma_replaced(c: Cluster, d: Cluster, m: AppendMsg, a: Ack)
    requires
        full_inv(c),
        commit_inv(c),
        full_inv(d),
        records_grow(c, d),
        c.enabled(Event::DeliverAppend(m)),
        d == c.after(Event::DeliverAppend(m)),
        c.acks.contains(a),
        a.voter == m.to,
        c.nodes[m.to].accepts_leader(m.req),
        c.nodes[m.to].can_append(m.req),
        d.nodes[m.to].log == m.log,
        d.nodes[m.to].current_term == m.req.term,
    ensures
        ack_valid(d, a),
{
    let n = m.to;
    let s = c.nodes[n];
    let now = d.nodes[n];
    let tm = m.req.term;
    assert(ack_valid(c, a));
    assert(node_valid(c, n));
    assert(held(c, LogSource::Node(n)) && held(c, LogSource::Message(m)));
    assert(message_valid(c, m) && message_logged(c, m));
    assert(log_shape(log_of(c, LogSource::Node(n))));
    assert(log_shape(log_of(c, LogSource::Message(m))));
    lemma_grow_beginning(c, d, a.term, a.index);
    assert forall|j: int| 1 <= j <= a.index implies #[trigger] d.acks.contains(
        Ack { voter: a.voter, term: a.term, index: j },
    ) by {
        assert(c.acks.contains(Ack { voter: a.voter, term: a.term, index: j }));
    }
    if own(d, a.term, a.index) {
        if !holds(s.log, c, a.term, a.index) {
            lemma_grow_lost(c, d, a.term, a.index, s.current_term as int, tm as int);
        } else if tm == a.term {
            let full = c.leader_logs[tm];
            if m.log.len() >= a.index {
                assert(m.log.subrange(0, a.index) =~= beginning(c, tm, a.index)) by {
                    assert forall|i: int| 0 <= i < a.index implies m.log[i] == full[i] by {
                        assert(m.log[i] == full.subrange(0, m.log.len() as int)[i]);
                    }
                }
            } else {
                // The sender's log is a beginning of the node's: nothing is cut.
                assert(m.log =~= s.log.subrange(0, m.log.len() as int)) by {
                    assert forall|i: int| 0 <= i < m.log.len() implies m.log[i] == s.log[i] by {
                        assert(m.log[i] == full.subrange(0, m.log.len() as int)[i]);
                        assert(s.log.subrange(0, a.index)[i] == beginning(c, tm, a.index)[i]);
                    }
                }
                lemma_no_cut(s, m, c);
            }
        } else {
            let theirs = Election { term: tm, leader: m.req.leader, voters: m.voters };
            assert(c.elections.contains(theirs));
            let begun = c.campaigns[(tm, m.req.leader)];
            if holds(begun, c, a.term, a.index) {
                lemma_holds_longer(begun, m.log, c, a.term, a.index);
            } else {
                assert(lacks(c, theirs, a.term, a.index));
                lemma_grow_lost(c, d, a.term, a.index, tm as int, tm as int);
            }
        }
    }
}

/// What winning brings about: the winner is leader of the term of its campaign with
/// the votes of its campaign, knows nothing yet of the other members' logs, and where
/// its commit index rises, the entry there is of its term and stored by a strict
/// majority.
pub proof fn lemma_elected_facts(counting: EngineState)
    requires
        counting.wf(),
    ensures
        counting.elected().role == Role::Leader,
        counting.elected().current_term == counting.current_term,
        counting.elected().votes == counting.votes,
        counting.elected().members == counting.members,
        counting.elected().progress == fresh_progress(counting.members, counting.last_index()),
        counting.elected().commit_index >= counting.commit_index,
        counting.elected().commit_index > counting.commit_index
            ==> counting.elected().committable_at(counting.elected().commit_index as int),
{
    if counting.last_index() + 1 < u64::MAX {
        let led = EngineState {
            role: Role::Leader,
            leader: Some(counting.id),
            progress: fresh_progress(counting.members, counting.last_index()),
            log: counting.log.push(counting.elected_blank()),
            ..counting
        };
        assert(led.wf());
        lemma_advanced_facts(led);
    }
}

/// A cluster in which nothing has happened satisfies the invariant.
pub proof fn lemma_start_commit(members: Seq<NodeId>)
    ensures
        commit_inv(Cluster::start(members)),
{
}

/// Every event keeps what the records say of committed entries.
pub proof fn lemma_after_commit(c: Cluster, event: Event)
    requires
        full_inv(c),
        commit_inv(c),
    ensures
        full_inv(c.after(event)),
        commit_inv(c.after(event)),
        records_grow(c, c.after(event)),
{
    lemma_after_terms(c, event);
    lemma_after_grows(c, event);
    let d = c.after(event);
    if c.enabled(event) {
        match event {
            Event::Timeout(n) => {
                let s = c.nodes[n];
                assert(node_valid(c, n));
                if s.may_campaign() {
                    let counting = s.campaigning();
                    let now = counting.tallied();
                    assert(c.nodes.insert(n, now).contains_key(n));
                    assert(d.nodes[n] == now);
                    lemma_elected_log(counting);
                    lemma_elected_facts(counting);
                    if now.role == Role::Leader {
                        lemma_commit_led(c, d, n, true);
                    } else {
                        lemma_prefix_push(s.log, s.elected_blank());
                        lemma_commit_kept(
                            c,
                            d,
                            n,
                            Some(Grant { voter: n, term: now.current_term, candidate: n }),
                        );
                    }
                }
            },
            Event::Restart(n) => {
                assert(node_valid(c, n));
                lemma_commit_kept(c, d, n, None);
            },
            Event::DeliverVoteRequest(n, req) => {
                let s = c.nodes[n];
                assert(node_valid(c, n));
                if s.grants(req) {
                    lemma_commit_kept(
                        c,
                        d,
                        n,
                        Some(Grant { voter: n, term: req.term, candidate: req.candidate }),
                    );
                } else {
                    lemma_commit_kept(c, d, n, None);
                }
            },
            Event::DeliverVoteReply(m) => {
                let n = m.to;
                let s = c.nodes[n];
                let now = s.vote_counted(m.from, m.reply);
                assert(node_valid(c, n));
                assert(c.nodes.insert(n, now).contains_key(n));
                assert(d.nodes[n] == now);
                lemma_prefix_push(s.log, s.elected_blank());
                let counted = EngineState { votes: s.votes.push(m.from), ..s };
                lemma_elected_log(counted);
                lemma_elected_facts(counted);
                if now.role == Role::Leader {
                    assert(leader_valid(c, n));
                    lemma_commit_led(c, d, n, s.role != Role::Leader);
                } else {
                    lemma_commit_kept(c, d, n, None);
                }
            },
            Event::Write(n, payload) => {
                let s = c.nodes[n];
                let now = s.written(payload);
                assert(node_valid(c, n));
                assert(c.nodes.insert(n, now).contains_key(n));
                assert(d.nodes[n] == now);
                lemma_prefix_push(s.log, s.next_entry(payload));
                if s.role == Role::Leader {
                    assert(leader_valid(c, n));
                    if s.last_index() + 1 < u64::MAX {
                        let grown = EngineState { log: s.log.push(s.next_entry(payload)), ..s };
                        assert(grown.wf());
                        lemma_advanced_facts(grown);
                    }
                    lemma_commit_led(c, d, n, false);
                } else {
                    lemma_commit_kept(c, d, n, None);
                }
            },
            Event::SendAppend(n, to) => {
                lemma_commit_sent(c, n, to);
            },
            Event::DeliverAppend(m) => {
                lemma_commit_append(c, m);
            },
            Event::DeliverAppendReply(r) => {
                let n = r.to;
                let s = c.nodes[n];
                let now = s.append_counted(r.from, r.reply);
                assert(node_valid(c, n));
                assert(c.nodes.insert(n, now).contains_key(n));
                assert(d.nodes[n] == now);
                lemma_prefix_push(s.log, s.elected_blank());
                if now.role == Role::Leader {
                    assert(leader_valid(c, n));
                    if s.heeds(r.from, r.reply) {
                        let k0 = position(s.members, r.from);
                        crate::ids::lemma_position(s.members, r.from);
                        let q = s.progress_after(s.progress[k0], r.reply);
                        let noted = EngineState { progress: s.progress.update(k0, q), ..s };
                        assert(noted.wf());
                        lemma_advanced_facts(noted);
                        assert(now.progress == noted.progress);
                        assert forall|k: int|
                            0 <= k < now.members.len() && (#[trigger] now.progress[k]).match_index
                                >= 1 implies d.acks.contains(
                            Ack {
                                voter: now.members[k],
                                term: now.current_term,
                                index: now.progress[k].match_index as int,
                            },
                        ) by {
                            if k == k0 && q.match_index != s.progress[k0].match_index {
                                let told = Ack {
                                    voter: r.from,
                                    term: r.reply.term,
                                    index: r.reply.match_index as int,
                                };
                                assert(c.acks.contains(told));
                                assert(ack_valid(c, told));
                                assert(c.acks.contains(
                                    Ack {
                                        voter: r.from,
                                        term: r.reply.term,
                                        index: q.match_index as int,
                                    },
                                ));
                            } else {
                                assert(s.progress[k].match_index == now.progress[k].match_index);
                            }
                        }
                    }
                    lemma_commit_led(c, d, n, false);
                } else {
                    lemma_commit_kept(c, d, n, None);
                }
            },
        }
    }
}

/// The invariants hold after any events.
pub proof fn lemma_after_all_commit(members: Seq<NodeId>, events: Seq<Event>)
    ensures
        full_inv(Cluster::start(members).after_all(events)),
        commit_inv(Cluster::start(members).after_all(events)),
    decreases events.len(),
{
    if events.len() == 0 {
        crate::leadership::lemma_start_terms(members);
        lemma_start_commit(members);
    } else {
        lemma_after_all_commit(members, events.drop_last());
        lemma_after_commit(Cluster::start(members).after_all(events.drop_last()), events.last());
    }
}

/// What is on record after the first `upto` of some events is on record after all.
pub proof fn lemma_grows_after(members: Seq<NodeId>, events: Seq<Event>, upto: int)
    requires
        0 <= upto <= events.len(),
    ensures
        records_grow(
            Cluster::start(members).after_all(events.take(upto)),
            Cluster::start(members).after_all(events),
        ),
    decreases events.len(),
{
    let start = Cluster::start(members);
    if upto == events.len() {
        assert(events.take(upto) =~= events);
        crate::growth::lemma_grow_refl(start.after_all(events));
    } else {
        let shorter = events.drop_last();
        assert(shorter.take(upto) =~= events.take(upto));
        lemma_grows_after(members, shorter, upto);
        lemma_after_all_commit(members, shorter);
        lemma_after_commit(start.after_all(shorter), events.last());
        crate::growth::lemma_grow_trans(
            start.after_all(events.take(upto)),
            start.after_all(shorter),
            start.after_all(events),
        );
    }
}

} // verus!
