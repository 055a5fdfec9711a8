//! What the records of a cluster say of its logs: every entry of a term stands in the
//! log of that term's leader, at the same place; the log of a leader begins with the
//! log of its campaign and goes on with entries of its own term; terms do not fall
//! along a log.

use vstd::prelude::*;
use crate::cluster::{AppendMsg, Cluster, Election, Event, Grant};
use crate::election::{election_inv, election_valid, lemma_one_leader, node_valid};
use crate::log_matching::{
    cluster_inv, from_old, held, lemma_after_logs, lemma_term_unused, log_of, log_shape,
    matching, message_valid, term_elected, LogSource,
};
use crate::preservation::lemma_highest_committable;
use crate::protocol::{fresh_progress, position, EngineState, Role, VoteRequest};
use crate::types::{EntryView, LogId, NodeId};

verus! {

/// Whether `x` is a beginning of `y`.
pub open spec fn prefix(x: Seq<EntryView>, y: Seq<EntryView>) -> bool {
    x.len() <= y.len() && x == y.subrange(0, x.len() as int)
}

/// A beginning of a beginning is a beginning.
pub proof fn lemma_prefix_trans(x: Seq<EntryView>, y: Seq<EntryView>, z: Seq<EntryView>)
    requires
        prefix(x, y),
        prefix(y, z),
    ensures
        prefix(x, z),
{
    assert(x =~= z.subrange(0, x.len() as int)) by {
        assert forall|i: int| 0 <= i < x.len() implies x[i] == z[i] by {
            assert(x[i] == y.subrange(0, x.len() as int)[i]);
            assert(y[i] == z.subrange(0, y.len() as int)[i]);
        }
    }
}

/// A log is a beginning of itself, and of itself with one more entry.
pub proof fn lemma_prefix_push(x: Seq<EntryView>, e: EntryView)
    ensures
        prefix(x, x),
        prefix(x, x.push(e)),
{
    assert(x =~= x.subrange(0, x.len() as int));
    assert(x =~= x.push(e).subrange(0, x.len() as int));
}

/// The position of a log's last entry; (0, 0) for an empty log.
pub open spec fn seq_last_id(x: Seq<EntryView>) -> LogId {
    if x.len() == 0 {
        LogId { term: 0, index: 0 }
    } else {
        x.last().id()
    }
}

/// Whether terms do not fall along the log.
pub open spec fn rising(x: Seq<EntryView>) -> bool {
    forall|j: int, k: int| 0 <= j <= k < x.len() ==> (#[trigger] x[j]).term <= (#[trigger] x[k]).term
}

/// Whether every entry of the log is of `term` at most.
pub open spec fn bounded(x: Seq<EntryView>, term: u64) -> bool {
    forall|k: int| 0 <= k < x.len() ==> (#[trigger] x[k]).term <= term
}

/// Whether the entry `x` stands at place `k` of the log on record for the leader of
/// its term.
pub open spec fn entry_on_record(c: Cluster, x: EntryView, k: int) -> bool {
    &&& c.leader_logs.contains_key(x.term)
    &&& k < c.leader_logs[x.term].len()
    &&& c.leader_logs[x.term][k] == x
}

/// What holds of the campaign of `n` in `term` that is on record: the node has
/// reached the term, the log of the campaign holds entries of earlier terms only, and
/// as long as the node is candidate in that term its log is the campaign's.
pub open spec fn campaign_valid(c: Cluster, term: u64, n: NodeId) -> bool {
    let log = c.campaigns[(term, n)];
    &&& c.nodes.contains_key(n)
    &&& c.nodes[n].current_term >= term
    &&& term >= 1
    &&& forall|k: int| 0 <= k < log.len() ==> (#[trigger] log[k]).term < term
    &&& c.nodes[n].role == Role::Candidate && c.nodes[n].current_term == term ==> log
        == c.nodes[n].log
}

/// What holds of an election on record: the leader's log on record begins with the
/// log of its campaign and goes on with entries of its own term.
pub open spec fn election_logged(c: Cluster, e: Election) -> bool {
    let begun = c.campaigns[(e.term, e.leader)];
    let log = c.leader_logs[e.term];
    &&& c.campaigns.contains_key((e.term, e.leader))
    &&& c.leader_logs.contains_key(e.term)
    &&& prefix(begun, log)
    &&& forall|k: int| begun.len() <= k < log.len() ==> (#[trigger] log[k]).term == e.term
}

/// What holds of an append-entries request under way: the log it was sent with lies
/// between the log of the sender's campaign and the sender's log on record.
pub open spec fn message_logged(c: Cluster, m: AppendMsg) -> bool {
    &&& c.leader_logs.contains_key(m.req.term)
    &&& prefix(m.log, c.leader_logs[m.req.term])
    &&& c.campaigns.contains_key((m.req.term, m.req.leader))
    &&& prefix(c.campaigns[(m.req.term, m.req.leader)], m.log)
}

/// What holds of the records of a cluster whatever has happened.
pub open spec fn terms_inv(c: Cluster) -> bool {
    &&& forall|t: u64, n: NodeId| #[trigger]
        c.campaigns.contains_key((t, n)) ==> campaign_valid(c, t, n)
    &&& forall|e: Election| #[trigger] c.elections.contains(e) ==> election_logged(c, e)
    &&& forall|g: Grant| #[trigger]
        c.grants.contains(g) ==> c.campaigns.contains_key((g.term, g.candidate))
    &&& forall|r: VoteRequest| #[trigger]
        c.vote_requests.contains(r) ==> c.campaigns.contains_key((r.term, r.candidate))
            && seq_last_id(c.campaigns[(r.term, r.candidate)]) == r.last_log
    &&& forall|t: u64| #[trigger] c.leader_logs.contains_key(t) ==> term_elected(c, t)
    &&& forall|m: AppendMsg| #[trigger] c.appends.contains(m) ==> message_logged(c, m)
    &&& forall|a: LogSource, k: int|
        held(c, a) && 0 <= k < log_of(c, a).len() ==> entry_on_record(
            c,
            #[trigger] log_of(c, a)[k],
            k,
        )
    &&& forall|a: LogSource| #[trigger] held(c, a) ==> rising(log_of(c, a))
    &&& forall|n: NodeId| #[trigger]
        c.nodes.contains_key(n) ==> bounded(c.nodes[n].log, c.nodes[n].current_term) && (
        c.nodes[n].role == Role::Candidate ==> c.campaigns.contains_key(
            (c.nodes[n].current_term, n),
        ))
}

/// The invariant of the cluster with that of its records.
pub open spec fn full_inv(c: Cluster) -> bool {
    cluster_inv(c) && terms_inv(c)
}

/// A cluster in which nothing has happened satisfies the invariant.
pub proof fn lemma_start_terms(members: Seq<NodeId>)
    ensures
        full_inv(Cluster::start(members)),
{
    crate::log_matching::lemma_start_logs(members);
    let c = Cluster::start(members);
    assert forall|a: LogSource| #[trigger] held(c, a) implies log_of(c, a).len() == 0 by {
        match a {
            LogSource::Node(n) => {},
            _ => {},
        }
    }
}

/// The entries of a leader's log on record are of the leader's term at most.
pub proof fn lemma_leader_log_bounded(c: Cluster, e: Election)
    requires
        terms_inv(c),
        c.elections.contains(e),
    ensures
        bounded(c.leader_logs[e.term], e.term),
{
    assert(election_logged(c, e));
    assert(campaign_valid(c, e.term, e.leader));
    let begun = c.campaigns[(e.term, e.leader)];
    let log = c.leader_logs[e.term];
    assert forall|k: int| 0 <= k < log.len() implies (#[trigger] log[k]).term <= e.term by {
        if k < begun.len() {
            assert(begun[k] == log.subrange(0, begun.len() as int)[k]);
        }
    }
}

/// A step in which node `n` acts and no log is new keeps the invariant of the
/// records, where the records of logs and elections stay as they are.
pub proof fn lemma_terms_quiet(c: Cluster, d: Cluster, n: NodeId)
    requires
        full_inv(c),
        cluster_inv(d),
        c.nodes.contains_key(n),
        d.nodes == c.nodes.insert(n, d.nodes[n]),
        d.nodes[n].current_term >= c.nodes[n].current_term,
        d.nodes[n].role == Role::Candidate ==> d.campaigns != c.campaigns || (c.nodes[n].role
            == Role::Candidate && d.nodes[n].current_term == c.nodes[n].current_term
            && d.nodes[n].log == c.nodes[n].log),
        bounded(d.nodes[n].log, d.nodes[n].current_term),
        forall|a: LogSource| #[trigger] held(d, a) ==> from_old(c, d, a),
        d.campaigns == c.campaigns || (d.nodes[n].current_term == c.nodes[n].current_term + 1
            && d.nodes[n].log == c.nodes[n].log && d.campaigns == c.campaigns.insert(
            (d.nodes[n].current_term, n),
            c.nodes[n].log,
        )),
        d.elections == c.elections,
        forall|r: VoteRequest| #[trigger]
            d.vote_requests.contains(r) ==> c.vote_requests.contains(r) || (
            d.campaigns.contains_key((r.term, r.candidate)) && seq_last_id(
                d.campaigns[(r.term, r.candidate)],
            ) == r.last_log),
        d.leader_logs == c.leader_logs,
        forall|g: Grant| #[trigger]
            d.grants.contains(g) ==> c.grants.contains(g) || d.campaigns.contains_key(
                (g.term, g.candidate),
            ),
        forall|m: AppendMsg| #[trigger]
            d.appends.contains(m) ==> c.appends.contains(m) || message_logged(d, m),
    ensures
        terms_inv(d),
{
    assert(c.nodes.insert(n, d.nodes[n]).contains_key(n));
    assert(bounded(c.nodes[n].log, c.nodes[n].current_term));
    assert forall|t: u64, x: NodeId| #[trigger] d.campaigns.contains_key((t, x)) implies campaign_valid(
        d,
        t,
        x,
    ) by {
        if c.campaigns.contains_key((t, x)) {
            assert(campaign_valid(c, t, x));
        }
    }
    assert forall|e: Election| #[trigger] d.elections.contains(e) implies election_logged(d, e) by {
        assert(election_logged(c, e));
        assert(campaign_valid(c, e.term, e.leader));
    }
    assert forall|g: Grant| #[trigger] d.grants.contains(g) implies d.campaigns.contains_key(
        (g.term, g.candidate),
    ) by {}
    assert forall|r: VoteRequest| #[trigger]
        d.vote_requests.contains(r) implies d.campaigns.contains_key((r.term, r.candidate))
        && seq_last_id(d.campaigns[(r.term, r.candidate)]) == r.last_log by {
        if c.vote_requests.contains(r) {
            assert(campaign_valid(c, r.term, r.candidate));
        }
    }
    assert forall|t: u64| #[trigger] d.leader_logs.contains_key(t) implies term_elected(d, t) by {
        assert(term_elected(c, t));
        let e = choose|e: Election| #[trigger] c.elections.contains(e) && e.term == t;
        assert(d.elections.contains(e));
    }
    assert forall|m: AppendMsg| #[trigger] d.appends.contains(m) implies message_logged(d, m) by {
        if c.appends.contains(m) {
            assert(message_logged(c, m));
            assert(campaign_valid(c, m.req.term, m.req.leader));
        }
    }
    assert forall|a: LogSource, k: int| held(d, a) && 0 <= k < log_of(d, a).len() implies entry_on_record(
        d,
        #[trigger] log_of(d, a)[k],
        k,
    ) by {
        assert(from_old(c, d, a));
        let b = choose|b: LogSource| #[trigger] held(c, b) && log_of(c, b) == log_of(d, a);
        assert(entry_on_record(c, log_of(c, b)[k], k));
    }
    assert forall|a: LogSource| #[trigger] held(d, a) implies rising(log_of(d, a)) by {
        assert(from_old(c, d, a));
        let b = choose|b: LogSource| #[trigger] held(c, b) && log_of(c, b) == log_of(d, a);
        assert(rising(log_of(c, b)));
    }
    assert forall|x: NodeId| #[trigger] d.nodes.contains_key(x) implies bounded(
        d.nodes[x].log,
        d.nodes[x].current_term,
    ) && (d.nodes[x].role == Role::Candidate ==> d.campaigns.contains_key(
        (d.nodes[x].current_term, x),
    )) by {
        assert(c.nodes.contains_key(x));
    }
}

/// A step in which the leader `n` puts one entry of its term at the end of its log,
/// or takes office without one, keeps the invariant of the records. `won` says
/// whether the node has just won its election.
pub proof fn lemma_terms_leader_step(
    c: Cluster,
    d: Cluster,
    n: NodeId,
    grown: bool,
    e: EntryView,
    won: bool,
)
    requires
        full_inv(c),
        cluster_inv(d),
        c.nodes.contains_key(n),
        d.nodes == c.nodes.insert(n, d.nodes[n]),
        d.nodes[n].role == Role::Leader,
        d.nodes[n].log == if grown {
            c.nodes[n].log.push(e)
        } else {
            c.nodes[n].log
        },
        grown ==> e.term == d.nodes[n].current_term,
        d.nodes[n].current_term >= c.nodes[n].current_term,
        d.appends == c.appends,
        d.vote_requests == c.vote_requests || (c.nodes[n].may_campaign() && d.vote_requests
            == c.vote_requests.insert(c.nodes[n].campaign_request().unwrap())),
        d.grants == c.grants || d.grants == c.grants.insert(
            Grant { voter: n, term: d.nodes[n].current_term, candidate: n },
        ),
        d.leader_logs == c.leader_logs.insert(d.nodes[n].current_term, d.nodes[n].log),
        d.campaigns == c.campaigns || (d.nodes[n].current_term == c.nodes[n].current_term + 1
            && d.campaigns == c.campaigns.insert(
            (d.nodes[n].current_term, n),
            c.nodes[n].log,
        )),
        d.campaigns.contains_key((d.nodes[n].current_term, n)),
        d.grants != c.grants ==> d.campaigns != c.campaigns,
        d.vote_requests != c.vote_requests ==> d.campaigns != c.campaigns,
        won ==> d.campaigns[(d.nodes[n].current_term, n)] == c.nodes[n].log && d.elections
            == c.elections.insert(
            Election { term: d.nodes[n].current_term, leader: n, voters: d.nodes[n].votes },
        ),
        !won ==> d.elections == c.elections && c.nodes[n].role == Role::Leader
            && c.nodes[n].current_term == d.nodes[n].current_term && d.campaigns == c.campaigns,
        forall|a: LogSource, k: int|
            held(c, a) && 0 <= k < log_of(c, a).len() && (#[trigger] log_of(c, a)[k]).term
                == d.nodes[n].current_term ==> k < c.nodes[n].log.len() && c.nodes[n].log[k].term
                == d.nodes[n].current_term,
        won ==> forall|a: LogSource, k: int|
            held(c, a) && 0 <= k < log_of(c, a).len() ==> (#[trigger] log_of(c, a)[k]).term
                != d.nodes[n].current_term,
        won ==> c.nodes[n].current_term < d.nodes[n].current_term || (c.nodes[n].current_term
            == d.nodes[n].current_term && c.nodes[n].role == Role::Candidate),
    ensures
        terms_inv(d),
{
    let s = c.nodes[n];
    let now = d.nodes[n];
    let term = now.current_term;
    let old_log = s.log;
    let new_log = now.log;
    let me = LogSource::Node(n);
    assert(c.nodes.insert(n, now).contains_key(n));
    assert(held(c, me) && held(d, me));
    assert(node_valid(d, n));
    let mine = Election { term, leader: n, voters: now.votes };
    assert(d.elections.contains(mine));
    assert(bounded(old_log, s.current_term));
    assert(rising(log_of(c, me)));
    lemma_prefix_push(old_log, e);
    assert(prefix(old_log, new_log));
    // The campaign of this term, and the log on record for the leader before the step.
    if !won {
        assert(c.elections.contains(mine));
        assert(election_logged(c, mine));
        assert(c.leader_logs[term] == old_log);
    }
    assert forall|t: u64, x: NodeId| #[trigger] d.campaigns.contains_key((t, x)) implies campaign_valid(
        d,
        t,
        x,
    ) by {
        if c.campaigns.contains_key((t, x)) {
            assert(campaign_valid(c, t, x));
        }
    }
    assert forall|w: Election| #[trigger] d.elections.contains(w) implies election_logged(d, w) by {
        if w == mine {
            if won {
                assert forall|k: int| old_log.len() <= k < new_log.len() implies (
                #[trigger] new_log[k]).term == term by {}
            } else {
                assert(election_logged(c, w));
                lemma_prefix_trans(c.campaigns[(term, n)], old_log, new_log);
            }
        } else {
            assert(c.elections.contains(w));
            assert(election_logged(c, w));
            if w.term == term {
                lemma_one_leader(d, w, mine);
                assert(election_valid(d, w));
                // Two elections of one term and leader: the earlier record says the same.
                if won {
                    assert(election_valid(c, w));
                } else {
                    lemma_prefix_trans(c.campaigns[(term, n)], old_log, new_log);
                }
            }
        }
    }
    assert forall|g: Grant| #[trigger] d.grants.contains(g) implies d.campaigns.contains_key(
        (g.term, g.candidate),
    ) by {}
    assert forall|r: VoteRequest| #[trigger]
        d.vote_requests.contains(r) implies d.campaigns.contains_key((r.term, r.candidate))
        && seq_last_id(d.campaigns[(r.term, r.candidate)]) == r.last_log by {
        if c.vote_requests.contains(r) {
            assert(campaign_valid(c, r.term, r.candidate));
        }
    }
    assert forall|t: u64| #[trigger] d.leader_logs.contains_key(t) implies term_elected(d, t) by {
        if t == term {
            assert(d.elections.contains(mine) && mine.term == t);
        } else {
            assert(term_elected(c, t));
            let w = choose|w: Election| #[trigger] c.elections.contains(w) && w.term == t;
            assert(d.elections.contains(w));
        }
    }
    assert forall|m: AppendMsg| #[trigger] d.appends.contains(m) implies message_logged(d, m) by {
        assert(message_logged(c, m));
        if m.req.term == term {
            assert(held(c, LogSource::Leader(term)));
            if won {
                assert(term_elected(c, term));
                let w = choose|w: Election| #[trigger] c.elections.contains(w) && w.term == term;
                assert(d.elections.contains(w));
                lemma_one_leader(d, w, mine);
                assert(election_valid(c, w));
            } else {
                lemma_prefix_trans(m.log, old_log, new_log);
            }
        }
    }
    assert forall|a: LogSource, k: int| held(d, a) && 0 <= k < log_of(d, a).len() implies entry_on_record(
        d,
        #[trigger] log_of(d, a)[k],
        k,
    ) by {
        let x = log_of(d, a)[k];
        let b = lemma_source(c, d, n, a);
        if log_of(d, a) == new_log && grown && k == old_log.len() {
        } else {
            let b0 = if log_of(d, a) == new_log {
                me
            } else {
                b
            };
            assert(log_of(c, b0)[k] == x);
            assert(entry_on_record(c, log_of(c, b0)[k], k));
            if x.term == term {
                assert(k < old_log.len() && old_log[k].term == term);
                assert(matching(log_of(c, me), log_of(c, b0)));
                assert(old_log.subrange(0, k + 1)[k] == log_of(c, b0).subrange(0, k + 1)[k]);
                assert(new_log[k] == old_log[k]);
            }
        }
    }
    assert forall|a: LogSource| #[trigger] held(d, a) implies rising(log_of(d, a)) by {
        let b = lemma_source(c, d, n, a);
        if log_of(d, a) == new_log {
            assert forall|j: int, k: int| 0 <= j <= k < new_log.len() implies (
            #[trigger] new_log[j]).term <= (#[trigger] new_log[k]).term by {
                if k < old_log.len() {
                    assert(old_log[j].term <= old_log[k].term);
                } else if j < old_log.len() {
                    assert(old_log[j].term <= s.current_term);
                }
            }
        } else {
            assert(rising(log_of(c, b)));
        }
    }
    assert forall|x: NodeId| #[trigger] d.nodes.contains_key(x) implies bounded(
        d.nodes[x].log,
        d.nodes[x].current_term,
    ) && (d.nodes[x].role == Role::Candidate ==> d.campaigns.contains_key(
        (d.nodes[x].current_term, x),
    )) by {
        if x != n {
            assert(c.nodes.contains_key(x));
        } else {
            assert forall|k: int| 0 <= k < new_log.len() implies (#[trigger] new_log[k]).term
                <= term by {
                if k < old_log.len() {
                    assert(old_log[k].term <= s.current_term);
                }
            }
        }
    }
}

/// In a step of a leader, the log found at a source afterwards is the leader's new
/// log or was found at the source that the lemma returns before.
pub proof fn lemma_source(c: Cluster, d: Cluster, n: NodeId, a: LogSource) -> (b: LogSource)
    requires
        c.nodes.contains_key(n),
        d.nodes == c.nodes.insert(n, d.nodes[n]),
        d.appends == c.appends,
        d.leader_logs == c.leader_logs.insert(d.nodes[n].current_term, d.nodes[n].log),
        d.campaigns == c.campaigns || d.campaigns == c.campaigns.insert(
            (d.nodes[n].current_term, n),
            c.nodes[n].log,
        ),
        held(d, a),
    ensures
        log_of(d, a) == d.nodes[n].log || (held(c, b) && log_of(c, b) == log_of(d, a)),
{
    match a {
        LogSource::Node(x) => {
            if x != n {
                assert(c.nodes.contains_key(x));
            }
            a
        },
        LogSource::Message(m) => a,
        LogSource::Leader(t) => a,
        LogSource::Campaign(t, x) => {
            if c.campaigns.contains_key((t, x)) && c.campaigns[(t, x)] == d.campaigns[(t, x)] {
                a
            } else {
                LogSource::Node(n)
            }
        },
    }
}

/// Every event keeps the invariant.
pub proof fn lemma_after_terms(c: Cluster, event: Event)
    requires
        full_inv(c),
    ensures
        full_inv(c.after(event)),
{
    lemma_after_logs(c, event);
    let d = c.after(event);
    if c.enabled(event) {
        match event {
            Event::Timeout(n) => {
                let s = c.nodes[n];
                assert(node_valid(c, n));
                if s.may_campaign() {
                    lemma_terms_count(c, d, n, s.campaigning());
                }
            },
            Event::Restart(n) => {
                assert(node_valid(c, n));
                lemma_terms_same(c, d, n, LogSource::Node(n));
            },
            Event::DeliverVoteRequest(n, req) => {
                assert(node_valid(c, n));
                lemma_terms_same(c, d, n, LogSource::Node(n));
            },
            Event::DeliverVoteReply(m) => {
                let s = c.nodes[m.to];
                assert(node_valid(c, m.to));
                if m.reply.term <= s.current_term && s.role == Role::Candidate && m.reply.term
                    == s.current_term && m.reply.granted && s.members.contains(m.from)
                    && !s.votes.contains(m.from) {
                    lemma_terms_count(c, d, m.to, EngineState { votes: s.votes.push(m.from), ..s });
                } else {
                    lemma_terms_same(c, d, m.to, LogSource::Node(m.to));
                }
            },
            Event::Write(n, payload) => {
                let s = c.nodes[n];
                assert(node_valid(c, n));
                if s.role == Role::Leader && s.last_index() + 1 < u64::MAX {
                    let grown = EngineState { log: s.log.push(s.next_entry(payload)), ..s };
                    lemma_highest_committable(grown, grown.last_index());
                    assert(d.nodes[n].log == s.log.push(s.next_entry(payload)));
                    assert(c.nodes.insert(n, d.nodes[n]).contains_key(n));
                    assert(node_valid(d, n));
                    lemma_terms_leader_step(c, d, n, true, s.next_entry(payload), false);
                } else {
                    lemma_terms_same(c, d, n, LogSource::Node(n));
                }
            },
            Event::SendAppend(n, to) => {
                let s = c.nodes[n];
                assert(node_valid(c, n));
                assert(d.nodes =~= c.nodes.insert(n, s));
                let sent = AppendMsg {
                    to,
                    req: s.replication(to)->Entries_0,
                    log: s.log,
                    voters: s.votes,
                };
                let mine = Election { term: s.current_term, leader: n, voters: s.votes };
                assert(c.elections.contains(mine));
                assert(election_logged(c, mine));
                lemma_prefix_push(s.log, s.elected_blank());
                assert(message_logged(d, sent));
                assert forall|a: LogSource| #[trigger] held(d, a) implies from_old(c, d, a) by {
                    if a == LogSource::Message(sent) {
                        assert(held(c, LogSource::Node(n)) && log_of(c, LogSource::Node(n))
                            == log_of(d, a));
                    } else {
                        assert(held(c, a) && log_of(c, a) == log_of(d, a));
                    }
                }
                assert(bounded(c.nodes[n].log, c.nodes[n].current_term));
                lemma_terms_quiet(c, d, n);
            },
            Event::DeliverAppend(m) => {
                let s = c.nodes[m.to];
                assert(node_valid(c, m.to));
                assert(held(c, LogSource::Node(m.to)) && held(c, LogSource::Message(m)));
                assert(message_valid(c, m));
                assert(message_logged(c, m));
                assert(matching(
                    log_of(c, LogSource::Node(m.to)),
                    log_of(c, LogSource::Message(m)),
                ));
                assert(log_shape(log_of(c, LogSource::Node(m.to))));
                assert(log_shape(log_of(c, LogSource::Message(m))));
                crate::log_matching::lemma_reconciled(s, m, c);
                let theirs = Election { term: m.req.term, leader: m.req.leader, voters: m.voters };
                lemma_leader_log_bounded(c, theirs);
                assert(bounded(m.log, m.req.term)) by {
                    let full = c.leader_logs[m.req.term];
                    assert forall|k: int| 0 <= k < m.log.len() implies (#[trigger] m.log[k]).term
                        <= m.req.term by {
                        assert(m.log[k] == full.subrange(0, m.log.len() as int)[k]);
                        assert(full[k].term <= m.req.term);
                    }
                }
                if s.appended(m.req).log == s.log {
                    lemma_terms_same(c, d, m.to, LogSource::Node(m.to));
                } else {
                    lemma_terms_same(c, d, m.to, LogSource::Message(m));
                }
            },
            Event::DeliverAppendReply(m) => {
                let s = c.nodes[m.to];
                assert(node_valid(c, m.to));
                lemma_highest_committable(
                    EngineState {
                        progress: s.progress.update(
                            position(s.members, m.from),
                            s.progress_after(s.progress[position(s.members, m.from)], m.reply),
                        ),
                        ..s
                    },
                    s.last_index(),
                );
                lemma_terms_same(c, d, m.to, LogSource::Node(m.to));
            },
        }
    }
}

/// A step that changes one node, gives it a log that the cluster held before with
/// entries of the node's term at most, leaves campaigns, elections, vote requests and
/// append-entries requests alone and records no log but that of a leader that stays,
/// keeps the invariant of the records.
proof fn lemma_terms_same(c: Cluster, d: Cluster, n: NodeId, from: LogSource)
    requires
        full_inv(c),
        cluster_inv(d),
        c.nodes.contains_key(n),
        d.nodes == c.nodes.insert(n, d.nodes[n]),
        d.nodes[n].current_term >= c.nodes[n].current_term,
        d.nodes[n].role == Role::Candidate ==> c.nodes[n].role == Role::Candidate
            && d.nodes[n].current_term == c.nodes[n].current_term && d.nodes[n].log
            == c.nodes[n].log,
        d.nodes[n].role == Role::Leader ==> c.nodes[n].role == Role::Leader
            && d.nodes[n].current_term == c.nodes[n].current_term && d.nodes[n].log
            == c.nodes[n].log,
        held(c, from),
        d.nodes[n].log == log_of(c, from),
        bounded(d.nodes[n].log, d.nodes[n].current_term),
        d.campaigns == c.campaigns,
        d.elections == c.elections,
        d.vote_requests == c.vote_requests,
        d.appends == c.appends,
        d.leader_logs == c.leader_logs || (d.nodes[n].role == Role::Leader && d.leader_logs
            == c.leader_logs.insert(d.nodes[n].current_term, d.nodes[n].log)),
        forall|g: Grant| #[trigger]
            d.grants.contains(g) ==> c.grants.contains(g) || c.vote_requests.contains(
                VoteRequest {
                    term: g.term,
                    candidate: g.candidate,
                    last_log: seq_last_id(c.campaigns[(g.term, g.candidate)]),
                },
            ),
    ensures
        terms_inv(d),
{
    assert(c.nodes.insert(n, d.nodes[n]).contains_key(n));
    if d.nodes[n].role == Role::Leader {
        assert(c.leader_logs.contains_key(c.nodes[n].current_term));
    }
    assert(d.leader_logs =~= c.leader_logs);
    assert forall|a: LogSource| #[trigger] held(d, a) implies from_old(c, d, a) by {
        match a {
            LogSource::Node(x) => {
                if x == n {
                    assert(held(c, from) && log_of(c, from) == log_of(d, a));
                } else {
                    assert(c.nodes.contains_key(x));
                    assert(held(c, a) && log_of(c, a) == log_of(d, a));
                }
            },
            _ => {
                assert(held(c, a) && log_of(c, a) == log_of(d, a));
            },
        }
    }
    lemma_terms_quiet(c, d, n);
}

/// A candidate that counts its votes and wins, or does not, keeps the invariant of the
/// records. `counting` is its state before the count.
proof fn lemma_terms_count(c: Cluster, d: Cluster, n: NodeId, counting: EngineState)
    requires
        full_inv(c),
        cluster_inv(d),
        c.nodes.contains_key(n),
        node_valid(c, n),
        c.nodes[n].role != Role::Leader,
        counting.role == Role::Candidate,
        counting.log == c.nodes[n].log,
        counting.snapshot == c.nodes[n].snapshot,
        counting.members == c.nodes[n].members,
        counting.id == n,
        counting.wf(),
        (counting.current_term == c.nodes[n].current_term + 1 && c.nodes[n].may_campaign()
            && d.campaigns == c.campaigns.insert((counting.current_term, n), c.nodes[n].log)
            && d.vote_requests == c.vote_requests.insert(c.nodes[n].campaign_request().unwrap())
            && d.grants == c.grants.insert(
            Grant { voter: n, term: counting.current_term, candidate: n },
        )) || (counting.current_term == c.nodes[n].current_term && c.nodes[n].role
            == Role::Candidate && d.campaigns == c.campaigns && d.vote_requests
            == c.vote_requests && d.grants == c.grants),
        d.nodes == c.nodes.insert(n, counting.tallied()),
        d.appends == c.appends,
        d.elections == if counting.tallied().role == Role::Leader {
            c.elections.insert(
                Election {
                    term: counting.current_term,
                    leader: n,
                    voters: counting.tallied().votes,
                },
            )
        } else {
            c.elections
        },
        d.leader_logs == if counting.tallied().role == Role::Leader {
            c.leader_logs.insert(counting.current_term, counting.tallied().log)
        } else {
            c.leader_logs
        },
    ensures
        terms_inv(d),
{
    let s = c.nodes[n];
    let t = counting.tallied();
    assert(c.nodes.insert(n, t).contains_key(n));
    assert(d.nodes[n] == t);
    assert(held(c, LogSource::Node(n)));
    assert(bounded(s.log, s.current_term));
    if counting.current_term == s.current_term {
        assert(campaign_valid(c, s.current_term, n));
    } else {
        let key = (counting.current_term, n);
        if c.campaigns.contains_key(key) {
            assert(campaign_valid(c, counting.current_term, n));
        }
        assert(d.campaigns.contains_key(key) && !c.campaigns.contains_key(key));
        assert(d.campaigns != c.campaigns);
    }
    if t.role == Role::Leader {
        assert(election_inv(d));
        lemma_term_unused(c, d, n);
        assert(t.current_term == counting.current_term);
        if counting.last_index() + 1 < u64::MAX {
            let led = EngineState {
                role: Role::Leader,
                leader: Some(counting.id),
                progress: fresh_progress(counting.members, counting.last_index()),
                log: counting.log.push(counting.elected_blank()),
                ..counting
            };
            lemma_highest_committable(led, led.last_index());
            lemma_terms_leader_step(c, d, n, true, counting.elected_blank(), true);
        } else {
            lemma_terms_leader_step(c, d, n, false, counting.elected_blank(), true);
        }
    } else {
        assert(t == counting);
        assert forall|a: LogSource| #[trigger] held(d, a) implies from_old(c, d, a) by {
            match a {
                LogSource::Node(x) => {
                    assert(c.nodes.contains_key(x));
                    assert(held(c, a) && log_of(c, a) == log_of(d, a));
                },
                LogSource::Campaign(x, y) => {
                    if c.campaigns.contains_key((x, y)) && c.campaigns[(x, y)] == d.campaigns[(
                        x,
                        y,
                    )] {
                        assert(held(c, a) && log_of(c, a) == log_of(d, a));
                    } else {
                        assert(held(c, LogSource::Node(n)) && log_of(c, LogSource::Node(n))
                            == log_of(d, a));
                    }
                },
                _ => {
                    assert(held(c, a) && log_of(c, a) == log_of(d, a));
                },
            }
        }
        lemma_terms_quiet(c, d, n);
    }
}

} // verus!
