//! Log matching: in a cluster, whatever happens, two logs that hold an entry of the
//! same term at the same index hold the same entries up to there.

use vstd::prelude::*;
use crate::cluster::{AppendMsg, Cluster, Election, Event};
use crate::election::{
    election_inv, election_valid, lemma_after, lemma_one_leader, lemma_start, node_valid,
};
use crate::preservation::{lemma_agreeing_run, lemma_highest_committable};
use crate::protocol::{fresh_progress, position, EngineState, Role};
use crate::types::{EntryView, LogId, NodeId};

verus! {

/// Where a log is found in a cluster: at a node, with an append-entries request
/// under way, or on record as the log of a term's leader or as the log with which a
/// campaign began.
pub enum LogSource {
    Node(NodeId),
    Message(AppendMsg),
    Leader(u64),
    Campaign(u64, NodeId),
}

/// Whether the cluster holds the source.
pub open spec fn held(c: Cluster, src: LogSource) -> bool {
    match src {
        LogSource::Node(n) => c.nodes.contains_key(n),
        LogSource::Message(m) => c.appends.contains(m),
        LogSource::Leader(t) => c.leader_logs.contains_key(t),
        LogSource::Campaign(t, n) => c.campaigns.contains_key((t, n)),
    }
}

/// The log found at the source.
pub open spec fn log_of(c: Cluster, src: LogSource) -> Seq<EntryView> {
    match src {
        LogSource::Node(n) => c.nodes[n].log,
        LogSource::Message(m) => m.log,
        LogSource::Leader(t) => c.leader_logs[t],
        LogSource::Campaign(t, n) => c.campaigns[(t, n)],
    }
}

/// Whether a log starts at index 1 and goes on without gaps.
pub open spec fn log_shape(x: Seq<EntryView>) -> bool {
    &&& x.len() < u64::MAX
    &&& forall|k: int| 0 <= k < x.len() ==> (#[trigger] x[k]).index == k + 1
}

/// Whether two logs match: where they hold an entry of the same term at the same
/// place, they are the same up to there.
pub open spec fn matching(x: Seq<EntryView>, y: Seq<EntryView>) -> bool {
    forall|i: int|
        #![trigger x[i], y[i]]
        0 <= i < x.len() && i < y.len() && x[i].term == y[i].term ==> x.subrange(0, i + 1)
            == y.subrange(0, i + 1)
}

/// Whether an election in `term` is on record.
pub open spec fn term_elected(c: Cluster, term: u64) -> bool {
    exists|e: Election| #[trigger] c.elections.contains(e) && e.term == term
}

/// Whether an append-entries request under way is what a leader sends: its entries
/// are the sender's log from `prev` on, `prev` is an entry of that log, it goes to
/// another node, and the sender's election is on record.
pub open spec fn message_valid(c: Cluster, m: AppendMsg) -> bool {
    let p = m.req.prev.index as int;
    &&& p <= m.log.len()
    &&& m.req.entries == m.log.subrange(p, m.log.len() as int)
    &&& m.req.prev.term == if p == 0 {
        0
    } else {
        m.log[p - 1].term
    }
    &&& m.to != m.req.leader
    &&& c.elections.contains(Election { term: m.req.term, leader: m.req.leader, voters: m.voters })
}

/// What holds of the logs of a cluster whatever has happened.
pub open spec fn log_inv(c: Cluster) -> bool {
    &&& forall|n: NodeId|
        #[trigger] c.nodes.contains_key(n) ==> c.nodes[n].snapshot == (LogId { term: 0, index: 0 })
    &&& forall|m: AppendMsg| #[trigger] c.appends.contains(m) ==> message_valid(c, m)
    &&& forall|a: LogSource| #[trigger] held(c, a) ==> log_shape(log_of(c, a))
    &&& forall|a: LogSource, b: LogSource|
        #[trigger] held(c, a) && #[trigger] held(c, b) ==> matching(log_of(c, a), log_of(c, b))
    &&& forall|a: LogSource, k: int|
        held(c, a) && 0 <= k < log_of(c, a).len() ==> term_elected(
            c,
            (#[trigger] log_of(c, a)[k]).term,
        )
    &&& forall|n: NodeId, a: LogSource, k: int|
        #[trigger] c.nodes.contains_key(n) && c.nodes[n].role == Role::Leader && held(c, a) && 0
            <= k < log_of(c, a).len() && (#[trigger] log_of(c, a)[k]).term
            == c.nodes[n].current_term ==> k < c.nodes[n].log.len() && c.nodes[n].log[k].term
            == c.nodes[n].current_term
    &&& forall|n: NodeId|
        #[trigger] c.nodes.contains_key(n) && c.nodes[n].role == Role::Leader
            ==> c.leader_logs.contains_key(c.nodes[n].current_term)
            && c.leader_logs[c.nodes[n].current_term] == c.nodes[n].log
}

/// Whether the log found at `a` in `d` was found somewhere in `c`.
pub open spec fn from_old(c: Cluster, d: Cluster, a: LogSource) -> bool {
    exists|b: LogSource| #[trigger] held(c, b) && log_of(c, b) == log_of(d, a)
}

/// What holds of a cluster whatever has happened.
pub open spec fn cluster_inv(c: Cluster) -> bool {
    election_inv(c) && log_inv(c)
}

/// Every log matches itself.
pub proof fn lemma_matching_self(x: Seq<EntryView>)
    ensures
        matching(x, x),
{
}

/// Matching does not depend on the order of the two logs.
pub proof fn lemma_matching_sym(x: Seq<EntryView>, y: Seq<EntryView>)
    requires
        matching(x, y),
    ensures
        matching(y, x),
{
    assert forall|i: int|
        #![trigger y[i], x[i]]
        0 <= i < y.len() && i < x.len() && y[i].term == x[i].term implies y.subrange(0, i + 1)
            == x.subrange(0, i + 1) by {
        assert(x.subrange(0, i + 1) == y.subrange(0, i + 1));
    }
}

/// A log that grows by an entry whose term the other log does not hold at that
/// place still matches the other log.
pub proof fn lemma_matching_push(x: Seq<EntryView>, y: Seq<EntryView>, e: EntryView)
    requires
        matching(x, y),
        x.len() < y.len() ==> y[x.len() as int].term != e.term,
    ensures
        matching(x.push(e), y),
{
    let z = x.push(e);
    assert forall|i: int|
        #![trigger z[i], y[i]]
        0 <= i < z.len() && i < y.len() && z[i].term == y[i].term implies z.subrange(0, i + 1)
            == y.subrange(0, i + 1) by {
        assert(i < x.len());
        assert(x[i] == z[i]);
        assert(x.subrange(0, i + 1) == y.subrange(0, i + 1));
        assert(z.subrange(0, i + 1) =~= x.subrange(0, i + 1));
    }
}

/// A cluster in which nothing has happened satisfies the invariant.
pub proof fn lemma_start_logs(members: Seq<NodeId>)
    ensures
        cluster_inv(Cluster::start(members)),
{
    lemma_start(members);
    let c = Cluster::start(members);
    assert forall|a: LogSource| #[trigger] held(c, a) implies log_of(c, a).len() == 0 by {
        match a {
            LogSource::Node(n) => {},
            _ => {},
        }
    }
}

/// What a step does that brings no new log into the cluster: the logs of the nodes
/// and messages afterwards are logs of nodes and messages before, the new messages
/// are what a leader sends, no election is forgotten, and a leader afterwards was
/// leader of the same term before.
pub open spec fn no_new_log(c: Cluster, d: Cluster) -> bool {
    &&& forall|n: NodeId| #[trigger] d.nodes.contains_key(n) <==> c.nodes.contains_key(n)
    &&& forall|n: NodeId|
        #[trigger] d.nodes.contains_key(n) ==> d.nodes[n].snapshot == c.nodes[n].snapshot
            && (d.nodes[n].role == Role::Leader ==> c.nodes[n].role == Role::Leader
            && d.nodes[n].current_term == c.nodes[n].current_term && d.nodes[n].log
            == c.nodes[n].log)
    &&& forall|a: LogSource| #[trigger] held(d, a) ==> from_old(c, d, a)
    &&& forall|m: AppendMsg| #[trigger] d.appends.contains(m) ==> message_valid(d, m)
    &&& c.elections.subset_of(d.elections)
    &&& forall|n: NodeId|
        #[trigger] d.nodes.contains_key(n) && d.nodes[n].role == Role::Leader
            ==> d.leader_logs.contains_key(d.nodes[n].current_term)
            && d.leader_logs[d.nodes[n].current_term] == d.nodes[n].log
}

/// A step that brings no new log into the cluster keeps the invariant of the logs.
pub proof fn lemma_no_new_log(c: Cluster, d: Cluster)
    requires
        log_inv(c),
        no_new_log(c, d),
    ensures
        log_inv(d),
{
    assert forall|a: LogSource| #[trigger] held(d, a) implies log_shape(log_of(d, a)) by {
        assert(from_old(c, d, a));
        let b = choose|b: LogSource| #[trigger] held(c, b) && log_of(c, b) == log_of(d, a);
    }
    assert forall|a: LogSource, b: LogSource| #[trigger] held(d, a) && #[trigger] held(
        d,
        b,
    ) implies matching(log_of(d, a), log_of(d, b)) by {
        assert(from_old(c, d, a) && from_old(c, d, b));
        let a0 = choose|a0: LogSource| #[trigger] held(c, a0) && log_of(c, a0) == log_of(d, a);
        let b0 = choose|b0: LogSource| #[trigger] held(c, b0) && log_of(c, b0) == log_of(d, b);
        assert(matching(log_of(c, a0), log_of(c, b0)));
    }
    assert forall|a: LogSource, k: int| held(d, a) && 0 <= k < log_of(d, a).len() implies term_elected(
        d,
        (#[trigger] log_of(d, a)[k]).term,
    ) by {
        assert(from_old(c, d, a));
        let a0 = choose|a0: LogSource| #[trigger] held(c, a0) && log_of(c, a0) == log_of(d, a);
        assert(term_elected(c, log_of(c, a0)[k].term));
        let e = choose|e: Election|
            #[trigger] c.elections.contains(e) && e.term == log_of(c, a0)[k].term;
        assert(d.elections.contains(e));
    }
    assert forall|n: NodeId, a: LogSource, k: int|
        #[trigger] d.nodes.contains_key(n) && d.nodes[n].role == Role::Leader && held(d, a) && 0
            <= k < log_of(d, a).len() && (#[trigger] log_of(d, a)[k]).term
            == d.nodes[n].current_term implies k < d.nodes[n].log.len() && d.nodes[n].log[k].term
        == d.nodes[n].current_term by {
        assert(from_old(c, d, a));
        let a0 = choose|a0: LogSource| #[trigger] held(c, a0) && log_of(c, a0) == log_of(d, a);
        assert(c.nodes.contains_key(n));
        assert(log_of(c, a0)[k].term == c.nodes[n].current_term);
    }
}

/// How the logs on record change in a step in which node `n` acts: the log of a
/// term's leader stays, or is the log of `n` after the step; the log of a campaign
/// stays, or is the log of `n` before the step.
pub open spec fn records_follow(c: Cluster, d: Cluster, n: NodeId) -> bool {
    &&& forall|t: u64|
        #[trigger] d.leader_logs.contains_key(t) ==> (c.leader_logs.contains_key(t)
            && d.leader_logs[t] == c.leader_logs[t]) || d.leader_logs[t] == d.nodes[n].log
    &&& forall|k: (u64, NodeId)|
        #[trigger] d.campaigns.contains_key(k) ==> (c.campaigns.contains_key(k) && d.campaigns[k]
            == c.campaigns[k]) || d.campaigns[k] == c.nodes[n].log
}

/// Whether the step keeps the log on record for the leader of every term but `except`.
pub open spec fn leader_logs_kept(c: Cluster, d: Cluster, except: Option<u64>) -> bool {
    forall|t: u64|
        #[trigger] c.leader_logs.contains_key(t) && except != Some(t)
            ==> d.leader_logs.contains_key(t) && d.leader_logs[t] == c.leader_logs[t]
}

/// The log of a node that takes the entries of a request is its log as before or the
/// sender's log.
pub proof fn lemma_reconciled(s: EngineState, m: AppendMsg, c: Cluster)
    requires
        s.wf(),
        s.snapshot == (LogId { term: 0, index: 0 }),
        log_shape(s.log),
        log_shape(m.log),
        message_valid(c, m),
        matching(s.log, m.log),
        crate::protocol::append_well_formed(m.req),
    ensures
        s.appended(m.req).log == s.log || s.appended(m.req).log == m.log,
{
    let req = m.req;
    if s.accepts_leader(req) && s.can_append(req) {
        lemma_agreeing_run(s, req);
        let k = s.agreeing_run(req.entries, 0);
        let p = req.prev.index as int;
        let n = req.entries.len() as int;
        if k < n {
            let cut = p + k;
            let kept = s.log.subrange(0, cut);
            if cut > 0 {
                if k > 0 {
                    assert(s.agrees(req.entries[k - 1]));
                    assert(req.entries[k - 1] == m.log[cut - 1]);
                    assert(s.entry_at(cut) == s.log[cut - 1]);
                } else {
                    assert(s.term_at(p) == Some(req.prev.term));
                    assert(s.entry_at(p) == s.log[p - 1]);
                }
                assert(s.log[cut - 1].term == m.log[cut - 1].term);
                assert(s.log.subrange(0, cut) == m.log.subrange(0, cut));
            } else {
                assert(s.log.subrange(0, cut) =~= m.log.subrange(0, cut));
            }
            assert(req.entries.subrange(k, n) =~= m.log.subrange(cut, m.log.len() as int));
            assert(m.log.subrange(0, cut) + m.log.subrange(cut, m.log.len() as int) =~= m.log);
        }
    }
}

/// A step in which a leader's log stays or grows by one entry of its term keeps the
/// invariant of the logs, where no log of the cluster holds an entry of that term
/// beyond those of the leader's log.
pub proof fn lemma_leader_step(c: Cluster, d: Cluster, n: NodeId, grown: bool, e: EntryView)
    requires
        cluster_inv(c),
        election_inv(d),
        c.nodes.contains_key(n),
        d.nodes == c.nodes.insert(n, d.nodes[n]),
        d.nodes[n].snapshot == c.nodes[n].snapshot,
        d.nodes[n].role == Role::Leader,
        d.nodes[n].log == if grown {
            c.nodes[n].log.push(e)
        } else {
            c.nodes[n].log
        },
        grown ==> e.index == c.nodes[n].log.len() + 1 && e.term == d.nodes[n].current_term
            && c.nodes[n].log.len() + 1 < u64::MAX,
        d.appends == c.appends,
        c.elections.subset_of(d.elections),
        records_follow(c, d, n),
        leader_logs_kept(c, d, Some(d.nodes[n].current_term)),
        d.leader_logs.contains_key(d.nodes[n].current_term),
        d.leader_logs[d.nodes[n].current_term] == d.nodes[n].log,
        forall|a: LogSource, k: int|
            held(c, a) && 0 <= k < log_of(c, a).len() && (#[trigger] log_of(c, a)[k]).term
                == d.nodes[n].current_term ==> k < c.nodes[n].log.len() && c.nodes[n].log[k].term
                == d.nodes[n].current_term,
    ensures
        log_inv(d),
{
    let old_log = c.nodes[n].log;
    let new_log = d.nodes[n].log;
    let term = d.nodes[n].current_term;
    let me = LogSource::Node(n);
    assert(held(c, me));
    assert(log_shape(log_of(c, me)));
    assert(c.nodes.insert(n, d.nodes[n]).contains_key(n));
    assert(d.nodes.contains_key(n));
    assert(node_valid(d, n));
    let won = Election { term, leader: n, voters: d.nodes[n].votes };
    assert(d.elections.contains(won));
    // Every source of the new cluster holds the new log or a log of the old cluster.
    assert forall|a: LogSource| #[trigger] held(d, a) implies log_of(d, a) == new_log || from_old(
        c,
        d,
        a,
    ) by {
        match a {
            LogSource::Node(x) => {
                if x != n {
                    assert(held(c, a) && log_of(c, a) == log_of(d, a));
                }
            },
            LogSource::Message(m) => {
                assert(held(c, a) && log_of(c, a) == log_of(d, a));
            },
            LogSource::Leader(t) => {
                if d.leader_logs[t] != new_log {
                    assert(held(c, a) && log_of(c, a) == log_of(d, a));
                }
            },
            LogSource::Campaign(t, x) => {
                if c.campaigns.contains_key((t, x)) && d.campaigns[(t, x)] == c.campaigns[(t, x)] {
                    assert(held(c, a) && log_of(c, a) == log_of(d, a));
                } else {
                    assert(held(c, me) && log_of(c, me) == log_of(d, a));
                }
            },
        }
    }
    assert forall|m: AppendMsg| #[trigger] d.appends.contains(m) implies message_valid(d, m) by {
        assert(message_valid(c, m));
    }
    assert(log_shape(new_log));
    assert forall|a: LogSource| #[trigger] held(d, a) implies log_shape(log_of(d, a)) by {
        if log_of(d, a) != new_log {
            assert(from_old(c, d, a));
            let b = choose|b: LogSource| #[trigger] held(c, b) && log_of(c, b) == log_of(d, a);
            assert(log_shape(log_of(c, b)));
        }
    }
    assert forall|a: LogSource| #[trigger] held(c, a) implies matching(new_log, log_of(c, a)) by {
        let y = log_of(c, a);
        assert(matching(old_log, y)) by {
            assert(held(c, me));
            assert(matching(log_of(c, me), log_of(c, a)));
        }
        if grown {
            if old_log.len() < y.len() {
                let k = old_log.len() as int;
                if y[k].term == e.term {
                    assert(log_of(c, a)[k].term == term);
                }
            }
            lemma_matching_push(old_log, y, e);
        }
    }
    assert forall|a: LogSource, b: LogSource| #[trigger] held(d, a) && #[trigger] held(
        d,
        b,
    ) implies matching(log_of(d, a), log_of(d, b)) by {
        let an = log_of(d, a) == new_log;
        let bn = log_of(d, b) == new_log;
        if an && bn {
            lemma_matching_self(new_log);
        } else if an {
            assert(from_old(c, d, b));
            let b0 = choose|b0: LogSource| #[trigger] held(c, b0) && log_of(c, b0) == log_of(d, b);
            assert(matching(new_log, log_of(c, b0)));
        } else if bn {
            assert(from_old(c, d, a));
            let a0 = choose|a0: LogSource| #[trigger] held(c, a0) && log_of(c, a0) == log_of(d, a);
            assert(matching(new_log, log_of(c, a0)));
            lemma_matching_sym(new_log, log_of(c, a0));
        } else {
            assert(from_old(c, d, a) && from_old(c, d, b));
            let a0 = choose|a0: LogSource| #[trigger] held(c, a0) && log_of(c, a0) == log_of(d, a);
            let b0 = choose|b0: LogSource| #[trigger] held(c, b0) && log_of(c, b0) == log_of(d, b);
            assert(matching(log_of(c, a0), log_of(c, b0)));
        }
    }
    assert forall|a: LogSource, k: int| held(d, a) && 0 <= k < log_of(d, a).len() implies term_elected(
        d,
        (#[trigger] log_of(d, a)[k]).term,
    ) by {
        if log_of(d, a) == new_log && grown && k == old_log.len() {
            assert(d.elections.contains(won) && won.term == log_of(d, a)[k].term);
        } else {
            let a0 = if log_of(d, a) == new_log {
                me
            } else {
                assert(from_old(c, d, a));
                choose|a0: LogSource| #[trigger] held(c, a0) && log_of(c, a0) == log_of(d, a)
            };
            assert(log_of(c, a0)[k] == log_of(d, a)[k]);
            assert(term_elected(c, log_of(c, a0)[k].term));
            let w = choose|w: Election|
                #[trigger] c.elections.contains(w) && w.term == log_of(c, a0)[k].term;
            assert(d.elections.contains(w));
        }
    }
    assert forall|x: NodeId| #[trigger] d.nodes.contains_key(x) && d.nodes[x].role == Role::Leader
        && x != n implies d.nodes[x].current_term != term && c.nodes.contains_key(x) && d.nodes[x]
        == c.nodes[x] by {
        assert(node_valid(d, x));
        let other = Election { term: d.nodes[x].current_term, leader: x, voters: d.nodes[x].votes };
        assert(d.elections.contains(other));
        if other.term == term {
            lemma_one_leader(d, other, won);
        }
    }
    assert forall|x: NodeId, a: LogSource, k: int|
        #[trigger] d.nodes.contains_key(x) && d.nodes[x].role == Role::Leader && held(d, a) && 0
            <= k < log_of(d, a).len() && (#[trigger] log_of(d, a)[k]).term
            == d.nodes[x].current_term implies k < d.nodes[x].log.len() && d.nodes[x].log[k].term
        == d.nodes[x].current_term by {
        let fresh = log_of(d, a) == new_log && grown && k == old_log.len();
        if !fresh {
            let a0 = if log_of(d, a) == new_log {
                me
            } else {
                assert(from_old(c, d, a));
                choose|a0: LogSource| #[trigger] held(c, a0) && log_of(c, a0) == log_of(d, a)
            };
            assert(log_of(c, a0)[k] == log_of(d, a)[k]);
            if x == n {
                assert(new_log[k] == old_log[k]);
            } else {
                assert(c.nodes.contains_key(x));
            }
        }
    }
    assert forall|x: NodeId|
        #[trigger] d.nodes.contains_key(x) && d.nodes[x].role == Role::Leader
            implies d.leader_logs.contains_key(d.nodes[x].current_term)
        && d.leader_logs[d.nodes[x].current_term] == d.nodes[x].log by {
        if x != n {
            assert(c.leader_logs.contains_key(c.nodes[x].current_term));
        }
    }
}

/// When a candidate wins, no log of the cluster holds an entry of its term yet.
pub proof fn lemma_term_unused(c: Cluster, d: Cluster, n: NodeId)
    requires
        cluster_inv(c),
        election_inv(d),
        c.nodes.contains_key(n),
        d.nodes.contains_key(n),
        c.elections.subset_of(d.elections),
        d.nodes[n].role == Role::Leader,
        c.nodes[n].role != Role::Leader,
        c.nodes[n].current_term < d.nodes[n].current_term || (c.nodes[n].current_term
            == d.nodes[n].current_term && c.nodes[n].role == Role::Candidate),
    ensures
        forall|a: LogSource, k: int|
            held(c, a) && 0 <= k < log_of(c, a).len() ==> (#[trigger] log_of(c, a)[k]).term
                != d.nodes[n].current_term,
{
    let term = d.nodes[n].current_term;
    assert(node_valid(d, n));
    let won = Election { term, leader: n, voters: d.nodes[n].votes };
    assert(d.elections.contains(won));
    assert forall|a: LogSource, k: int| held(c, a) && 0 <= k < log_of(c, a).len() implies (
    #[trigger] log_of(c, a)[k]).term != term by {
        if log_of(c, a)[k].term == term {
            assert(term_elected(c, log_of(c, a)[k].term));
            let w = choose|w: Election| #[trigger] c.elections.contains(w) && w.term == term;
            assert(d.elections.contains(w));
            lemma_one_leader(d, w, won);
            assert(election_valid(c, w));
        }
    }
}

/// Every event keeps the invariant.
pub proof fn lemma_after_logs(c: Cluster, event: Event)
    requires
        cluster_inv(c),
    ensures
        cluster_inv(c.after(event)),
{
    lemma_after(c, event);
    let d = c.after(event);
    if c.enabled(event) {
        match event {
            Event::Timeout(n) => {
                let s = c.nodes[n];
                assert(node_valid(c, n));
                if s.may_campaign() {
                    lemma_win_or_not(c, d, n, s.campaigning());
                } else {
                    assert(d == c);
                }
            },
            Event::Restart(n) => {
                lemma_same_logs(c, d, n, LogSource::Node(n));
            },
            Event::DeliverVoteRequest(n, req) => {
                lemma_same_logs(c, d, n, LogSource::Node(n));
            },
            Event::DeliverVoteReply(m) => {
                let s = c.nodes[m.to];
                assert(node_valid(c, m.to));
                if m.reply.term <= s.current_term && s.role == Role::Candidate && m.reply.term
                    == s.current_term && m.reply.granted && s.members.contains(m.from)
                    && !s.votes.contains(m.from) {
                    lemma_win_or_not(
                        c,
                        d,
                        m.to,
                        EngineState { votes: s.votes.push(m.from), ..s },
                    );
                } else {
                    lemma_same_logs(c, d, m.to, LogSource::Node(m.to));
                }
            },
            Event::Write(n, payload) => {
                let s = c.nodes[n];
                assert(node_valid(c, n));
                if s.role == Role::Leader && s.last_index() + 1 < u64::MAX {
                    assert(held(c, LogSource::Node(n)));
                    let grown = EngineState { log: s.log.push(s.next_entry(payload)), ..s };
                    lemma_highest_committable(grown, grown.last_index());
                    lemma_leader_step(c, d, n, true, s.next_entry(payload));
                } else {
                    lemma_same_logs(c, d, n, LogSource::Node(n));
                }
            },
            Event::SendAppend(n, to) => {
                lemma_sent(c, d, n, to);
            },
            Event::DeliverAppend(m) => {
                let s = c.nodes[m.to];
                assert(node_valid(c, m.to));
                assert(held(c, LogSource::Node(m.to)) && held(c, LogSource::Message(m)));
                assert(message_valid(c, m));
                assert(matching(
                    log_of(c, LogSource::Node(m.to)),
                    log_of(c, LogSource::Message(m)),
                ));
                assert(log_shape(log_of(c, LogSource::Node(m.to))));
                assert(log_shape(log_of(c, LogSource::Message(m))));
                lemma_reconciled(s, m, c);
                if s.role == Role::Leader && m.req.term == s.current_term {
                    let mine = Election { term: s.current_term, leader: m.to, voters: s.votes };
                    let theirs = Election {
                        term: m.req.term,
                        leader: m.req.leader,
                        voters: m.voters,
                    };
                    lemma_one_leader(c, mine, theirs);
                }
                if s.appended(m.req).log == s.log {
                    lemma_same_logs(c, d, m.to, LogSource::Node(m.to));
                } else {
                    lemma_same_logs(c, d, m.to, LogSource::Message(m));
                }
            },
            Event::DeliverAppendReply(m) => {
                let s = c.nodes[m.to];
                assert(node_valid(c, m.to));
                lemma_highest_committable(
                    EngineState {
                        progress: s.progress.update(
                            position(s.members, m.from),
                            s.progress_after(s.progress[position(s.members, m.from)], m.reply),
                        ),
                        ..s
                    },
                    s.last_index(),
                );
                lemma_same_logs(c, d, m.to, LogSource::Node(m.to));
            },
        }
    }
}

/// A step that changes one node, gives it a log that the cluster held before, makes
/// it no leader unless it was one in the same term with the same log, and leaves
/// messages and elections alone, keeps the invariant of the logs.
proof fn lemma_same_logs(c: Cluster, d: Cluster, n: NodeId, from: LogSource)
    requires
        cluster_inv(c),
        c.nodes.contains_key(n),
        d.nodes == c.nodes.insert(n, d.nodes[n]),
        d.nodes[n].snapshot == c.nodes[n].snapshot,
        held(c, from),
        d.nodes[n].log == log_of(c, from),
        d.nodes[n].role == Role::Leader ==> c.nodes[n].role == Role::Leader
            && d.nodes[n].current_term == c.nodes[n].current_term && d.nodes[n].log
            == c.nodes[n].log,
        d.appends == c.appends,
        d.elections == c.elections,
        d.campaigns == c.campaigns,
        d.leader_logs == c.leader_logs || (d.nodes[n].role == Role::Leader && d.leader_logs
            == c.leader_logs.insert(d.nodes[n].current_term, d.nodes[n].log)),
    ensures
        log_inv(d),
{
    assert(c.nodes.insert(n, d.nodes[n]).contains_key(n));
    assert forall|a: LogSource| #[trigger] held(d, a) implies from_old(c, d, a) by {
        match a {
            LogSource::Node(x) => {
                if x == n {
                    assert(held(c, from) && log_of(c, from) == log_of(d, a));
                } else {
                    assert(c.nodes.contains_key(x));
                    assert(held(c, a) && log_of(c, a) == log_of(d, a));
                }
            },
            LogSource::Message(m) => {
                assert(held(c, a) && log_of(c, a) == log_of(d, a));
            },
            LogSource::Leader(t) => {
                if c.leader_logs.contains_key(t) && c.leader_logs[t] == d.leader_logs[t] {
                    assert(held(c, a) && log_of(c, a) == log_of(d, a));
                } else {
                    assert(held(c, from) && log_of(c, from) == log_of(d, a));
                }
            },
            LogSource::Campaign(t, x) => {
                assert(held(c, a) && log_of(c, a) == log_of(d, a));
            },
        }
    }
    assert forall|m: AppendMsg| #[trigger] d.appends.contains(m) implies message_valid(d, m) by {
        assert(message_valid(c, m));
    }
    assert forall|x: NodeId|
        #[trigger] d.nodes.contains_key(x) && d.nodes[x].role == Role::Leader
            implies d.leader_logs.contains_key(d.nodes[x].current_term)
        && d.leader_logs[d.nodes[x].current_term] == d.nodes[x].log by {
        assert(c.nodes.contains_key(x));
        assert(c.leader_logs.contains_key(c.nodes[x].current_term));
    }
    lemma_no_new_log(c, d);
}

/// Sending what `replication` gives keeps the invariant of the logs.
proof fn lemma_sent(c: Cluster, d: Cluster, n: NodeId, to: NodeId)
    requires
        cluster_inv(c),
        c.enabled(Event::SendAppend(n, to)),
        d == c.after(Event::SendAppend(n, to)),
    ensures
        log_inv(d),
{
    let s = c.nodes[n];
    assert(node_valid(c, n));
    assert(held(c, LogSource::Node(n)));
    assert(log_shape(log_of(c, LogSource::Node(n))));
    let sent = AppendMsg {
        to,
        req: s.replication(to)->Entries_0,
        log: s.log,
        voters: s.votes,
    };
    crate::ids::lemma_position(s.members, to);
    assert forall|a: LogSource| #[trigger] held(d, a) implies from_old(c, d, a) by {
        if a == LogSource::Message(sent) {
            assert(held(c, LogSource::Node(n)) && log_of(c, LogSource::Node(n)) == log_of(d, a));
        } else {
            assert(held(c, a) && log_of(c, a) == log_of(d, a));
        }
    }
    assert forall|m: AppendMsg| #[trigger] d.appends.contains(m) implies message_valid(d, m) by {
        if m == sent {
            let next = s.progress[position(s.members, to)].next_index;
            assert(next >= 1);
        } else {
            assert(message_valid(c, m));
        }
    }
    assert forall|x: NodeId|
        #[trigger] d.nodes.contains_key(x) && d.nodes[x].role == Role::Leader
            implies d.leader_logs.contains_key(d.nodes[x].current_term)
        && d.leader_logs[d.nodes[x].current_term] == d.nodes[x].log by {
        assert(c.nodes.contains_key(x));
    }
    lemma_no_new_log(c, d);
}

/// A candidate that counts its votes and wins, or does not, keeps the invariant of the
/// logs. `counting` is its state before the count.
proof fn lemma_win_or_not(c: Cluster, d: Cluster, n: NodeId, counting: EngineState)
    requires
        cluster_inv(c),
        election_inv(d),
        c.nodes.contains_key(n),
        c.nodes[n].wf(),
        c.nodes[n].role != Role::Leader,
        counting.role == Role::Candidate,
        counting.log == c.nodes[n].log,
        counting.snapshot == c.nodes[n].snapshot,
        counting.wf(),
        counting.current_term > c.nodes[n].current_term || (counting.current_term
            == c.nodes[n].current_term && c.nodes[n].role == Role::Candidate),
        d.nodes == c.nodes.insert(n, counting.tallied()),
        d.appends == c.appends,
        c.elections.subset_of(d.elections),
        counting.tallied().role != Role::Leader ==> d.elections == c.elections,
        d.campaigns == c.campaigns || d.campaigns == c.campaigns.insert(
            (counting.current_term, n),
            c.nodes[n].log,
        ),
        d.leader_logs == if counting.tallied().role == Role::Leader {
            c.leader_logs.insert(counting.current_term, counting.tallied().log)
        } else {
            c.leader_logs
        },
    ensures
        log_inv(d),
{
    let t = counting.tallied();
    assert(c.nodes.insert(n, t).contains_key(n));
    assert(d.nodes[n] == t);
    if t.role == Role::Leader {
        lemma_term_unused(c, d, n);
        assert(t.current_term == counting.current_term);
        if counting.last_index() + 1 < u64::MAX {
            let led = EngineState {
                role: Role::Leader,
                leader: Some(counting.id),
                progress: fresh_progress(counting.members, counting.last_index()),
                log: counting.log.push(counting.elected_blank()),
                ..counting
            };
            lemma_highest_committable(led, led.last_index());
            assert(held(c, LogSource::Node(n)));
            assert(c.nodes[n].snapshot == (LogId { term: 0, index: 0 }));
            lemma_leader_step(c, d, n, true, counting.elected_blank());
        } else {
            lemma_leader_step(c, d, n, false, counting.elected_blank());
        }
    } else {
        assert(held(c, LogSource::Node(n)));
        assert forall|a: LogSource| #[trigger] held(d, a) implies from_old(c, d, a) by {
            match a {
                LogSource::Node(x) => {
                    assert(c.nodes.contains_key(x));
                    assert(held(c, a) && log_of(c, a) == log_of(d, a));
                },
                LogSource::Message(m) => {
                    assert(held(c, a) && log_of(c, a) == log_of(d, a));
                },
                LogSource::Leader(x) => {
                    assert(held(c, a) && log_of(c, a) == log_of(d, a));
                },
                LogSource::Campaign(x, y) => {
                    if c.campaigns.contains_key((x, y)) && c.campaigns[(x, y)] == d.campaigns[(
                        x,
                        y,
                    )] {
                        assert(held(c, a) && log_of(c, a) == log_of(d, a));
                    } else {
                        assert(held(c, LogSource::Node(n)) && log_of(c, LogSource::Node(n))
                            == log_of(d, a));
                    }
                },
            }
        }
        assert forall|m: AppendMsg| #[trigger] d.appends.contains(m) implies message_valid(
            d,
            m,
        ) by {
            assert(message_valid(c, m));
        }
        assert forall|x: NodeId| #[trigger] d.nodes.contains_key(x) implies c.nodes.contains_key(
            x,
        ) by {}
        lemma_no_new_log(c, d);
    }
}

/// The invariant holds after any events.
pub proof fn lemma_after_all_logs(members: Seq<NodeId>, events: Seq<Event>)
    ensures
        cluster_inv(Cluster::start(members).after_all(events)),
    decreases events.len(),
{
    if events.len() == 0 {
        lemma_start_logs(members);
    } else {
        lemma_after_all_logs(members, events.drop_last());
        lemma_after_logs(Cluster::start(members).after_all(events.drop_last()), events.last());
    }
}

/// Log matching. Take any cluster and any sequence of events. If afterwards the logs
/// of nodes `a` and `b` both hold an entry at `index`, of the same term, then they
/// hold the same entry at every index up to `index`.
pub proof fn law_log_matching(
    members: Seq<NodeId>,
    events: Seq<Event>,
    a: NodeId,
    b: NodeId,
    index: int,
    earlier: int,
)
    requires
        1 <= earlier <= index,
    ensures
        ({
            let c = Cluster::start(members).after_all(events);
            c.has(a) && c.has(b) && c.nodes[a].has_entry(index) && c.nodes[b].has_entry(index)
                && c.nodes[a].entry_at(index).term == c.nodes[b].entry_at(index).term
                ==> c.nodes[a].has_entry(earlier) && c.nodes[b].has_entry(earlier)
                && c.nodes[a].entry_at(earlier) == c.nodes[b].entry_at(earlier)
        }),
{
    let c = Cluster::start(members).after_all(events);
    lemma_after_all_logs(members, events);
    if c.has(a) && c.has(b) && c.nodes[a].has_entry(index) && c.nodes[b].has_entry(index)
        && c.nodes[a].entry_at(index).term == c.nodes[b].entry_at(index).term {
        let x = c.nodes[a].log;
        let y = c.nodes[b].log;
        assert(held(c, LogSource::Node(a)) && held(c, LogSource::Node(b)));
        assert(matching(log_of(c, LogSource::Node(a)), log_of(c, LogSource::Node(b))));
        assert(x[index - 1].term == y[index - 1].term);
        assert(x.subrange(0, index) == y.subrange(0, index));
        assert(x.subrange(0, index)[earlier - 1] == x[earlier - 1]);
        assert(y.subrange(0, index)[earlier - 1] == y[earlier - 1]);
    }
}

} // verus!
