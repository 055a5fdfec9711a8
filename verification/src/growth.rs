//! The records of a cluster only grow: what is on record after some events is still
//! on record after more, and what holds of it then holds later.

use vstd::prelude::*;
use crate::cluster::{Ack, Cluster, Commit, Election, Event};
use crate::commitment::{
    ack_valid, backed, beginning, commit_valid, holds, lacks, lost_by, own,
};
use crate::election::{election_valid, lemma_one_leader, node_valid};
use crate::leadership::{
    election_logged, full_inv, lemma_after_terms, lemma_prefix_push, lemma_prefix_trans, prefix,
    terms_inv,
};
use crate::log_matching::term_elected;
use crate::preservation::lemma_highest_committable;
use crate::protocol::{EngineState, Role};
use crate::types::{EntryView, NodeId};

verus! {

/// Whether `d` has on record what `c` has: the same campaigns, elections, votes,
/// acknowledgements and commits and maybe more, each leader's log as it was or
/// longer, and the same nodes in terms that are not lower.
pub open spec fn records_grow(c: Cluster, d: Cluster) -> bool {
    &&& d.members == c.members
    &&& forall|t: u64| #[trigger]
        c.leader_logs.contains_key(t) ==> d.leader_logs.contains_key(t) && prefix(
            c.leader_logs[t],
            d.leader_logs[t],
        )
    &&& forall|k: (u64, NodeId)| #[trigger]
        c.campaigns.contains_key(k) ==> d.campaigns.contains_key(k) && d.campaigns[k]
            == c.campaigns[k]
    &&& c.elections.subset_of(d.elections)
    &&& c.acks.subset_of(d.acks)
    &&& c.commits.subset_of(d.commits)
    &&& c.grants.subset_of(d.grants)
    &&& forall|n: NodeId| #[trigger] c.nodes.contains_key(n) <==> d.nodes.contains_key(n)
    &&& forall|n: NodeId| #[trigger]
        c.nodes.contains_key(n) ==> d.nodes[n].current_term >= c.nodes[n].current_term
}

/// Records have grown into what they are.
pub proof fn lemma_grow_refl(c: Cluster)
    ensures
        records_grow(c, c),
{
    assert forall|t: u64| #[trigger] c.leader_logs.contains_key(t) implies prefix(
        c.leader_logs[t],
        c.leader_logs[t],
    ) by {
        assert(c.leader_logs[t] =~= c.leader_logs[t].subrange(0, c.leader_logs[t].len() as int));
    }
}

/// Growing is transitive.
pub proof fn lemma_grow_trans(a: Cluster, b: Cluster, c: Cluster)
    requires
        records_grow(a, b),
        records_grow(b, c),
    ensures
        records_grow(a, c),
{
    assert forall|t: u64| #[trigger] a.leader_logs.contains_key(t) implies c.leader_logs.contains_key(
        t,
    ) && prefix(a.leader_logs[t], c.leader_logs[t]) by {
        assert(b.leader_logs.contains_key(t));
        lemma_prefix_trans(a.leader_logs[t], b.leader_logs[t], c.leader_logs[t]);
    }
    assert forall|n: NodeId| #[trigger] a.nodes.contains_key(n) implies c.nodes[n].current_term
        >= a.nodes[n].current_term by {
        assert(b.nodes.contains_key(n));
    }
    assert forall|n: NodeId| #[trigger] a.nodes.contains_key(n) <==> c.nodes.contains_key(n) by {
        assert(a.nodes.contains_key(n) <==> b.nodes.contains_key(n));
    }
}

/// The beginning of a leader's log on record stays what it is.
pub proof fn lemma_grow_beginning(c: Cluster, d: Cluster, term: u64, n: int)
    requires
        records_grow(c, d),
        c.leader_logs.contains_key(term),
        0 <= n <= c.leader_logs[term].len(),
    ensures
        beginning(d, term, n) == beginning(c, term, n),
        own(d, term, n) == own(c, term, n),
        forall|x: Seq<EntryView>| holds(x, d, term, n) == holds(x, c, term, n),
{
    let old_log = c.leader_logs[term];
    let new_log = d.leader_logs[term];
    assert(prefix(old_log, new_log));
    assert(beginning(d, term, n) =~= beginning(c, term, n)) by {
        assert forall|i: int| 0 <= i < n implies new_log[i] == old_log[i] by {
            assert(old_log[i] == new_log.subrange(0, old_log.len() as int)[i]);
        }
    }
    if n >= 1 {
        assert(old_log[n - 1] == new_log.subrange(0, old_log.len() as int)[n - 1]);
    }
}

/// A leader that began without a beginning still counts as such later.
pub proof fn lemma_grow_lost(c: Cluster, d: Cluster, term: u64, n: int, bound: int, later: int)
    requires
        records_grow(c, d),
        terms_inv(c),
        c.leader_logs.contains_key(term),
        0 <= n <= c.leader_logs[term].len(),
        lost_by(c, term, n, bound),
        bound <= later,
    ensures
        lost_by(d, term, n, later),
{
    let e = choose|e: Election| #[trigger] lacks(c, e, term, n) && e.term <= bound;
    assert(election_logged(c, e));
    lemma_grow_beginning(c, d, term, n);
    assert(d.elections.contains(e));
    assert(lacks(d, e, term, n));
}

/// A commit on record stays valid.
pub proof fn lemma_grow_commit(c: Cluster, d: Cluster, k: Commit)
    requires
        records_grow(c, d),
        commit_valid(c, k),
    ensures
        commit_valid(d, k),
{
    lemma_grow_beginning(c, d, k.term, k.index);
    assert forall|i: int| 0 <= i < k.quorum.len() implies d.members.contains(
        #[trigger] k.quorum[i],
    ) && d.acks.contains(Ack { voter: k.quorum[i], term: k.term, index: k.index }) by {
        assert(c.acks.contains(Ack { voter: k.quorum[i], term: k.term, index: k.index }));
    }
}

/// What was backed by a commit stays backed, for a log that begins as before and a
/// bound that is not lower.
pub proof fn lemma_grow_backed(
    c: Cluster,
    d: Cluster,
    x: Seq<EntryView>,
    y: Seq<EntryView>,
    upto: int,
    bound: u64,
    later: u64,
)
    requires
        records_grow(c, d),
        forall|k: Commit| #[trigger] c.commits.contains(k) ==> commit_valid(c, k),
        backed(c, x, upto, bound),
        0 <= upto <= y.len(),
        upto <= x.len() ==> y.subrange(0, upto) == x.subrange(0, upto),
        bound <= later,
    ensures
        backed(d, y, upto, later),
{
    let k = choose|k: Commit| #[trigger]
        c.commits.contains(k) && k.index >= upto && k.term <= bound && holds(x, c, k.term, upto);
    assert(commit_valid(c, k));
    lemma_grow_beginning(c, d, k.term, upto);
    assert(d.commits.contains(k));
    assert(holds(y, d, k.term, upto));
}

/// A record that a node held a leader's entries stays valid where the node's log
/// begins as before.
pub proof fn lemma_grow_ack(c: Cluster, d: Cluster, a: Ack)
    requires
        records_grow(c, d),
        terms_inv(c),
        c.acks.contains(a),
        ack_valid(c, a),
        prefix(c.nodes[a.voter].log, d.nodes[a.voter].log),
    ensures
        ack_valid(d, a),
{
    lemma_grow_beginning(c, d, a.term, a.index);
    assert forall|j: int| 1 <= j <= a.index implies #[trigger] d.acks.contains(
        Ack { voter: a.voter, term: a.term, index: j },
    ) by {
        assert(c.acks.contains(Ack { voter: a.voter, term: a.term, index: j }));
    }
    if own(d, a.term, a.index) {
        let x = c.nodes[a.voter].log;
        let y = d.nodes[a.voter].log;
        if holds(x, c, a.term, a.index) {
            crate::commitment::lemma_holds_longer(x, y, c, a.term, a.index);
        } else {
            lemma_grow_lost(
                c,
                d,
                a.term,
                a.index,
                c.nodes[a.voter].current_term as int,
                d.nodes[a.voter].current_term as int,
            );
        }
    }
}

/// Every event lets the records grow.
pub proof fn lemma_after_grows(c: Cluster, event: Event)
    requires
        full_inv(c),
    ensures
        records_grow(c, c.after(event)),
{
    let d = c.after(event);
    lemma_after_terms(c, event);
    assert forall|t: u64| #[trigger] c.leader_logs.contains_key(t) implies prefix(
        c.leader_logs[t],
        c.leader_logs[t],
    ) by {
        assert(c.leader_logs[t] =~= c.leader_logs[t].subrange(0, c.leader_logs[t].len() as int));
    }
    if c.enabled(event) {
        match event {
            Event::Timeout(n) => {
                let s = c.nodes[n];
                assert(node_valid(c, n));
                if s.may_campaign() {
                    let key = ((s.current_term + 1) as u64, n);
                    if c.campaigns.contains_key(key) {
                        assert(crate::leadership::campaign_valid(c, key.0, n));
                    }
                    lemma_elected_log(s.campaigning());
                    lemma_leader_grows(c, d, n);
                }
            },
            Event::Restart(n) => {
                lemma_leader_grows(c, d, n);
            },
            Event::DeliverVoteRequest(n, req) => {
                lemma_prefix_push(c.nodes[n].log, c.nodes[n].elected_blank());
                lemma_leader_grows(c, d, n);
            },
            Event::DeliverVoteReply(m) => {
                let s = c.nodes[m.to];
                lemma_prefix_push(s.log, s.elected_blank());
                lemma_elected_log(EngineState { votes: s.votes.push(m.from), ..s });
                lemma_leader_grows(c, d, m.to);
            },
            Event::Write(n, payload) => {
                let s = c.nodes[n];
                lemma_prefix_push(s.log, s.next_entry(payload));
                if s.role == Role::Leader && s.last_index() + 1 < u64::MAX {
                    let grown = EngineState { log: s.log.push(s.next_entry(payload)), ..s };
                    lemma_highest_committable(grown, grown.last_index());
                }
                lemma_leader_grows(c, d, n);
            },
            Event::SendAppend(n, to) => {
                assert(d.nodes =~= c.nodes);
            },
            Event::DeliverAppend(m) => {
                let s = c.nodes[m.to];
                lemma_prefix_push(s.log, s.elected_blank());
                lemma_leader_grows(c, d, m.to);
            },
            Event::DeliverAppendReply(m) => {
                let s = c.nodes[m.to];
                lemma_prefix_push(s.log, s.elected_blank());
                lemma_leader_grows(c, d, m.to);
            },
        }
    }
}

/// The log of a candidate that counts its votes stays, or grows by the blank entry of
/// the new leader.
pub proof fn lemma_elected_log(counting: EngineState)
    ensures
        counting.tallied().log == counting.log || counting.tallied().log == counting.log.push(
            counting.elected_blank(),
        ),
        prefix(counting.log, counting.tallied().log),
        counting.tallied().current_term == counting.current_term,
{
    lemma_prefix_push(counting.log, counting.elected_blank());
}

/// A step of node `n` that keeps the other nodes and changes the log on record of no
/// leader but `n` lets the records grow.
proof fn lemma_leader_grows(c: Cluster, d: Cluster, n: NodeId)
    requires
        full_inv(c),
        full_inv(d),
        c.nodes.contains_key(n),
        d.members == c.members,
        d.nodes == c.nodes.insert(n, d.nodes[n]),
        d.nodes[n].current_term >= c.nodes[n].current_term,
        d.leader_logs == c.leader_logs || (d.nodes[n].role == Role::Leader && d.leader_logs
            == c.leader_logs.insert(d.nodes[n].current_term, d.nodes[n].log)),
        prefix(c.nodes[n].log, d.nodes[n].log) || d.nodes[n].role != Role::Leader,
        d.nodes[n].role == Role::Leader ==> c.nodes[n].role == Role::Leader
            || c.nodes[n].current_term < d.nodes[n].current_term || c.nodes[n].role
            == Role::Candidate,
        c.elections.subset_of(d.elections),
        c.acks.subset_of(d.acks),
        c.commits.subset_of(d.commits),
        c.grants.subset_of(d.grants),
        forall|k: (u64, NodeId)| #[trigger]
            c.campaigns.contains_key(k) ==> d.campaigns.contains_key(k) && d.campaigns[k]
                == c.campaigns[k],
    ensures
        records_grow(c, d),
{
    assert(c.nodes.insert(n, d.nodes[n]).contains_key(n));
    assert forall|t: u64| #[trigger] c.leader_logs.contains_key(t) implies d.leader_logs.contains_key(
        t,
    ) && prefix(c.leader_logs[t], d.leader_logs[t]) by {
        assert(c.leader_logs[t] =~= c.leader_logs[t].subrange(0, c.leader_logs[t].len() as int));
        if d.leader_logs != c.leader_logs && t == d.nodes[n].current_term {
            // The leader of this term is `n`, before and after.
            assert(term_elected(c, t));
            let w = choose|w: Election| #[trigger] c.elections.contains(w) && w.term == t;
            assert(node_valid(d, n));
            let mine = Election { term: t, leader: n, voters: d.nodes[n].votes };
            assert(d.elections.contains(w) && d.elections.contains(mine));
            lemma_one_leader(d, w, mine);
            assert(election_valid(c, w));
            lemma_stays_leader(c, d, n, w);
        }
    }
    assert forall|x: NodeId| #[trigger] c.nodes.contains_key(x) implies d.nodes[x].current_term
        >= c.nodes[x].current_term by {}
}

/// A node that is leader of a term after a step, and was elected in that term
/// before the step, was leader before the step too, with a log that has only grown.
proof fn lemma_stays_leader(c: Cluster, d: Cluster, n: NodeId, w: Election)
    requires
        full_inv(c),
        full_inv(d),
        c.nodes.contains_key(n),
        d.nodes == c.nodes.insert(n, d.nodes[n]),
        d.nodes[n].role == Role::Leader,
        c.elections.contains(w),
        w.leader == n,
        w.term == d.nodes[n].current_term,
        d.nodes[n].current_term >= c.nodes[n].current_term,
        prefix(c.nodes[n].log, d.nodes[n].log) || d.nodes[n].role != Role::Leader,
        d.nodes[n].role == Role::Leader ==> c.nodes[n].role == Role::Leader
            || c.nodes[n].current_term < d.nodes[n].current_term || c.nodes[n].role
            == Role::Candidate,
        d.leader_logs == c.leader_logs.insert(d.nodes[n].current_term, d.nodes[n].log),
        c.elections.subset_of(d.elections),
    ensures
        prefix(c.leader_logs[w.term], d.leader_logs[w.term]),
{
    let t = w.term;
    assert(election_valid(c, w));
    assert(c.nodes[n].current_term == t);
    assert(election_logged(c, w));
    assert(election_logged(d, w));
    // Both logs on record begin with the campaign's log and go on with entries of the
    // term, and the node's log after the step holds every entry of the term.
    let old_log = c.leader_logs[t];
    let new_log = d.leader_logs[t];
    let begun = c.campaigns[(t, n)];
    assert(crate::log_matching::held(c, crate::log_matching::LogSource::Leader(t)));
    assert(crate::log_matching::held(d, crate::log_matching::LogSource::Leader(t)));
    assert(new_log == d.nodes[n].log);
    assert(c.nodes[n].role == Role::Leader);
    assert(old_log == c.nodes[n].log);
}

} // verus!
