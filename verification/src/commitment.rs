//! What the records of a cluster say of committed entries: an entry that a strict
//! majority has taken from the leader of its term stands in the log of every leader
//! of a later term, and stays in the logs of that majority.

use vstd::prelude::*;
use crate::cluster::{Ack, AppendMsg, AppendReplyMsg, Cluster, Commit, Election, Grant};
use crate::election::{election_inv, election_valid, lemma_majorities_meet};
use crate::leadership::prefix;
use crate::protocol::{is_majority, Role};
use crate::types::{EntryView, NodeId};

verus! {

/// Whether the leader of `term` has, on record, an entry of its own term at index `n`.
pub open spec fn own(c: Cluster, term: u64, n: int) -> bool {
    &&& c.leader_logs.contains_key(term)
    &&& 1 <= n <= c.leader_logs[term].len()
    &&& c.leader_logs[term][n - 1].term == term
}

/// The first `n` entries of the log on record for the leader of `term`.
pub open spec fn beginning(c: Cluster, term: u64, n: int) -> Seq<EntryView> {
    c.leader_logs[term].subrange(0, n)
}

/// Whether the log `x` begins with the first `n` entries of the log of the leader of
/// `term`.
pub open spec fn holds(x: Seq<EntryView>, c: Cluster, term: u64, n: int) -> bool {
    x.len() >= n && x.subrange(0, n) == beginning(c, term, n)
}

/// Whether `e` is the election of a later leader whose campaign began without the
/// first `n` entries of the log of the leader of `term`.
pub open spec fn lacks(c: Cluster, e: Election, term: u64, n: int) -> bool {
    &&& c.elections.contains(e)
    &&& e.term > term
    &&& !holds(c.campaigns[(e.term, e.leader)], c, term, n)
}

/// Whether some leader of a term after `term` and up to `bound` began without the
/// first `n` entries of the log of the leader of `term`.
pub open spec fn lost_by(c: Cluster, term: u64, n: int, bound: int) -> bool {
    exists|e: Election| #[trigger] lacks(c, e, term, n) && e.term <= bound
}

/// Whether the first `upto` entries of `x` are backed by a commit on record of a term
/// up to `bound`: a leader has committed at least as far, and `x` begins as that
/// leader's log does.
pub open spec fn backed(c: Cluster, x: Seq<EntryView>, upto: int, bound: u64) -> bool {
    exists|k: Commit| #[trigger]
        c.commits.contains(k) && k.index >= upto && k.term <= bound && holds(x, c, k.term, upto)
}

/// What holds of a record that a node held a leader's entries.
pub open spec fn ack_valid(c: Cluster, a: Ack) -> bool {
    &&& a.index >= 1
    &&& c.nodes.contains_key(a.voter)
    &&& c.leader_logs.contains_key(a.term)
    &&& a.index <= c.leader_logs[a.term].len()
    &&& c.nodes[a.voter].current_term >= a.term
    &&& forall|j: int|
        1 <= j <= a.index ==> #[trigger] c.acks.contains(
            Ack { voter: a.voter, term: a.term, index: j },
        )
    &&& own(c, a.term, a.index) ==> holds(c.nodes[a.voter].log, c, a.term, a.index) || lost_by(
        c,
        a.term,
        a.index,
        c.nodes[a.voter].current_term as int,
    )
}

/// What holds of a record of a commit: a strict majority of the members holds the
/// leader's entries up to the commit index, which is an entry of the leader's term.
pub open spec fn commit_valid(c: Cluster, k: Commit) -> bool {
    &&& own(c, k.term, k.index)
    &&& k.quorum.no_duplicates()
    &&& is_majority(k.quorum.len() as int, c.members)
    &&& forall|i: int|
        0 <= i < k.quorum.len() ==> c.members.contains(#[trigger] k.quorum[i]) && c.acks.contains(
            Ack { voter: k.quorum[i], term: k.term, index: k.index },
        )
}

/// What holds of a leader's knowledge: what it has noted of a member's log is on
/// record, and so is its own log.
pub open spec fn leader_valid(c: Cluster, n: NodeId) -> bool {
    let s = c.nodes[n];
    s.role == Role::Leader ==> {
        &&& forall|k: int|
            0 <= k < s.members.len() && (#[trigger] s.progress[k]).match_index >= 1
                ==> c.acks.contains(
                Ack {
                    voter: s.members[k],
                    term: s.current_term,
                    index: s.progress[k].match_index as int,
                },
            )
        &&& forall|j: int|
            1 <= j <= s.log.len() ==> #[trigger] c.acks.contains(
                Ack { voter: n, term: s.current_term, index: j },
            )
    }
}

/// What holds of the commitments of a cluster whatever has happened.
pub open spec fn commit_inv(c: Cluster) -> bool {
    &&& forall|a: Ack| #[trigger] c.acks.contains(a) ==> ack_valid(c, a)
    &&& forall|r: AppendReplyMsg| #[trigger]
        c.append_replies.contains(r) && r.reply.success && r.reply.match_index >= 1
            ==> c.acks.contains(
            Ack { voter: r.from, term: r.reply.term, index: r.reply.match_index as int },
        )
    &&& forall|n: NodeId| #[trigger] c.nodes.contains_key(n) ==> leader_valid(c, n)
    &&& forall|g: Grant, a: Ack| #[trigger]
        c.grants.contains(g) && #[trigger] c.acks.contains(a) && a.voter == g.voter && a.term
            < g.term && own(c, a.term, a.index) ==> holds(
            c.campaigns[(g.term, g.candidate)],
            c,
            a.term,
            a.index,
        ) || lost_by(c, a.term, a.index, g.term as int)
    &&& forall|e: Election, i: int, a: Ack| #[trigger]
        c.elections.contains(e) && 0 <= i < e.voters.len() && #[trigger] c.acks.contains(a)
            && a.voter == #[trigger] e.voters[i] && a.term < e.term && own(c, a.term, a.index)
            ==> holds(c.campaigns[(e.term, e.leader)], c, a.term, a.index) || lost_by(
            c,
            a.term,
            a.index,
            e.term - 1,
        )
    &&& forall|k: Commit| #[trigger] c.commits.contains(k) ==> commit_valid(c, k)
    &&& forall|n: NodeId| #[trigger]
        c.nodes.contains_key(n) && c.nodes[n].commit_index >= 1 ==> backed(
            c,
            c.nodes[n].log,
            c.nodes[n].commit_index as int,
            c.nodes[n].current_term,
        )
    &&& forall|m: AppendMsg| #[trigger]
        c.appends.contains(m) && m.req.leader_commit >= 1 ==> backed(
            c,
            m.log,
            m.req.leader_commit as int,
            m.req.term,
        )
}

/// A beginning that a strict majority holds on record is the beginning of every later
/// leader's campaign.
pub proof fn lemma_chosen_kept(c: Cluster, k: Commit, e: Election)
    requires
        election_inv(c),
        commit_inv(c),
        commit_valid(c, k),
        c.elections.contains(e),
        e.term > k.term,
    ensures
        holds(c.campaigns[(e.term, e.leader)], c, k.term, k.index),
    decreases e.term,
{
    if !holds(c.campaigns[(e.term, e.leader)], c, k.term, k.index) {
        assert(election_valid(c, e));
        let u = lemma_majorities_meet(c.members, k.quorum, e.voters);
        let i = choose|i: int| 0 <= i < e.voters.len() && e.voters[i] == u;
        let j = choose|j: int| 0 <= j < k.quorum.len() && k.quorum[j] == u;
        let a = Ack { voter: k.quorum[j], term: k.term, index: k.index };
        assert(c.acks.contains(a));
        assert(a.voter == e.voters[i]);
        assert(lost_by(c, k.term, k.index, e.term - 1));
        let earlier = choose|w: Election| #[trigger] lacks(c, w, k.term, k.index) && w.term
            <= e.term - 1;
        lemma_chosen_kept(c, k, earlier);
    }
}

/// The members on whose word a commit is on record hold the committed entries.
pub proof fn lemma_quorum_holds(c: Cluster, k: Commit, i: int)
    requires
        election_inv(c),
        commit_inv(c),
        c.commits.contains(k),
        0 <= i < k.quorum.len(),
    ensures
        c.nodes.contains_key(k.quorum[i]),
        holds(c.nodes[k.quorum[i]].log, c, k.term, k.index),
{
    assert(commit_valid(c, k));
    let a = Ack { voter: k.quorum[i], term: k.term, index: k.index };
    assert(c.acks.contains(a));
    assert(ack_valid(c, a));
    if !holds(c.nodes[a.voter].log, c, k.term, k.index) {
        let e = choose|e: Election| #[trigger] lacks(c, e, k.term, k.index) && e.term
            <= c.nodes[a.voter].current_term;
        lemma_chosen_kept(c, k, e);
    }
}

/// A log that begins with a beginning begins with each shorter one.
pub proof fn lemma_holds_shorter(x: Seq<EntryView>, c: Cluster, term: u64, n: int, shorter: int)
    requires
        holds(x, c, term, n),
        0 <= shorter <= n <= c.leader_logs[term].len(),
    ensures
        holds(x, c, term, shorter),
{
    assert(x.subrange(0, shorter) =~= beginning(c, term, shorter)) by {
        assert forall|i: int| 0 <= i < shorter implies x[i] == c.leader_logs[term][i] by {
            assert(x.subrange(0, n)[i] == beginning(c, term, n)[i]);
        }
    }
}

/// A log that begins with a log that begins with a beginning begins with it.
pub proof fn lemma_holds_longer(x: Seq<EntryView>, y: Seq<EntryView>, c: Cluster, term: u64, n: int)
    requires
        holds(x, c, term, n),
        prefix(x, y),
        0 <= n,
    ensures
        holds(y, c, term, n),
{
    assert(y.subrange(0, n) =~= x.subrange(0, n)) by {
        assert forall|i: int| 0 <= i < n implies y[i] == x[i] by {
            assert(x[i] == y.subrange(0, x.len() as int)[i]);
        }
    }
}

} // verus!
