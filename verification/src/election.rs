//! Election safety: in a cluster, whatever happens, no term has two leaders.

use vstd::prelude::*;
use vstd::seq_lib::seq_to_set_is_finite;
use vstd::set_lib::{lemma_len_subset, lemma_set_disjoint_lens};
use crate::cluster::{Cluster, Election, Event, Grant, VoteReplyMsg};
use crate::ids::lemma_distinct;
use crate::preservation::{
    lemma_append_counted_keeps, lemma_appended, lemma_timed_out_wf, lemma_vote_counted_wf,
    lemma_voted_wf, lemma_written_wf, lemma_advanced_wf,
};
use crate::protocol::{is_majority, EngineState, Role};
use crate::types::NodeId;

verus! {

/// Two strict majorities of the same members share a member.
pub proof fn lemma_majorities_meet(members: Seq<NodeId>, a: Seq<NodeId>, b: Seq<NodeId>) -> (x:
    NodeId)
    requires
        members.no_duplicates(),
        a.no_duplicates(),
        b.no_duplicates(),
        forall|i: int| 0 <= i < a.len() ==> members.contains(#[trigger] a[i]),
        forall|i: int| 0 <= i < b.len() ==> members.contains(#[trigger] b[i]),
        is_majority(a.len() as int, members),
        is_majority(b.len() as int, members),
    ensures
        a.contains(x),
        b.contains(x),
{
    let sa = a.to_set();
    let sb = b.to_set();
    let sm = members.to_set();
    seq_to_set_is_finite(a);
    seq_to_set_is_finite(b);
    seq_to_set_is_finite(members);
    a.unique_seq_to_set();
    b.unique_seq_to_set();
    members.unique_seq_to_set();
    if sa.disjoint(sb) {
        lemma_set_disjoint_lens(sa, sb);
        assert((sa + sb).subset_of(sm)) by {
            assert forall|y: NodeId| (sa + sb).contains(y) implies sm.contains(y) by {
                if sa.contains(y) {
                    let i = choose|i: int| 0 <= i < a.len() && a[i] == y;
                    assert(members.contains(a[i]));
                } else {
                    let i = choose|i: int| 0 <= i < b.len() && b[i] == y;
                    assert(members.contains(b[i]));
                }
            }
        }
        lemma_len_subset(sa + sb, sm);
        assert(false);
    }
    let x = choose|x: NodeId| sa.contains(x) && sb.contains(x);
    x
}

/// Whether the record of an election is borne out by the record of votes: the voters
/// are a strict majority of the members, and each granted its vote to the leader in
/// the election's term.
pub open spec fn election_valid(c: Cluster, e: Election) -> bool {
    &&& e.voters.no_duplicates()
    &&& is_majority(e.voters.len() as int, c.members)
    &&& forall|i: int|
        0 <= i < e.voters.len() ==> c.members.contains(#[trigger] e.voters[i]) && c.grants.contains(
            Grant { voter: e.voters[i], term: e.term, candidate: e.leader },
        )
    &&& c.nodes.contains_key(e.leader)
    &&& c.nodes[e.leader].current_term >= e.term
    &&& c.nodes[e.leader].current_term == e.term ==> c.nodes[e.leader].role != Role::Candidate
}

/// Whether a recorded vote agrees with the voter's state: the voter's term is not
/// behind the vote's, and in the vote's term the voter remembers whom it voted for.
pub open spec fn grant_valid(c: Cluster, g: Grant) -> bool {
    &&& c.nodes.contains_key(g.voter)
    &&& c.nodes[g.voter].current_term >= g.term
    &&& c.nodes[g.voter].current_term == g.term ==> c.nodes[g.voter].voted_for == Some(
        g.candidate,
    )
}

/// Whether node `n` is what the cluster takes it for, and the votes it has counted
/// and the election it has won are on record.
pub open spec fn node_valid(c: Cluster, n: NodeId) -> bool {
    let s = c.nodes[n];
    &&& s.wf()
    &&& s.id == n
    &&& s.members == c.members
    &&& s.votes.no_duplicates()
    &&& forall|i: int|
        0 <= i < s.votes.len() ==> c.members.contains(#[trigger] s.votes[i]) && c.grants.contains(
            Grant { voter: s.votes[i], term: s.current_term, candidate: n },
        )
    &&& s.role == Role::Leader ==> c.elections.contains(
        Election { term: s.current_term, leader: n, voters: s.votes },
    )
}

/// What holds of a cluster whatever has happened, as far as elections go.
pub open spec fn election_inv(c: Cluster) -> bool {
    &&& c.members.no_duplicates()
    &&& forall|n: NodeId| #[trigger] c.members.contains(n) ==> c.nodes.contains_key(n)
    &&& forall|n: NodeId|
        #[trigger] c.nodes.contains_key(n) ==> c.members.contains(n) && node_valid(c, n)
    &&& forall|g: Grant| #[trigger] c.grants.contains(g) ==> grant_valid(c, g)
    &&& forall|g1: Grant, g2: Grant|
        #[trigger] c.grants.contains(g1) && #[trigger] c.grants.contains(g2) && g1.voter
            == g2.voter && g1.term == g2.term ==> g1.candidate == g2.candidate
    &&& forall|m: VoteReplyMsg|
        #[trigger] c.vote_replies.contains(m) && m.reply.granted ==> c.grants.contains(
            Grant { voter: m.from, term: m.reply.term, candidate: m.to },
        )
    &&& forall|e: Election| #[trigger] c.elections.contains(e) ==> election_valid(c, e)
}

/// A cluster in which nothing has happened satisfies the invariant.
pub proof fn lemma_start(members: Seq<NodeId>)
    ensures
        election_inv(Cluster::start(members)),
{
    lemma_distinct(members);
    let c = Cluster::start(members);
    assert forall|n: NodeId| #[trigger] c.nodes.contains_key(n) implies node_valid(c, n) by {
        assert(c.nodes[n] == EngineState::initial(n, members));
    }
}

/// Every event keeps the invariant, and forgets no election.
pub proof fn lemma_after(c: Cluster, event: Event)
    requires
        election_inv(c),
    ensures
        election_inv(c.after(event)),
        c.elections.subset_of(c.after(event).elections),
        c.after(event).members == c.members,
        forall|n: NodeId| c.nodes.contains_key(n) <==> c.after(event).nodes.contains_key(n),
{
    if c.enabled(event) {
        match event {
            Event::Timeout(n) => lemma_after_timeout(c, n),
            Event::Restart(n) => lemma_after_restart(c, n),
            Event::DeliverVoteRequest(n, req) => lemma_after_vote_request(c, event),
            Event::DeliverVoteReply(m) => lemma_after_vote_reply(c, event),
            Event::Write(n, payload) => lemma_after_quiet(c, event),
            Event::SendAppend(n, to) => lemma_after_quiet(c, event),
            Event::DeliverAppend(m) => lemma_after_append(c, event),
            Event::DeliverAppendReply(m) => lemma_after_quiet(c, event),
        }
    }
}

/// What makes a change of one node's state harmless to the invariant: the node keeps
/// its identity and members; its term does not fall; in the same term it keeps its
/// vote, unless it had not voted, and does not become a candidate; the votes it has
/// counted are kept or dropped; and it becomes no leader.
pub open spec fn quiet_change(s: EngineState, t: EngineState) -> bool {
    &&& t.wf()
    &&& t.id == s.id
    &&& t.members == s.members
    &&& t.current_term >= s.current_term
    &&& t.current_term == s.current_term ==> (t.voted_for == s.voted_for || s.voted_for.is_none())
        && (t.role == Role::Candidate ==> s.role == Role::Candidate)
    &&& t.votes == s.votes && t.current_term == s.current_term || t.votes.len() == 0
    &&& t.role == Role::Leader ==> s.role == Role::Leader && t.votes == s.votes && t.current_term
        == s.current_term
}

/// A quiet change of one node, with any messages added that grant no vote, keeps
/// the invariant.
pub proof fn lemma_quiet(c: Cluster, d: Cluster, n: NodeId)
    requires
        election_inv(c),
        c.nodes.contains_key(n),
        d.members == c.members,
        d.nodes == c.nodes.insert(n, d.nodes[n]),
        quiet_change(c.nodes[n], d.nodes[n]),
        d.grants == c.grants,
        d.elections == c.elections,
        forall|m: VoteReplyMsg|
            #[trigger] d.vote_replies.contains(m) && m.reply.granted ==> c.vote_replies.contains(
                m,
            ) || d.grants.contains(Grant { voter: m.from, term: m.reply.term, candidate: m.to }),
    ensures
        election_inv(d),
{
    assert forall|x: NodeId| #[trigger] d.nodes.contains_key(x) implies node_valid(d, x) by {
        assert(c.nodes.contains_key(x));
        assert(node_valid(c, x));
    }
    assert forall|g: Grant| #[trigger] d.grants.contains(g) implies grant_valid(d, g) by {
        assert(grant_valid(c, g));
    }
    assert forall|e: Election| #[trigger] d.elections.contains(e) implies election_valid(d, e) by {
        assert(election_valid(c, e));
    }
}

/// A write, a request sent and an answer to append-entries keep the invariant.
proof fn lemma_after_quiet(c: Cluster, event: Event)
    requires
        election_inv(c),
        c.enabled(event),
        event is Write || event is SendAppend || event is DeliverAppendReply,
    ensures
        election_inv(c.after(event)),
        c.elections.subset_of(c.after(event).elections),
        c.after(event).members == c.members,
        forall|n: NodeId| c.nodes.contains_key(n) <==> c.after(event).nodes.contains_key(n),
{
    let d = c.after(event);
    match event {
        Event::Write(n, payload) => {
            assert(node_valid(c, n));
            lemma_written_wf(c.nodes[n], payload);
            lemma_quiet(c, d, n);
        },
        Event::DeliverAppendReply(m) => {
            assert(node_valid(c, m.to));
            lemma_append_counted_keeps(c.nodes[m.to], m.from, m.reply);
            let s = c.nodes[m.to];
            if m.reply.term <= s.current_term && s.heeds(m.from, m.reply) {
                let k = crate::protocol::position(s.members, m.from);
                crate::ids::lemma_position(s.members, m.from);
                let noted = EngineState {
                    progress: s.progress.update(k, s.progress_after(s.progress[k], m.reply)),
                    ..s
                };
                assert(noted.wf());
                lemma_advanced_wf(noted);
            }
            lemma_quiet(c, d, m.to);
        },
        Event::SendAppend(n, to) => {
            assert(d.nodes =~= c.nodes);
            assert forall|x: NodeId| #[trigger] d.nodes.contains_key(x) implies node_valid(d, x) by {
                assert(node_valid(c, x));
            }
            assert forall|g: Grant| #[trigger] d.grants.contains(g) implies grant_valid(d, g) by {
                assert(grant_valid(c, g));
            }
            assert forall|e: Election| #[trigger] d.elections.contains(e) implies election_valid(
                d,
                e,
            ) by {
                assert(election_valid(c, e));
            }
        },
        _ => {},
    }
}

/// A restart keeps the invariant.
proof fn lemma_after_restart(c: Cluster, n: NodeId)
    requires
        election_inv(c),
        c.nodes.contains_key(n),
    ensures
        election_inv(c.after(Event::Restart(n))),
        c.elections.subset_of(c.after(Event::Restart(n)).elections),
        c.after(Event::Restart(n)).members == c.members,
        forall|x: NodeId| c.nodes.contains_key(x) <==> c.after(Event::Restart(n)).nodes.contains_key(x),
{
    assert(node_valid(c, n));
    lemma_quiet(c, c.after(Event::Restart(n)), n);
}

/// An append-entries request keeps the invariant.
proof fn lemma_after_append(c: Cluster, event: Event)
    requires
        election_inv(c),
        c.enabled(event),
        event is DeliverAppend,
    ensures
        election_inv(c.after(event)),
        c.elections.subset_of(c.after(event).elections),
        c.after(event).members == c.members,
        forall|n: NodeId| c.nodes.contains_key(n) <==> c.after(event).nodes.contains_key(n),
{
    let m = event->DeliverAppend_0;
    assert(node_valid(c, m.to));
    lemma_appended(c.nodes[m.to], m.req);
    lemma_quiet(c, c.after(event), m.to);
}

/// A vote request keeps the invariant: a node grants one vote in a term.
proof fn lemma_after_vote_request(c: Cluster, event: Event)
    requires
        election_inv(c),
        c.enabled(event),
        event is DeliverVoteRequest,
    ensures
        election_inv(c.after(event)),
        c.elections.subset_of(c.after(event).elections),
        c.after(event).members == c.members,
        forall|n: NodeId| c.nodes.contains_key(n) <==> c.after(event).nodes.contains_key(n),
{
    let n = event->DeliverVoteRequest_0;
    let req = event->DeliverVoteRequest_1;
    let s = c.nodes[n];
    let d = c.after(event);
    assert(node_valid(c, n));
    lemma_voted_wf(s, req);
    let granted = Grant { voter: n, term: req.term, candidate: req.candidate };
    assert forall|x: NodeId| #[trigger] d.nodes.contains_key(x) implies node_valid(d, x) by {
        assert(c.nodes.contains_key(x));
        assert(node_valid(c, x));
    }
    assert forall|g: Grant| #[trigger] d.grants.contains(g) implies grant_valid(d, g) by {
        if c.grants.contains(g) {
            assert(grant_valid(c, g));
        }
    }
    assert forall|g1: Grant, g2: Grant|
        #[trigger] d.grants.contains(g1) && #[trigger] d.grants.contains(g2) && g1.voter
            == g2.voter && g1.term == g2.term implies g1.candidate == g2.candidate by {
        if c.grants.contains(g1) {
            assert(grant_valid(c, g1));
        }
        if c.grants.contains(g2) {
            assert(grant_valid(c, g2));
        }
    }
    assert forall|e: Election| #[trigger] d.elections.contains(e) implies election_valid(d, e) by {
        assert(election_valid(c, e));
    }
}

/// An answer to a vote request keeps the invariant: a node that wins is borne out by
/// the record of votes.
proof fn lemma_after_vote_reply(c: Cluster, event: Event)
    requires
        election_inv(c),
        c.enabled(event),
        event is DeliverVoteReply,
    ensures
        election_inv(c.after(event)),
        c.elections.subset_of(c.after(event).elections),
        c.after(event).members == c.members,
        forall|n: NodeId| c.nodes.contains_key(n) <==> c.after(event).nodes.contains_key(n),
{
    let m = event->DeliverVoteReply_0;
    let n = m.to;
    let s = c.nodes[n];
    let t = s.vote_counted(m.from, m.reply);
    let d = c.after(event);
    assert(node_valid(c, n));
    lemma_vote_counted_wf(s, m.from, m.reply);
    assert(d.nodes[n] == t);
    if m.reply.term <= s.current_term && s.role == Role::Candidate && m.reply.term
        == s.current_term && m.reply.granted && s.members.contains(m.from) && !s.votes.contains(
        m.from,
    ) {
        let counted = EngineState { votes: s.votes.push(m.from), ..s };
        assert(t.votes == counted.votes);
        assert(t.current_term == s.current_term);
        assert(counted.votes.no_duplicates()) by {
            assert forall|i: int, j: int|
                0 <= i < counted.votes.len() && 0 <= j < counted.votes.len() && i
                    != j implies counted.votes[i] != counted.votes[j] by {
                if i < s.votes.len() && j < s.votes.len() {
                } else if i < s.votes.len() {
                    assert(s.votes.contains(s.votes[i]));
                } else {
                    assert(s.votes.contains(s.votes[j]));
                }
            }
        }
        assert(c.grants.contains(
            Grant { voter: m.from, term: m.reply.term, candidate: m.to },
        ));
    } else {
        assert(t.votes == s.votes && t.current_term == s.current_term || t.votes.len() == 0);
    }
    assert(node_valid(d, n)) by {
        assert forall|i: int| 0 <= i < t.votes.len() implies d.members.contains(
            #[trigger] t.votes[i],
        ) && d.grants.contains(Grant { voter: t.votes[i], term: t.current_term, candidate: n }) by {
            if i < s.votes.len() {
                assert(s.votes[i] == t.votes[i]);
            }
        }
    }
    assert forall|x: NodeId| #[trigger] d.nodes.contains_key(x) implies node_valid(d, x) by {
        assert(c.nodes.contains_key(x));
        assert(node_valid(c, x));
    }
    assert forall|g: Grant| #[trigger] d.grants.contains(g) implies grant_valid(d, g) by {
        assert(grant_valid(c, g));
    }
    assert forall|e: Election| #[trigger] d.elections.contains(e) implies election_valid(d, e) by {
        if c.elections.contains(e) {
            assert(election_valid(c, e));
        }
    }
}

/// An election timeout keeps the invariant: the candidate's own vote is the first of
/// its term.
proof fn lemma_after_timeout(c: Cluster, n: NodeId)
    requires
        election_inv(c),
        c.nodes.contains_key(n),
    ensures
        election_inv(c.after(Event::Timeout(n))),
        c.elections.subset_of(c.after(Event::Timeout(n)).elections),
        c.after(Event::Timeout(n)).members == c.members,
        forall|x: NodeId| c.nodes.contains_key(x) <==> c.after(Event::Timeout(n)).nodes.contains_key(x),
{
    let s = c.nodes[n];
    let d = c.after(Event::Timeout(n));
    assert(node_valid(c, n));
    if s.may_campaign() {
        let t = s.timed_out();
        lemma_timed_out_wf(s);
        assert(d.nodes[n] == t);
        assert(t.votes == seq![n]);
        assert(t.current_term == s.current_term + 1);
        let own = Grant { voter: n, term: t.current_term, candidate: n };
        assert(d.grants.contains(own));
        assert forall|x: NodeId| #[trigger] d.nodes.contains_key(x) implies node_valid(d, x) by {
            assert(c.nodes.contains_key(x));
            assert(node_valid(c, x));
        }
        assert forall|g: Grant| #[trigger] d.grants.contains(g) implies grant_valid(d, g) by {
            if c.grants.contains(g) {
                assert(grant_valid(c, g));
            }
        }
        assert forall|g1: Grant, g2: Grant|
            #[trigger] d.grants.contains(g1) && #[trigger] d.grants.contains(g2) && g1.voter
                == g2.voter && g1.term == g2.term implies g1.candidate == g2.candidate by {
            if c.grants.contains(g1) {
                assert(grant_valid(c, g1));
            }
            if c.grants.contains(g2) {
                assert(grant_valid(c, g2));
            }
        }
        assert forall|e: Election| #[trigger] d.elections.contains(e) implies election_valid(
            d,
            e,
        ) by {
            if c.elections.contains(e) {
                assert(election_valid(c, e));
            }
        }
    }
}

/// The invariant holds after any events.
pub proof fn lemma_after_all(members: Seq<NodeId>, events: Seq<Event>)
    ensures
        election_inv(Cluster::start(members).after_all(events)),
    decreases events.len(),
{
    if events.len() == 0 {
        lemma_start(members);
    } else {
        lemma_after_all(members, events.drop_last());
        lemma_after(Cluster::start(members).after_all(events.drop_last()), events.last());
    }
}

/// No election is forgotten: what was recorded after some events is still recorded
/// after more.
pub proof fn lemma_elections_grow(members: Seq<NodeId>, events: Seq<Event>, upto: int)
    requires
        0 <= upto <= events.len(),
    ensures
        Cluster::start(members).after_all(events.take(upto)).elections.subset_of(
            Cluster::start(members).after_all(events).elections,
        ),
    decreases events.len(),
{
    if upto == events.len() {
        assert(events.take(upto) =~= events);
    } else {
        let shorter = events.drop_last();
        assert(shorter.take(upto) =~= events.take(upto));
        lemma_elections_grow(members, shorter, upto);
        lemma_after_all(members, shorter);
        lemma_after(Cluster::start(members).after_all(shorter), events.last());
    }
}

/// Two elections on record in the same term have the same leader.
pub proof fn lemma_one_leader(c: Cluster, e1: Election, e2: Election)
    requires
        election_inv(c),
        c.elections.contains(e1),
        c.elections.contains(e2),
        e1.term == e2.term,
    ensures
        e1.leader == e2.leader,
{
    assert(election_valid(c, e1));
    assert(election_valid(c, e2));
    let x = lemma_majorities_meet(c.members, e1.voters, e2.voters);
    let i = choose|i: int| 0 <= i < e1.voters.len() && e1.voters[i] == x;
    let j = choose|j: int| 0 <= j < e2.voters.len() && e2.voters[j] == x;
    let g1 = Grant { voter: e1.voters[i], term: e1.term, candidate: e1.leader };
    let g2 = Grant { voter: e2.voters[j], term: e2.term, candidate: e2.leader };
    assert(c.grants.contains(g1));
    assert(c.grants.contains(g2));
}

/// Election safety. Take any cluster and any sequence of events: timeouts, crashes,
/// and messages delivered, delayed, repeated or lost. If node `a` is leader after
/// the first `i` events and node `b` is leader after the first `j` events, both in
/// the same term, then `a` and `b` are the same node.
pub proof fn law_election_safety(
    members: Seq<NodeId>,
    events: Seq<Event>,
    i: int,
    j: int,
    a: NodeId,
    b: NodeId,
)
    requires
        0 <= i <= events.len(),
        0 <= j <= events.len(),
    ensures
        ({
            let ca = Cluster::start(members).after_all(events.take(i));
            let cb = Cluster::start(members).after_all(events.take(j));
            ca.nodes.contains_key(a) && cb.nodes.contains_key(b) && ca.nodes[a].role == Role::Leader && cb.nodes[b].role
                == Role::Leader && ca.nodes[a].current_term == cb.nodes[b].current_term ==> a == b
        }),
{
    let start = Cluster::start(members);
    let ca = start.after_all(events.take(i));
    let cb = start.after_all(events.take(j));
    let c = start.after_all(events);
    if ca.nodes.contains_key(a) && cb.nodes.contains_key(b) && ca.nodes[a].role == Role::Leader && cb.nodes[b].role
        == Role::Leader && ca.nodes[a].current_term == cb.nodes[b].current_term {
        lemma_after_all(members, events.take(i));
        lemma_after_all(members, events.take(j));
        lemma_after_all(members, events);
        lemma_elections_grow(members, events, i);
        lemma_elections_grow(members, events, j);
        assert(node_valid(ca, a));
        assert(node_valid(cb, b));
        let ea = Election { term: ca.nodes[a].current_term, leader: a, voters: ca.nodes[a].votes };
        let eb = Election { term: cb.nodes[b].current_term, leader: b, voters: cb.nodes[b].votes };
        assert(ca.elections.contains(ea));
        assert(cb.elections.contains(eb));
        lemma_one_leader(c, ea, eb);
    }
}

} // verus!
