//! Committed entries are never lost: every later leader holds them, and so does a
//! strict majority of the members.

use vstd::prelude::*;
use crate::cluster::{Cluster, Commit, Election, Event};
use crate::commitment::{
    backed, commit_valid, holds, lemma_chosen_kept, lemma_holds_longer, lemma_holds_shorter,
    lemma_quorum_holds,
};
use crate::commitment_steps::{lemma_after_all_commit, lemma_grows_after};
use crate::election::node_valid;
use crate::growth::lemma_grow_beginning;
use crate::leadership::election_logged;
use crate::protocol::{is_majority, Role};
use crate::types::NodeId;

verus! {

/// Leader completeness. Take any cluster and any sequence of events. If after the
/// first `i` events node `a` has committed the entry at `index`, and after the first
/// `j` events, where `j` is not before `i`, node `b` is leader in a term that is not
/// behind the term of `a` as of `i`, then the log of `b` holds at `index` the entry
/// that the log of `a` held there.
pub proof fn law_leader_completeness(
    members: Seq<NodeId>,
    events: Seq<Event>,
    i: int,
    j: int,
    a: NodeId,
    b: NodeId,
    index: int,
)
    requires
        0 <= i <= j <= events.len(),
        1 <= index,
    ensures
        ({
            let ca = Cluster::start(members).after_all(events.take(i));
            let cb = Cluster::start(members).after_all(events.take(j));
            ca.has(a) && cb.has(b) && index <= ca.nodes[a].commit_index && cb.nodes[b].role
                == Role::Leader && cb.nodes[b].current_term >= ca.nodes[a].current_term
                ==> cb.nodes[b].has_entry(index) && cb.nodes[b].entry_at(index)
                == ca.nodes[a].entry_at(index)
        }),
{
    let start = Cluster::start(members);
    let ca = start.after_all(events.take(i));
    let cb = start.after_all(events.take(j));
    if ca.has(a) && cb.has(b) && index <= ca.nodes[a].commit_index && cb.nodes[b].role
        == Role::Leader && cb.nodes[b].current_term >= ca.nodes[a].current_term {
        let until_j = events.take(j);
        assert(until_j.take(i) =~= events.take(i));
        lemma_after_all_commit(members, events.take(i));
        lemma_after_all_commit(members, until_j);
        lemma_grows_after(members, until_j, i);
        let sa = ca.nodes[a];
        let sb = cb.nodes[b];
        let upto = sa.commit_index as int;
        assert(node_valid(ca, a) && node_valid(cb, b));
        assert(backed(ca, sa.log, upto, sa.current_term));
        let k = choose|k: Commit| #[trigger]
            ca.commits.contains(k) && k.index >= upto && k.term <= sa.current_term && holds(
                sa.log,
                ca,
                k.term,
                upto,
            );
        assert(commit_valid(ca, k));
        assert(cb.commits.contains(k));
        assert(commit_valid(cb, k));
        let mine = Election { term: sb.current_term, leader: b, voters: sb.votes };
        assert(cb.elections.contains(mine));
        assert(cb.leader_logs[sb.current_term] == sb.log);
        if sb.current_term > k.term {
            lemma_chosen_kept(cb, k, mine);
            assert(election_logged(cb, mine));
            lemma_holds_longer(cb.campaigns[(mine.term, b)], sb.log, cb, k.term, k.index);
        }
        assert(holds(sb.log, cb, k.term, k.index));
        lemma_holds_shorter(sb.log, cb, k.term, k.index, upto);
        lemma_grow_beginning(ca, cb, k.term, upto);
        assert(sb.log.subrange(0, upto)[index - 1] == sa.log.subrange(0, upto)[index - 1]);
    }
}

/// Commit durability. Take any cluster and any sequence of events. If afterwards node
/// `a` has committed the entry at `index`, then the members that the function returns
/// are a strict majority of the cluster's members, each once, and the log of each
/// holds at `index` the entry that the log of `a` holds there.
pub proof fn law_commit_durability(
    members: Seq<NodeId>,
    events: Seq<Event>,
    a: NodeId,
    index: int,
) -> (quorum: Seq<NodeId>)
    requires
        1 <= index,
    ensures
        ({
            let c = Cluster::start(members).after_all(events);
            c.has(a) && index <= c.nodes[a].commit_index ==> {
                &&& quorum.no_duplicates()
                &&& is_majority(quorum.len() as int, c.members)
                &&& forall|i: int|
                    0 <= i < quorum.len() ==> {
                        let v = #[trigger] quorum[i];
                        &&& c.members.contains(v)
                        &&& c.has(v)
                        &&& c.nodes[v].has_entry(index)
                        &&& c.nodes[v].entry_at(index) == c.nodes[a].entry_at(index)
                    }
            }
        }),
{
    let c = Cluster::start(members).after_all(events);
    if c.has(a) && index <= c.nodes[a].commit_index {
        lemma_after_all_commit(members, events);
        let sa = c.nodes[a];
        let upto = sa.commit_index as int;
        assert(node_valid(c, a));
        assert(backed(c, sa.log, upto, sa.current_term));
        let k = choose|k: Commit| #[trigger]
            c.commits.contains(k) && k.index >= upto && k.term <= sa.current_term && holds(
                sa.log,
                c,
                k.term,
                upto,
            );
        assert(commit_valid(c, k));
        assert forall|i: int| 0 <= i < k.quorum.len() implies {
            let v = #[trigger] k.quorum[i];
            &&& c.members.contains(v)
            &&& c.has(v)
            &&& c.nodes[v].has_entry(index)
            &&& c.nodes[v].entry_at(index) == c.nodes[a].entry_at(index)
        } by {
            let v = k.quorum[i];
            lemma_quorum_holds(c, k, i);
            assert(node_valid(c, v));
            lemma_holds_shorter(c.nodes[v].log, c, k.term, k.index, upto);
            assert(c.nodes[v].log.subrange(0, upto)[index - 1] == sa.log.subrange(
                0,
                upto,
            )[index - 1]);
        }
        k.quorum
    } else {
        Seq::empty()
    }
}

} // verus!
