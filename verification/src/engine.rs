//! The consensus engine of one node: roles, terms, the log, elections, replication
//! and snapshots. It holds no clock and sends nothing: each method takes one event
//! and returns what is to be sent.

use vstd::prelude::*;
use crate::ids::{contains, dedup};
use crate::preservation::{lemma_advanced_wf, lemma_elected_wf};
use crate::protocol::{fresh_progress, EngineState, Progress, Role, VoteReply, VoteRequest};
use crate::types::{copy_ids, entries_view, LogEntry, LogId, NodeId, Payload};

verus! {

/// The consensus state of one node.
pub struct Engine {
    pub(crate) id: NodeId,
    pub(crate) members: Vec<NodeId>,
    pub(crate) current_term: u64,
    pub(crate) voted_for: Option<NodeId>,
    pub(crate) role: Role,
    pub(crate) leader: Option<NodeId>,
    pub(crate) snapshot: LogId,
    pub(crate) log: Vec<LogEntry>,
    pub(crate) commit_index: u64,
    pub(crate) votes: Vec<NodeId>,
    pub(crate) progress: Vec<Progress>,
}

impl View for Engine {
    type V = EngineState;

    open(crate) spec fn view(&self) -> EngineState {
        EngineState {
            id: self.id,
            members: self.members@,
            current_term: self.current_term,
            voted_for: self.voted_for,
            role: self.role,
            leader: self.leader,
            snapshot: self.snapshot,
            log: entries_view(self.log@),
            commit_index: self.commit_index,
            votes: self.votes@,
            progress: self.progress@,
        }
    }
}

/// Whether `count` is a strict majority of `n`.
pub fn majority_of(count: usize, n: usize) -> (r: bool)
    ensures
        r == (2 * count > n),
{
    count > n / 2
}

/// One progress record for each of `n` members of a leader whose log ends at `last`.
pub(crate) fn new_progress(n: usize, last: u64) -> (r: Vec<Progress>)
    requires
        last < u64::MAX,
    ensures
        r@.len() == n,
        forall|i: int|
            0 <= i < n ==> r@[i] == (Progress { next_index: (last + 1) as u64, match_index: 0 }),
{
    let mut out: Vec<Progress> = Vec::new();
    let mut i: usize = 0;
    while i < n
        invariant
            i <= n,
            last < u64::MAX,
            out@.len() == i,
            forall|j: int|
                0 <= j < i ==> out@[j] == (Progress {
                    next_index: (last + 1) as u64,
                    match_index: 0,
                }),
        decreases n - i,
    {
        out.push(Progress { next_index: last + 1, match_index: 0 });
        i += 1;
    }
    out
}

impl Engine {
    /// A node that has never run: follower in term 0 with an empty log. Repeated
    /// members count once.
    pub fn new(id: NodeId, members: &Vec<NodeId>) -> (r: Engine)
        ensures
            r@ == EngineState::initial(id, members@),
            r@.wf(),
    {
        let r = Engine {
            id,
            members: dedup(members),
            current_term: 0,
            voted_for: None,
            role: Role::Follower,
            leader: None,
            snapshot: LogId { term: 0, index: 0 },
            log: Vec::new(),
            commit_index: 0,
            votes: Vec::new(),
            progress: Vec::new(),
        };
        assert(entries_view(r.log@) =~= Seq::empty());
        assert(r@ =~= EngineState::initial(id, members@));
        r
    }

    /// This node's identifier.
    pub fn id(&self) -> (r: NodeId)
        ensures
            r == self@.id,
    {
        self.id
    }

    /// The node's current term.
    pub fn current_term(&self) -> (r: u64)
        ensures
            r == self@.current_term,
    {
        self.current_term
    }

    /// The part the node plays in its current term.
    pub fn role(&self) -> (r: Role)
        ensures
            r == self@.role,
    {
        self.role
    }

    /// The leader of the current term, where the node knows it.
    pub fn leader(&self) -> (r: Option<NodeId>)
        ensures
            r == self@.leader,
    {
        self.leader
    }

    /// The candidate that the node voted for in its current term.
    pub fn voted_for(&self) -> (r: Option<NodeId>)
        ensures
            r == self@.voted_for,
    {
        self.voted_for
    }

    /// Index of the last entry known to be committed.
    pub fn commit_index(&self) -> (r: u64)
        ensures
            r == self@.commit_index,
    {
        self.commit_index
    }

    /// Position of the last entry that the snapshot covers.
    pub fn snapshot_id(&self) -> (r: LogId)
        ensures
            r == self@.snapshot,
    {
        self.snapshot
    }

    /// The voting members.
    pub fn members(&self) -> (r: Vec<NodeId>)
        ensures
            r@ == self@.members,
    {
        copy_ids(&self.members)
    }

    /// The entry at `index`, where the log holds one.
    pub fn entry(&self, index: u64) -> (r: Option<&LogEntry>)
        requires
            self@.wf(),
        ensures
            r.is_some() == self@.has_entry(index as int),
            r matches Some(e) ==> e@ == self@.entry_at(index as int),
    {
        if index > self.snapshot.index && index - self.snapshot.index <= self.log.len() as u64 {
            let at = (index - self.snapshot.index - 1) as usize;
            assert(entries_view(self.log@)[at as int] == self.log@[at as int]@);
            Some(&self.log[at])
        } else {
            None
        }
    }

    /// Index of the last entry, or of the snapshot where the log is empty.
    pub fn last_index(&self) -> (r: u64)
        requires
            self@.wf(),
        ensures
            r == self@.last_index(),
    {
        self.snapshot.index + self.log.len() as u64
    }

    /// Position of the last entry, or of the snapshot where the log is empty.
    pub fn last_log_id(&self) -> (r: LogId)
        requires
            self@.wf(),
        ensures
            r == self@.last_id(),
    {
        if self.log.len() == 0 {
            self.snapshot
        } else {
            self.log[self.log.len() - 1].log_id()
        }
    }

    /// The term of what the node stores at `index`, if anything.
    pub fn term_at(&self, index: u64) -> (r: Option<u64>)
        requires
            self@.wf(),
        ensures
            r == self@.term_at(index as int),
    {
        if index == self.snapshot.index {
            Some(self.snapshot.term)
        } else if index > self.snapshot.index && index - self.snapshot.index
            <= self.log.len() as u64 {
            let at = (index - self.snapshot.index - 1) as usize;
            assert(entries_view(self.log@)[at as int] == self.log@[at as int]@);
            Some(self.log[at].term)
        } else {
            None
        }
    }

    /// How many members are known to store the entry at `index`.
    fn count_stored(&self, index: u64) -> (r: usize)
        requires
            self@.wf(),
            self@.role == Role::Leader,
        ensures
            r == self@.count_stored(index as int, self@.members.len() as int),
    {
        let mut count: usize = 0;
        let mut k: usize = 0;
        while k < self.members.len()
            invariant
                k <= self.members.len(),
                self.progress.len() == self.members.len(),
                count == self@.count_stored(index as int, k as int),
                count <= k,
            decreases self.members.len() - k,
        {
            if self.members[k] == self.id || self.progress[k].match_index >= index {
                count += 1;
            }
            k += 1;
        }
        count
    }

    /// Whether the leader may move its commit index to `index`.
    fn is_committable(&self, index: u64) -> (r: bool)
        requires
            self@.wf(),
            self@.role == Role::Leader,
        ensures
            r == self@.committable(index as int),
    {
        if index <= self.commit_index || index > self.last_index() {
            return false;
        }
        match self.term_at(index) {
            Some(t) => t == self.current_term && majority_of(
                self.count_stored(index),
                self.members.len(),
            ),
            None => false,
        }
    }

    /// Moves the leader's commit index to the highest entry of its own term that a
    /// strict majority stores.
    pub(crate) fn advance_commit(&mut self)
        requires
            old(self)@.wf(),
            old(self)@.role == Role::Leader,
        ensures
            final(self)@ == old(self)@.advanced(),
            final(self)@.wf(),
    {
        let mut n: u64 = self.last_index();
        while n > self.commit_index && !self.is_committable(n)
            invariant
                self@.wf(),
                self@.role == Role::Leader,
                self.commit_index <= n <= self@.last_index(),
                self@.highest_committable(self@.last_index()) == self@.highest_committable(
                    n as int,
                ),
            decreases n,
        {
            n -= 1;
        }
        proof {
            lemma_advanced_wf(self@);
        }
        self.commit_index = n;
    }

    /// Makes a candidate that has won the leader of its term.
    fn become_leader(&mut self)
        requires
            old(self)@.wf(),
        ensures
            final(self)@ == old(self)@.elected(),
            final(self)@.wf(),
    {
        proof {
            lemma_elected_wf(self@);
        }
        let last = self.last_index();
        self.role = Role::Leader;
        self.leader = Some(self.id);
        self.progress = new_progress(self.members.len(), last);
        assert(self.progress@ =~= fresh_progress(old(self)@.members, old(self)@.last_index()));
        if last + 1 < u64::MAX {
            self.log.push(LogEntry { term: self.current_term, index: last + 1, payload: Payload::Blank });
            assert(entries_view(self.log@) =~= entries_view(old(self).log@).push(
                old(self)@.elected_blank(),
            ));
            self.advance_commit();
        }
    }

    /// Makes a candidate with the votes of a strict majority the leader.
    fn tally(&mut self)
        requires
            old(self)@.wf(),
        ensures
            final(self)@ == old(self)@.tallied(),
            final(self)@.wf(),
    {
        if self.role == Role::Candidate && majority_of(self.votes.len(), self.members.len()) {
            self.become_leader();
        }
    }

    /// Takes note of a term seen in a message: a higher one makes the node a follower
    /// of that term.
    pub(crate) fn observe_term(&mut self, term: u64)
        requires
            old(self)@.wf(),
        ensures
            final(self)@ == old(self)@.observed(term),
            final(self)@.wf(),
    {
        if term > self.current_term {
            self.current_term = term;
            self.voted_for = None;
            self.role = Role::Follower;
            self.leader = None;
            self.votes = Vec::new();
            assert(self@ =~= old(self)@.observed(term));
        }
    }

    /// The election timer ran out. A member that is no leader becomes candidate of the
    /// next term and votes for itself; the request it returns goes to every other
    /// member. A leader, a node outside the membership and a node at the last term
    /// stay as they are and return nothing.
    pub fn election_timeout(&mut self) -> (r: Option<VoteRequest>)
        requires
            old(self)@.wf(),
        ensures
            final(self)@ == old(self)@.timed_out(),
            r == old(self)@.campaign_request(),
            final(self)@.wf(),
    {
        if self.role == Role::Leader || !contains(&self.members, self.id) || self.current_term
            == u64::MAX {
            return None;
        }
        let req = VoteRequest {
            term: self.current_term + 1,
            candidate: self.id,
            last_log: self.last_log_id(),
        };
        self.current_term = self.current_term + 1;
        self.role = Role::Candidate;
        self.voted_for = Some(self.id);
        self.leader = None;
        self.votes = Vec::new();
        self.votes.push(self.id);
        assert(self@ =~= old(self)@.campaigning());
        self.tally();
        Some(req)
    }

    /// Answers a vote request. The vote is granted where the request's term is not
    /// behind, the node has not voted for another candidate in that term, and the
    /// candidate's log is at least as up to date as the node's.
    pub fn vote(&mut self, req: VoteRequest) -> (r: VoteReply)
        requires
            old(self)@.wf(),
        ensures
            final(self)@ == old(self)@.voted(req),
            r == old(self)@.vote_reply(req),
            final(self)@.wf(),
    {
        let free = req.term > self.current_term || match self.voted_for {
            None => true,
            Some(c) => c == req.candidate,
        };
        let granted = req.term >= self.current_term && free && req.last_log.is_up_to_date(
            &self.last_log_id(),
        );
        self.observe_term(req.term);
        if granted {
            self.voted_for = Some(req.candidate);
        }
        VoteReply { term: self.current_term, granted }
    }

    /// Takes the answer of `from` to a vote request. A higher term makes the node a
    /// follower. A candidate counts a vote granted in its term by a member that it has
    /// not counted yet, and becomes leader on a strict majority.
    pub fn handle_vote_reply(&mut self, from: NodeId, reply: VoteReply)
        requires
            old(self)@.wf(),
        ensures
            final(self)@ == old(self)@.vote_counted(from, reply),
            final(self)@.wf(),
    {
        if reply.term > self.current_term {
            self.observe_term(reply.term);
        } else if self.role == Role::Candidate && reply.term == self.current_term
            && reply.granted && contains(&self.members, from) && !contains(&self.votes, from) {
            self.votes.push(from);
            self.tally();
        }
    }
}

} // verus!
