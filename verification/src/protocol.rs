//! The consensus protocol as mathematics: what one node's state is, and how each
//! event changes it. The executable engine is proved against these functions, and
//! the cluster-wide laws are proved of them.

use vstd::prelude::*;
use crate::types::{EntryView, LogId, NodeId, PayloadView};

verus! {

/// The part a node plays in its current term.
#[derive(Clone, Copy, Debug, PartialEq, Eq, Structural)]
pub enum Role {
    Follower,
    Candidate,
    Leader,
}

/// What a leader knows of one member's log.
#[derive(Clone, Copy, Debug, PartialEq, Eq, Structural)]
pub struct Progress {
    /// Index of the next entry to send.
    pub next_index: u64,
    /// Highest index known to be stored by the member.
    pub match_index: u64,
}

/// A candidate's request for a vote.
#[derive(Clone, Copy, Debug, PartialEq, Eq, Structural)]
pub struct VoteRequest {
    pub term: u64,
    pub candidate: NodeId,
    pub last_log: LogId,
}

/// A member's answer to a `VoteRequest`.
#[derive(Clone, Copy, Debug, PartialEq, Eq, Structural)]
pub struct VoteReply {
    pub term: u64,
    pub granted: bool,
}

/// A follower's answer to an append-entries request.
#[derive(Clone, Copy, Debug, PartialEq, Eq, Structural)]
pub struct AppendReply {
    pub term: u64,
    pub success: bool,
    /// On success, the highest index that the follower is known to share with the leader.
    pub match_index: u64,
}

/// A follower's answer to an install-snapshot request.
#[derive(Clone, Copy, Debug, PartialEq, Eq, Structural)]
pub struct SnapshotReply {
    pub term: u64,
    /// Whether the follower replaced its state by the snapshot's.
    pub installed: bool,
}

/// Why a node did not accept a write.
#[derive(Clone, Copy, Debug, PartialEq, Eq, Structural)]
pub enum WriteError {
    /// The node is not the leader; `leader` is the one it knows of, if any.
    NotLeader { leader: Option<NodeId> },
    /// The log has no index left.
    LogFull,
}

/// An append-entries request, as plain values.
pub struct AppendView {
    pub term: u64,
    pub leader: NodeId,
    pub prev: LogId,
    pub entries: Seq<EntryView>,
    pub leader_commit: u64,
}

/// The stamp of an install-snapshot request, as plain values.
pub struct SnapshotView {
    pub term: u64,
    pub leader: NodeId,
    pub last: LogId,
    pub members: Seq<NodeId>,
}

/// What a leader sends a member next.
pub enum ReplicationView {
    /// Nothing: this node is no leader, or the target is no other member.
    Idle,
    /// The entries from the member's next index on (none: a heartbeat).
    Entries(AppendView),
    /// A snapshot: the member needs entries that the log no longer holds.
    Snapshot,
}

/// One node's consensus state.
pub struct EngineState {
    pub id: NodeId,
    /// The voting members, each once.
    pub members: Seq<NodeId>,
    pub current_term: u64,
    pub voted_for: Option<NodeId>,
    pub role: Role,
    /// The leader of the current term, where known.
    pub leader: Option<NodeId>,
    /// Position of the last entry that the snapshot covers; (0, 0) without a snapshot.
    pub snapshot: LogId,
    /// The entries after the snapshot, by increasing index without gaps.
    pub log: Seq<EntryView>,
    pub commit_index: u64,
    /// As a candidate: the members that granted their vote in the current term.
    pub votes: Seq<NodeId>,
    /// As a leader: one record per member, in the order of `members`.
    pub progress: Seq<Progress>,
}

/// The first position of `x` in `s`, or `s.len()` where `x` does not occur.
pub open spec fn position(s: Seq<NodeId>, x: NodeId) -> int
    decreases s.len(),
{
    if s.len() == 0 {
        0
    } else if s[0] == x {
        0
    } else {
        1 + position(s.drop_first(), x)
    }
}

/// `s` without repetitions: each value stays at its first occurrence.
pub open spec fn distinct(s: Seq<NodeId>) -> Seq<NodeId>
    decreases s.len(),
{
    if s.len() == 0 {
        Seq::empty()
    } else {
        let d = distinct(s.drop_last());
        if d.contains(s.last()) {
            d
        } else {
            d.push(s.last())
        }
    }
}

/// Whether `count` members are a strict majority of `members`.
pub open spec fn is_majority(count: int, members: Seq<NodeId>) -> bool {
    2 * count > members.len()
}

/// The progress records of a leader that has just been elected.
pub open spec fn fresh_progress(members: Seq<NodeId>, last: int) -> Seq<Progress> {
    Seq::new(
        members.len(),
        |i: int| Progress { next_index: (last + 1) as u64, match_index: 0 },
    )
}

impl EngineState {
    /// Index of the last entry, or of the snapshot where the log is empty.
    pub open spec fn last_index(self) -> int {
        self.snapshot.index + self.log.len()
    }

    /// Position of the last entry, or of the snapshot where the log is empty.
    pub open spec fn last_id(self) -> LogId {
        if self.log.len() == 0 {
            self.snapshot
        } else {
            self.log.last().id()
        }
    }

    /// Whether the log holds an entry at `index`.
    pub open spec fn has_entry(self, index: int) -> bool {
        self.snapshot.index < index <= self.last_index()
    }

    /// The entry at `index`.
    pub open spec fn entry_at(self, index: int) -> EntryView
        recommends
            self.has_entry(index),
    {
        self.log[index - self.snapshot.index - 1]
    }

    /// The term of what the node stores at `index`: of the snapshot's last entry, or of
    /// a log entry. `None` where it stores nothing at that index.
    pub open spec fn term_at(self, index: int) -> Option<u64> {
        if index == self.snapshot.index {
            Some(self.snapshot.term)
        } else if self.has_entry(index) {
            Some(self.entry_at(index).term)
        } else {
            None
        }
    }

    /// The state's invariant.
    pub open spec fn wf(self) -> bool {
        &&& self.members.no_duplicates()
        &&& self.last_index() < u64::MAX
        &&& forall|i: int|
            0 <= i < self.log.len() ==> (#[trigger] self.log[i]).index == self.snapshot.index + 1
                + i
        &&& self.snapshot.index <= self.commit_index <= self.last_index()
        &&& self.role == Role::Leader ==> {
            &&& self.progress.len() == self.members.len()
            &&& forall|k: int|
                0 <= k < self.progress.len() ==> {
                    &&& (#[trigger] self.progress[k]).match_index < self.progress[k].next_index
                    &&& self.progress[k].next_index <= self.last_index() + 1
                }
        }
    }

    /// A node that has never run: follower in term 0 with an empty log.
    pub open spec fn initial(id: NodeId, members: Seq<NodeId>) -> EngineState {
        EngineState {
            id,
            members: distinct(members),
            current_term: 0,
            voted_for: None,
            role: Role::Follower,
            leader: None,
            snapshot: LogId { term: 0, index: 0 },
            log: Seq::empty(),
            commit_index: 0,
            votes: Seq::empty(),
            progress: Seq::empty(),
        }
    }

    /// The state after a crash and restart: term, vote, snapshot, log and members are
    /// durable; the rest starts anew.
    pub open spec fn restarted(self) -> EngineState {
        EngineState {
            role: Role::Follower,
            leader: None,
            commit_index: self.snapshot.index,
            votes: Seq::empty(),
            progress: Seq::empty(),
            ..self
        }
    }

    /// The state after seeing `term` in a message: a higher term makes the node a
    /// follower of that term that has not voted.
    pub open spec fn observed(self, term: u64) -> EngineState {
        if term > self.current_term {
            EngineState {
                current_term: term,
                voted_for: None,
                role: Role::Follower,
                leader: None,
                votes: Seq::empty(),
                ..self
            }
        } else {
            self
        }
    }

    /// Whether the member at position `k` is known to store the entry at `index`.
    pub open spec fn stored_by(self, k: int, index: int) -> bool {
        if self.members[k] == self.id {
            true
        } else {
            self.progress[k].match_index >= index
        }
    }

    /// How many of the first `upto` members are known to store the entry at `index`.
    pub open spec fn count_stored(self, index: int, upto: int) -> int
        decreases upto,
    {
        if upto <= 0 {
            0
        } else {
            self.count_stored(index, upto - 1) + if self.stored_by(upto - 1, index) {
                1int
            } else {
                0int
            }
        }
    }

    /// Whether a leader may move its commit index to `index`: the entry is of the
    /// leader's own term and a strict majority of the members store it.
    pub open spec fn committable(self, index: int) -> bool {
        &&& self.commit_index < index <= self.last_index()
        &&& self.term_at(index) == Some(self.current_term)
        &&& is_majority(self.count_stored(index, self.members.len() as int), self.members)
    }

    /// Whether the entry at `index` is of the leader's own term and known to be stored
    /// by a strict majority of the members: what lets a leader commit up to `index`.
    pub open spec fn committable_at(self, index: int) -> bool {
        &&& 1 <= index <= self.last_index()
        &&& self.term_at(index) == Some(self.current_term)
        &&& is_majority(self.count_stored(index, self.members.len() as int), self.members)
    }

    /// The highest committable index that is at most `from`, or the commit index where
    /// there is none.
    pub open spec fn highest_committable(self, from: int) -> int
        decreases from,
    {
        if from <= self.commit_index {
            self.commit_index as int
        } else if self.committable(from) {
            from
        } else {
            self.highest_committable(from - 1)
        }
    }

    /// The leader's state after it has moved its commit index as far as it may.
    pub open spec fn advanced(self) -> EngineState {
        EngineState {
            commit_index: self.highest_committable(self.last_index()) as u64,
            ..self
        }
    }

    /// The entry that a leader writes next for `payload`.
    pub open spec fn next_entry(self, payload: PayloadView) -> EntryView {
        EntryView { term: self.current_term, index: (self.last_index() + 1) as u64, payload }
    }

    /// The blank entry that a new leader writes.
    pub open spec fn elected_blank(self) -> EntryView {
        self.next_entry(PayloadView::Blank)
    }

    /// The state of a candidate that has won: leader, with fresh progress records and
    /// a blank entry of the new term at the end of its log.
    pub open spec fn elected(self) -> EngineState {
        let blank = self.elected_blank();
        let led = EngineState {
            role: Role::Leader,
            leader: Some(self.id),
            progress: fresh_progress(self.members, self.last_index()),
            ..self
        };
        if self.last_index() + 1 < u64::MAX {
            EngineState { log: self.log.push(blank), ..led }.advanced()
        } else {
            led
        }
    }

    /// A candidate with the votes of a strict majority becomes leader.
    pub open spec fn tallied(self) -> EngineState {
        if self.role == Role::Candidate && is_majority(self.votes.len() as int, self.members) {
            self.elected()
        } else {
            self
        }
    }

    /// Whether an election timeout starts a campaign: the node is a member, no leader,
    /// and a next term exists.
    pub open spec fn may_campaign(self) -> bool {
        &&& self.role != Role::Leader
        &&& self.members.contains(self.id)
        &&& self.current_term < u64::MAX
    }

    /// The state of a node that has just started a campaign: candidate of the next
    /// term with its own vote.
    pub open spec fn campaigning(self) -> EngineState {
        EngineState {
            current_term: (self.current_term + 1) as u64,
            role: Role::Candidate,
            voted_for: Some(self.id),
            leader: None,
            votes: seq![self.id],
            ..self
        }
    }

    /// The state after an election timeout.
    pub open spec fn timed_out(self) -> EngineState {
        if self.may_campaign() {
            self.campaigning().tallied()
        } else {
            self
        }
    }

    /// The request that a node broadcasts when an election timeout starts a campaign.
    pub open spec fn campaign_request(self) -> Option<VoteRequest> {
        if self.may_campaign() {
            Some(
                VoteRequest {
                    term: (self.current_term + 1) as u64,
                    candidate: self.id,
                    last_log: self.last_id(),
                },
            )
        } else {
            None
        }
    }

    /// Whether the node grants the vote that `req` asks for.
    pub open spec fn grants(self, req: VoteRequest) -> bool {
        &&& req.term >= self.current_term
        &&& (req.term > self.current_term || self.voted_for.is_none() || self.voted_for == Some(
            req.candidate,
        ))
        &&& req.last_log.up_to_date(self.last_id())
    }

    /// The state after a vote request.
    pub open spec fn voted(self, req: VoteRequest) -> EngineState {
        let seen = self.observed(req.term);
        if self.grants(req) {
            EngineState { voted_for: Some(req.candidate), ..seen }
        } else {
            seen
        }
    }

    /// The answer to a vote request.
    pub open spec fn vote_reply(self, req: VoteRequest) -> VoteReply {
        VoteReply { term: self.voted(req).current_term, granted: self.grants(req) }
    }

    /// The state after the answer of `from` to a vote request.
    pub open spec fn vote_counted(self, from: NodeId, reply: VoteReply) -> EngineState {
        if reply.term > self.current_term {
            self.observed(reply.term)
        } else if self.role == Role::Candidate && reply.term == self.current_term
            && reply.granted && self.members.contains(from) && !self.votes.contains(from) {
            EngineState { votes: self.votes.push(from), ..self }.tallied()
        } else {
            self
        }
    }

    /// Whether the node stores, at the entry's index, something of the entry's term.
    pub open spec fn agrees(self, e: EntryView) -> bool {
        self.term_at(e.index as int) == Some(e.term)
    }

    /// How many entries of `entries`, counted from position `from`, the node already
    /// stores: the length of the longest run from `from` on which it agrees.
    pub open spec fn agreeing_run(self, entries: Seq<EntryView>, from: int) -> int
        decreases entries.len() - from,
    {
        if from < 0 || from >= entries.len() {
            0
        } else if self.agrees(entries[from]) {
            1 + self.agreeing_run(entries, from + 1)
        } else {
            0
        }
    }

    /// The state after a write that a client asked this node for.
    pub open spec fn written(self, payload: PayloadView) -> EngineState {
        if self.role == Role::Leader && self.last_index() + 1 < u64::MAX {
            EngineState { log: self.log.push(self.next_entry(payload)), ..self }.advanced()
        } else {
            self
        }
    }

    /// What the node answers to a write that a client asked it for.
    pub open spec fn write_result(self, payload: PayloadView) -> Result<LogId, WriteError> {
        if self.role != Role::Leader {
            Err(WriteError::NotLeader { leader: self.leader })
        } else if self.last_index() + 1 >= u64::MAX {
            Err(WriteError::LogFull)
        } else {
            Ok(LogId { term: self.current_term, index: (self.last_index() + 1) as u64 })
        }
    }
}

/// Whether an append-entries request is well formed: its entries follow `prev` by
/// increasing index without gaps, and the last index is below the largest number.
pub open spec fn append_well_formed(req: AppendView) -> bool {
    &&& req.prev.index + req.entries.len() < u64::MAX
    &&& forall|i: int|
        0 <= i < req.entries.len() ==> (#[trigger] req.entries[i]).index == req.prev.index + 1 + i
}

impl EngineState {
    /// Whether the node accepts the leader that sent `req`.
    pub open spec fn accepts_leader(self, req: AppendView) -> bool {
        req.term >= self.current_term
    }

    /// The state of a node that has accepted the sender of a message of `term` as its
    /// leader.
    pub open spec fn following(self, term: u64, leader: NodeId) -> EngineState {
        EngineState {
            role: Role::Follower,
            leader: Some(leader),
            votes: Seq::empty(),
            ..self.observed(term)
        }
    }

    /// Whether the node can take the entries of `req` into its log: it stores
    /// `req.prev`, and no entry at or below its commit index would have to go.
    pub open spec fn can_append(self, req: AppendView) -> bool {
        &&& self.accepts_leader(req)
        &&& req.prev.index >= self.snapshot.index
        &&& self.term_at(req.prev.index as int) == Some(req.prev.term)
        &&& {
            let k = self.agreeing_run(req.entries, 0);
            k < req.entries.len() ==> req.entries[k].index > self.commit_index
        }
    }

    /// The log after the entries of `req` were taken in: where the node disagrees with
    /// one of them, its log is cut there and continued with the leader's entries.
    pub open spec fn reconciled_log(self, req: AppendView) -> Seq<EntryView> {
        let k = self.agreeing_run(req.entries, 0);
        if k < req.entries.len() {
            self.log.subrange(0, req.prev.index + k - self.snapshot.index)
                + req.entries.subrange(k, req.entries.len() as int)
        } else {
            self.log
        }
    }

    /// The state after an append-entries request.
    pub open spec fn appended(self, req: AppendView) -> EngineState {
        if !self.accepts_leader(req) {
            self
        } else if self.can_append(req) {
            let upto = req.prev.index + req.entries.len();
            let offered = if req.leader_commit < upto {
                req.leader_commit as int
            } else {
                upto
            };
            EngineState {
                log: self.reconciled_log(req),
                commit_index: if offered > self.commit_index {
                    offered as u64
                } else {
                    self.commit_index
                },
                ..self.following(req.term, req.leader)
            }
        } else {
            self.following(req.term, req.leader)
        }
    }

    /// The answer to an append-entries request.
    pub open spec fn append_reply(self, req: AppendView) -> AppendReply {
        if !self.accepts_leader(req) {
            AppendReply { term: self.current_term, success: false, match_index: 0 }
        } else if req.prev.index < self.snapshot.index {
            AppendReply { term: req.term, success: true, match_index: self.snapshot.index }
        } else if self.can_append(req) {
            AppendReply {
                term: req.term,
                success: true,
                match_index: (req.prev.index + req.entries.len()) as u64,
            }
        } else {
            AppendReply { term: req.term, success: false, match_index: 0 }
        }
    }

    /// Whether the leader takes account of an answer of `from` to append-entries.
    pub open spec fn heeds(self, from: NodeId, reply: AppendReply) -> bool {
        &&& self.role == Role::Leader
        &&& reply.term == self.current_term
        &&& from != self.id
        &&& self.members.contains(from)
    }

    /// The progress record of a member after its answer to append-entries: on
    /// success the match index rises to what the member reports, as far as the log
    /// goes; on failure the next index goes back by one, not below the match index.
    pub open spec fn progress_after(self, p: Progress, reply: AppendReply) -> Progress {
        if reply.success {
            let reported = if reply.match_index <= self.last_index() {
                reply.match_index as int
            } else {
                self.last_index()
            };
            let m = if reported > p.match_index {
                reported
            } else {
                p.match_index as int
            };
            Progress { next_index: (m + 1) as u64, match_index: m as u64 }
        } else if p.next_index > p.match_index + 1 {
            Progress { next_index: (p.next_index - 1) as u64, match_index: p.match_index }
        } else {
            p
        }
    }

    /// The state after the answer of `from` to an append-entries request.
    pub open spec fn append_counted(self, from: NodeId, reply: AppendReply) -> EngineState {
        if reply.term > self.current_term {
            self.observed(reply.term)
        } else if self.heeds(from, reply) {
            let k = position(self.members, from);
            EngineState {
                progress: self.progress.update(k, self.progress_after(self.progress[k], reply)),
                ..self
            }.advanced()
        } else {
            self
        }
    }

    /// What the leader sends to `to` next.
    pub open spec fn replication(self, to: NodeId) -> ReplicationView {
        if self.role != Role::Leader || to == self.id || !self.members.contains(to) {
            ReplicationView::Idle
        } else {
            let next = self.progress[position(self.members, to)].next_index;
            if next <= self.snapshot.index {
                ReplicationView::Snapshot
            } else {
                ReplicationView::Entries(
                    AppendView {
                        term: self.current_term,
                        leader: self.id,
                        prev: LogId {
                            term: self.term_at(next - 1).unwrap(),
                            index: (next - 1) as u64,
                        },
                        entries: self.log.subrange(
                            next - self.snapshot.index - 1,
                            self.log.len() as int,
                        ),
                        leader_commit: self.commit_index,
                    },
                )
            }
        }
    }

    /// Whether the node replaces its state by the snapshot of `req`: it accepts the
    /// sender as leader and the snapshot reaches beyond its commit index.
    pub open spec fn installs(self, req: SnapshotView) -> bool {
        &&& req.term >= self.current_term
        &&& req.last.index > self.commit_index
        &&& req.last.index < u64::MAX
    }

    /// The state after an install-snapshot request: the snapshot's stamp replaces the
    /// log up to its index; entries beyond it stay where the log agrees with the stamp.
    pub open spec fn snapshot_installed(self, req: SnapshotView) -> EngineState {
        if req.term < self.current_term {
            self
        } else if self.installs(req) {
            EngineState {
                snapshot: req.last,
                log: if self.has_entry(req.last.index as int) && self.term_at(
                    req.last.index as int,
                ) == Some(req.last.term) {
                    self.log.subrange(
                        req.last.index - self.snapshot.index,
                        self.log.len() as int,
                    )
                } else {
                    Seq::empty()
                },
                commit_index: req.last.index,
                members: distinct(req.members),
                ..self.following(req.term, req.leader)
            }
        } else {
            self.following(req.term, req.leader)
        }
    }

    /// The answer to an install-snapshot request.
    pub open spec fn snapshot_reply(self, req: SnapshotView) -> SnapshotReply {
        if req.term < self.current_term {
            SnapshotReply { term: self.current_term, installed: false }
        } else {
            SnapshotReply { term: req.term, installed: self.installs(req) }
        }
    }

    /// Whether the log may be cut up to `index`: the node holds that entry and has
    /// committed it.
    pub open spec fn may_compact(self, index: u64) -> bool {
        self.snapshot.index < index <= self.commit_index
    }

    /// The state after the entries up to `index` went into a snapshot.
    pub open spec fn compacted(self, index: u64) -> EngineState {
        if self.may_compact(index) {
            EngineState {
                snapshot: LogId { term: self.entry_at(index as int).term, index },
                log: self.log.subrange(index - self.snapshot.index, self.log.len() as int),
                ..self
            }
        } else {
            self
        }
    }

    /// The state after a committed membership entry took effect. A leader starts its
    /// progress records anew.
    pub open spec fn with_members(self, members: Seq<NodeId>) -> EngineState {
        EngineState {
            members: distinct(members),
            progress: if self.role == Role::Leader {
                fresh_progress(distinct(members), self.last_index())
            } else {
                self.progress
            },
            ..self
        }
    }
}

} // verus!
