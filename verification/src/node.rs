//! The coordinator of one process: it owns the consensus engine and the store,
//! applies committed entries in order, and decides for each client request whether to
//! take it here or to pass it on to the leader.

use vstd::prelude::*;
use crate::engine::Engine;
use crate::messages::{AppendEntriesRequest, Replication, SnapshotMeta};
use crate::preservation::{
    lemma_append_counted_keeps, lemma_appended, lemma_timed_out_keeps, lemma_vote_counted_keeps,
    lemma_voted_keeps, lemma_with_members, lemma_written_keeps,
};
use crate::protocol::{
    append_well_formed, AppendReply, EngineState, Role, SnapshotReply, SnapshotView, VoteReply,
    VoteRequest,
};
use crate::state_machine::{
    payload_effect, payload_result, records_store, records_valid, Record, StateMachine, StoreView,
    Stored,
};
use crate::types::{
    copy_ids, AppliedState, CommandView, LogId, MetadataCommand, NodeId, Payload, PayloadView,
};

verus! {

/// A request that is answered from the node's own state, without the log. What it
/// reads may lag behind the leader.
#[derive(Debug, PartialEq, Eq)]
pub enum AdminRequest {
    /// What the store holds under a key.
    Get(String),
    /// The node's role, term and known leader.
    Status,
}

/// What a client asks for.
#[derive(Debug, PartialEq, Eq)]
pub enum ForwardRequestBody {
    /// A mutation of the key/value namespace: it goes through the leader's log.
    Write(MetadataCommand),
    /// A question to the node that receives it.
    Admin(AdminRequest),
}

/// A client request that a node may pass on to the leader.
#[derive(Debug, PartialEq, Eq)]
pub struct ForwardRequest {
    /// How often the request may still be passed on.
    pub forward_to_leader: u64,
    pub body: ForwardRequestBody,
}

/// What an `AdminRequest` is, as plain values.
pub enum AdminView {
    Get(Seq<char>),
    Status,
}

/// What a `ForwardRequestBody` is, as plain values.
pub enum BodyView {
    Write(CommandView),
    Admin(AdminView),
}

/// What a `ForwardRequest` is, as plain values.
pub struct ForwardView {
    pub forward_to_leader: u64,
    pub body: BodyView,
}

impl View for AdminRequest {
    type V = AdminView;

    open spec fn view(&self) -> AdminView {
        match *self {
            AdminRequest::Get(key) => AdminView::Get(key@),
            AdminRequest::Status => AdminView::Status,
        }
    }
}

impl View for ForwardRequestBody {
    type V = BodyView;

    open spec fn view(&self) -> BodyView {
        match *self {
            ForwardRequestBody::Write(cmd) => BodyView::Write(cmd@),
            ForwardRequestBody::Admin(a) => BodyView::Admin(a@),
        }
    }
}

impl View for ForwardRequest {
    type V = ForwardView;

    open spec fn view(&self) -> ForwardView {
        ForwardView { forward_to_leader: self.forward_to_leader, body: self.body@ }
    }
}

/// Why a node neither took a request nor passed it on.
#[derive(Clone, Copy, Debug, PartialEq, Eq, Structural)]
pub enum ForwardError {
    /// The node is no leader and knows of none.
    NoLeader,
    /// The node is no leader and the request may not be passed on any more.
    ForwardLoop,
    /// The node is the leader and its log has no index left.
    LogFull,
}

/// A node's answer to `AdminRequest::Status`.
#[derive(Clone, Copy, Debug, PartialEq, Eq, Structural)]
pub struct NodeStatus {
    pub id: NodeId,
    pub role: Role,
    pub term: u64,
    pub leader: Option<NodeId>,
    pub commit_index: u64,
    pub last_applied: u64,
}

/// The answer to an `AdminRequest`.
#[derive(Debug, PartialEq, Eq)]
pub enum AdminReply {
    /// The version and value under the key, where the store holds it.
    Value(Option<(u64, String)>),
    Status(NodeStatus),
}

/// What an `AdminReply` is, as plain values.
pub enum AdminReplyView {
    Value(Option<Stored>),
    Status(NodeStatus),
}

impl View for AdminReply {
    type V = AdminReplyView;

    open spec fn view(&self) -> AdminReplyView {
        match *self {
            AdminReply::Value(Some(found)) => AdminReplyView::Value(
                Some(Stored { version: found.0, value: found.1@ }),
            ),
            AdminReply::Value(None) => AdminReplyView::Value(None),
            AdminReply::Status(s) => AdminReplyView::Status(s),
        }
    }
}

/// What became of a request that a node handled.
#[derive(Debug, PartialEq, Eq)]
pub enum Handled {
    /// The write stands in the leader's log at this position; its result comes when
    /// the entry is applied.
    Pending(LogId),
    /// The request is to be sent on to `to`, as `request`.
    Forward { to: NodeId, request: ForwardRequest },
    /// The node answered from its own state.
    Answer(AdminReply),
}

/// What a `Handled` is, as plain values.
pub enum HandledView {
    Pending(LogId),
    Forward { to: NodeId, request: ForwardView },
    Answer(AdminReplyView),
}

impl View for Handled {
    type V = HandledView;

    open spec fn view(&self) -> HandledView {
        match *self {
            Handled::Pending(id) => HandledView::Pending(id),
            Handled::Forward { to, request } => HandledView::Forward { to, request: request@ },
            Handled::Answer(a) => HandledView::Answer(a@),
        }
    }
}

/// The result of one applied entry.
#[derive(Clone, Copy, Debug, PartialEq, Eq, Structural)]
pub struct Applied {
    /// Position of the entry.
    pub id: LogId,
    pub state: AppliedState,
}

/// What a caller that waits for a write learns from an applied entry.
#[derive(Clone, Copy, Debug, PartialEq, Eq, Structural)]
pub enum Outcome {
    /// The applied entry stands at another index: the caller waits on.
    Waiting,
    /// The caller's entry was applied, with this result.
    Done(AppliedState),
    /// Another leader's entry stands at the caller's index: the write is lost.
    Lost,
}

/// What the caller that waits for the write at `pending` learns from `applied`.
pub open spec fn settled(pending: LogId, applied: Applied) -> Outcome {
    if applied.id.index != pending.index {
        Outcome::Waiting
    } else if applied.id.term == pending.term {
        Outcome::Done(applied.state)
    } else {
        Outcome::Lost
    }
}

/// Decides `settled`.
pub fn settle(pending: LogId, applied: Applied) -> (r: Outcome)
    ensures
        r == settled(pending, applied),
{
    if applied.id.index != pending.index {
        Outcome::Waiting
    } else if applied.id.term == pending.term {
        Outcome::Done(applied.state)
    } else {
        Outcome::Lost
    }
}

/// One node's state: its consensus state, its store, and how far the log is applied.
pub struct NodeState {
    pub engine: EngineState,
    pub store: StoreView,
    pub last_applied: u64,
}

impl NodeState {
    /// The state's invariant: entries are applied from the snapshot on, up to the
    /// commit index at most.
    pub open spec fn wf(self) -> bool {
        &&& self.engine.wf()
        &&& self.engine.snapshot.index <= self.last_applied <= self.engine.commit_index
    }

    /// Whether a committed entry waits to be applied.
    pub open spec fn has_pending(self) -> bool {
        self.last_applied < self.engine.commit_index
    }

    /// The state after the next committed entry was applied: a command changes the
    /// store, a membership changes the members.
    pub open spec fn applied_next(self) -> NodeState {
        if self.has_pending() {
            let entry = self.engine.entry_at(self.last_applied + 1);
            NodeState {
                engine: match entry.payload {
                    PayloadView::Membership(m) => self.engine.with_members(m),
                    _ => self.engine,
                },
                store: payload_effect(self.store, entry.payload),
                last_applied: (self.last_applied + 1) as u64,
            }
        } else {
            self
        }
    }

    /// The result of applying the next committed entry, where one waits.
    pub open spec fn next_result(self) -> Option<Applied> {
        if self.has_pending() {
            let entry = self.engine.entry_at(self.last_applied + 1);
            Some(Applied { id: entry.id(), state: payload_result(self.store, entry.payload) })
        } else {
            None
        }
    }

    /// The state after every committed entry was applied, in index order.
    pub open spec fn applied_all(self) -> NodeState
        decreases self.engine.commit_index - self.last_applied,
        when self.applied_next().engine.commit_index == self.engine.commit_index
    {
        if self.has_pending() {
            self.applied_next().applied_all()
        } else {
            self
        }
    }

    /// The results of applying every committed entry, in index order.
    pub open spec fn all_results(self) -> Seq<Applied>
        decreases self.engine.commit_index - self.last_applied,
        when self.applied_next().engine.commit_index == self.engine.commit_index
    {
        if self.has_pending() {
            seq![self.next_result().unwrap()] + self.applied_next().all_results()
        } else {
            Seq::empty()
        }
    }

    /// What the node reports of itself.
    pub open spec fn status(self) -> NodeStatus {
        NodeStatus {
            id: self.engine.id,
            role: self.engine.role,
            term: self.engine.current_term,
            leader: self.engine.leader,
            commit_index: self.engine.commit_index,
            last_applied: self.last_applied,
        }
    }

    /// The answer to an admin request, from the node's own state.
    pub open spec fn answer(self, req: AdminView) -> AdminReplyView {
        match req {
            AdminView::Get(key) => AdminReplyView::Value(
                if self.store.contains_key(key) {
                    Some(self.store[key])
                } else {
                    None
                },
            ),
            AdminView::Status => AdminReplyView::Status(self.status()),
        }
    }

    /// What the node does with a request. An admin request is answered here. A write
    /// goes into the log where the node is the leader. Elsewhere it is passed on to
    /// the leader that the node knows of, with one hop less, as long as the request
    /// has a hop left.
    pub open spec fn handled(self, req: ForwardView) -> Result<HandledView, ForwardError> {
        match req.body {
            BodyView::Admin(a) => Ok(HandledView::Answer(self.answer(a))),
            BodyView::Write(cmd) => {
                if self.engine.role == Role::Leader {
                    match self.engine.write_result(PayloadView::Write(cmd)) {
                        Ok(id) => Ok(HandledView::Pending(id)),
                        Err(_) => Err(ForwardError::LogFull),
                    }
                } else if req.forward_to_leader == 0 {
                    Err(ForwardError::ForwardLoop)
                } else if self.engine.leader.is_some() && self.engine.leader != Some(
                    self.engine.id,
                ) {
                    Ok(
                        HandledView::Forward {
                            to: self.engine.leader.unwrap(),
                            request: ForwardView {
                                forward_to_leader: (req.forward_to_leader - 1) as u64,
                                body: req.body,
                            },
                        },
                    )
                } else {
                    Err(ForwardError::NoLeader)
                }
            },
        }
    }

    /// The state after a request: only a write that the leader takes changes it.
    pub open spec fn after_request(self, req: ForwardView) -> NodeState {
        match req.body {
            BodyView::Write(cmd) => NodeState {
                engine: self.engine.written(PayloadView::Write(cmd)),
                ..self
            },
            BodyView::Admin(_) => self,
        }
    }

    /// The state after an install-snapshot request with the store `contents`: where
    /// the engine installs the snapshot, the store is the snapshot's and the log counts
    /// as applied up to the snapshot's index.
    pub open spec fn snapshot_installed(self, req: SnapshotView, contents: StoreView) -> NodeState {
        if self.engine.snapshot_reply(req).installed {
            NodeState {
                engine: self.engine.snapshot_installed(req),
                store: contents,
                last_applied: req.last.index,
            }
        } else {
            NodeState { engine: self.engine.snapshot_installed(req), ..self }
        }
    }
}

/// The coordinator of one process.
pub struct MetaNode {
    engine: Engine,
    store: StateMachine,
    last_applied: u64,
}

impl View for MetaNode {
    type V = NodeState;

    closed spec fn view(&self) -> NodeState {
        NodeState { engine: self.engine@, store: self.store@, last_applied: self.last_applied }
    }
}

impl MetaNode {
    /// The node's invariant.
    pub closed spec fn wf(&self) -> bool {
        self@.wf() && self.store.wf()
    }

    /// A node that has never run, with an empty store.
    pub fn new(id: NodeId, members: &Vec<NodeId>) -> (r: MetaNode)
        ensures
            r.wf(),
            r@ == (NodeState {
                engine: EngineState::initial(id, members@),
                store: Map::empty(),
                last_applied: 0,
            }),
    {
        MetaNode { engine: Engine::new(id, members), store: StateMachine::new(), last_applied: 0 }
    }

    /// Index of the last entry that was applied to the store.
    pub fn last_applied(&self) -> (r: u64)
        ensures
            r == self@.last_applied,
    {
        self.last_applied
    }

    /// The consensus engine, to read.
    pub fn engine(&self) -> (r: &Engine)
        ensures
            r@ == self@.engine,
    {
        &self.engine
    }

    /// The store, to read.
    pub fn store(&self) -> (r: &StateMachine)
        ensures
            r@ == self@.store,
            self.wf() ==> r.wf(),
    {
        &self.store
    }

    /// What the node reports of itself.
    pub fn status(&self) -> (r: NodeStatus)
        ensures
            r == self@.status(),
    {
        NodeStatus {
            id: self.engine.id(),
            role: self.engine.role(),
            term: self.engine.current_term(),
            leader: self.engine.leader(),
            commit_index: self.engine.commit_index(),
            last_applied: self.last_applied,
        }
    }

    /// Answers an admin request from the node's own state.
    pub fn answer(&self, req: &AdminRequest) -> (r: AdminReply)
        requires
            self.wf(),
        ensures
            r@ == self@.answer(req@),
    {
        match req {
            AdminRequest::Get(key) => AdminReply::Value(self.store.get(key)),
            AdminRequest::Status => AdminReply::Status(self.status()),
        }
    }

    /// Handles a client request. The leader writes a command into its log and returns
    /// the entry's position: the result comes when the entry is applied. Another node
    /// returns the request to pass on, with one hop less, and the leader to send it
    /// to. It fails with `ForwardLoop` where no hop is left, with `NoLeader` where it
    /// knows no other node as leader. An admin request is answered at once.
    pub fn handle_forwardable_request(&mut self, req: ForwardRequest) -> (r: Result<
        Handled,
        ForwardError,
    >)
        requires
            old(self).wf(),
        ensures
            final(self).wf(),
            final(self)@ == old(self)@.after_request(req@),
            match r {
                Ok(h) => old(self)@.handled(req@) == Ok::<HandledView, ForwardError>(h@),
                Err(e) => old(self)@.handled(req@) == Err::<HandledView, ForwardError>(e),
            },
    {
        let ghost rv = req@;
        let hops = req.forward_to_leader;
        match req.body {
            ForwardRequestBody::Admin(a) => Ok(Handled::Answer(self.answer(&a))),
            ForwardRequestBody::Write(cmd) => {
                if self.engine.role() == Role::Leader {
                    proof {
                        lemma_written_keeps(self.engine@, PayloadView::Write(cmd@));
                    }
                    match self.engine.client_write(Payload::Write(cmd)) {
                        Ok(id) => Ok(Handled::Pending(id)),
                        Err(_) => Err(ForwardError::LogFull),
                    }
                } else if hops == 0 {
                    Err(ForwardError::ForwardLoop)
                } else {
                    match self.engine.leader() {
                        Some(to) => {
                            if to != self.engine.id() {
                                Ok(
                                    Handled::Forward {
                                        to,
                                        request: ForwardRequest {
                                            forward_to_leader: hops - 1,
                                            body: ForwardRequestBody::Write(cmd),
                                        },
                                    },
                                )
                            } else {
                                Err(ForwardError::NoLeader)
                            }
                        },
                        None => Err(ForwardError::NoLeader),
                    }
                }
            },
        }
    }

    /// Applies the next committed entry, if one waits: a command changes the store, a
    /// membership changes the members. Entries are applied in index order without
    /// gaps.
    pub fn apply_next(&mut self) -> (r: Option<Applied>)
        requires
            old(self).wf(),
        ensures
            final(self).wf(),
            final(self)@ == old(self)@.applied_next(),
            r == old(self)@.next_result(),
    {
        if self.last_applied >= self.engine.commit_index() {
            return None;
        }
        let index = self.last_applied + 1;
        let ghost e0 = self.engine@;
        let (id, state, members) = match self.engine.entry(index) {
            Some(e) => {
                let state = self.store.apply(e);
                let members = match &e.payload {
                    Payload::Membership(m) => Some(copy_ids(m)),
                    _ => None,
                };
                (e.log_id(), state, members)
            },
            None => {
                assert(false);
                return None;
            },
        };
        match members {
            Some(m) => {
                proof {
                    lemma_with_members(e0, m@);
                }
                self.engine.set_members(&m);
            },
            None => {},
        }
        self.last_applied = index;
        Some(Applied { id, state })
    }

    /// Applies every committed entry that waits, in index order, and returns the
    /// results in that order.
    pub fn apply_committed(&mut self) -> (r: Vec<Applied>)
        requires
            old(self).wf(),
        ensures
            final(self).wf(),
            final(self)@ == old(self)@.applied_all(),
            r@ == old(self)@.all_results(),
            !final(self)@.has_pending(),
    {
        let mut out: Vec<Applied> = Vec::new();
        loop
            invariant
                self.wf(),
                self@.applied_all() == old(self)@.applied_all(),
                out@ + self@.all_results() == old(self)@.all_results(),
            ensures
                self.wf(),
                self@ == old(self)@.applied_all(),
                out@ == old(self)@.all_results(),
                !self@.has_pending(),
            decreases self@.engine.commit_index - self@.last_applied,
        {
            let ghost before = self@;
            proof {
                lemma_applied_next(before);
            }
            match self.apply_next() {
                Some(a) => {
                    out.push(a);
                    assert(out@ + self@.all_results() =~= old(self)@.all_results());
                },
                None => {
                    assert(!self@.has_pending());
                    assert(self@.applied_all() == self@);
                    assert(self@.all_results() =~= Seq::<Applied>::empty());
                    assert(out@ + self@.all_results() =~= out@);
                    break ;
                },
            }
        }
        out
    }

    /// The election timer ran out: see `Engine::election_timeout`.
    pub fn election_timeout(&mut self) -> (r: Option<VoteRequest>)
        requires
            old(self).wf(),
        ensures
            final(self).wf(),
            final(self)@ == (NodeState { engine: old(self)@.engine.timed_out(), ..old(self)@ }),
            r == old(self)@.engine.campaign_request(),
    {
        proof {
            lemma_timed_out_keeps(self.engine@);
        }
        self.engine.election_timeout()
    }

    /// Answers a vote request: see `Engine::vote`.
    pub fn vote(&mut self, req: VoteRequest) -> (r: VoteReply)
        requires
            old(self).wf(),
        ensures
            final(self).wf(),
            final(self)@ == (NodeState { engine: old(self)@.engine.voted(req), ..old(self)@ }),
            r == old(self)@.engine.vote_reply(req),
    {
        proof {
            lemma_voted_keeps(self.engine@, req);
        }
        self.engine.vote(req)
    }

    /// Takes an answer to a vote request: see `Engine::handle_vote_reply`.
    pub fn handle_vote_reply(&mut self, from: NodeId, reply: VoteReply)
        requires
            old(self).wf(),
        ensures
            final(self).wf(),
            final(self)@ == (NodeState {
                engine: old(self)@.engine.vote_counted(from, reply),
                ..old(self)@
            }),
    {
        proof {
            lemma_vote_counted_keeps(self.engine@, from, reply);
        }
        self.engine.handle_vote_reply(from, reply)
    }

    /// Takes a leader's entries: see `Engine::append_entries`. What was applied stays
    /// applied: no committed entry leaves the log.
    pub fn append_entries(&mut self, req: AppendEntriesRequest) -> (r: AppendReply)
        requires
            old(self).wf(),
            append_well_formed(req@),
        ensures
            final(self).wf(),
            final(self)@ == (NodeState { engine: old(self)@.engine.appended(req@), ..old(self)@ }),
            r == old(self)@.engine.append_reply(req@),
    {
        proof {
            lemma_appended(self.engine@, req@);
        }
        self.engine.append_entries(req)
    }

    /// Takes an answer to append-entries: see `Engine::handle_append_reply`.
    pub fn handle_append_reply(&mut self, from: NodeId, reply: AppendReply)
        requires
            old(self).wf(),
        ensures
            final(self).wf(),
            final(self)@ == (NodeState {
                engine: old(self)@.engine.append_counted(from, reply),
                ..old(self)@
            }),
    {
        proof {
            lemma_append_counted_keeps(self.engine@, from, reply);
        }
        self.engine.handle_append_reply(from, reply)
    }

    /// What the leader sends to `to` next: see `Engine::replicate_to`.
    pub fn replicate_to(&self, to: NodeId) -> (r: Replication)
        requires
            self.wf(),
        ensures
            r@ == self@.engine.replication(to),
    {
        self.engine.replicate_to(to)
    }

    /// Takes a leader's snapshot: its stamp and the store's contents as records.
    /// Records that cannot be a store's contents are refused with `None`, and
    /// nothing changes. Otherwise see `Engine::install_snapshot`; where the engine
    /// installs the snapshot, the store's contents are replaced by the records in the
    /// same step.
    pub fn install_snapshot(&mut self, req: &SnapshotMeta, records: Vec<Record>) -> (r: Option<
        SnapshotReply,
    >)
        requires
            old(self).wf(),
        ensures
            final(self).wf(),
            !records_valid(records@) ==> r.is_none() && final(self)@ == old(self)@,
            records_valid(records@) ==> r == Some(old(self)@.engine.snapshot_reply(req@))
                && final(self)@ == old(self)@.snapshot_installed(req@, records_store(records@)),
    {
        let store = match StateMachine::from_records(records) {
            Some(s) => s,
            None => {
                return None;
            },
        };
        let reply = self.engine.install_snapshot(req);
        if reply.installed {
            self.store = store;
            self.last_applied = req.last.index;
        }
        Some(reply)
    }

    /// Takes a snapshot of the store as of the last applied entry and cuts the log up
    /// to there. Returns the snapshot's position, the members as of that position,
    /// and the store's contents as records.
    pub fn snapshot(&mut self) -> (r: (LogId, Vec<NodeId>, Vec<Record>))
        requires
            old(self).wf(),
        ensures
            final(self).wf(),
            final(self)@ == (NodeState {
                engine: old(self)@.engine.compacted(old(self)@.last_applied),
                ..old(self)@
            }),
            r.0 == final(self)@.engine.snapshot,
            r.0.index == old(self)@.last_applied,
            r.1@ == old(self)@.engine.members,
            records_valid(r.2@),
            records_store(r.2@) == old(self)@.store,
    {
        self.engine.compact(self.last_applied);
        (self.engine.snapshot_id(), self.engine.members(), self.store.to_records())
    }
}

/// Applying the next entry keeps the state well formed and the commit index, and
/// moves one entry on.
pub proof fn lemma_applied_next(s: NodeState)
    requires
        s.wf(),
    ensures
        s.applied_next().wf(),
        s.applied_next().engine.commit_index == s.engine.commit_index,
        s.has_pending() ==> s.applied_next().last_applied == s.last_applied + 1,
{
    if s.has_pending() {
        let entry = s.engine.entry_at(s.last_applied + 1);
        match entry.payload {
            PayloadView::Membership(m) => {
                lemma_with_members(s.engine, m);
            },
            _ => {},
        }
    }
}

} // verus!
