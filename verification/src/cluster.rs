//! A cluster as mathematics: the states of its nodes, the messages under way, and
//! the events that change them. Messages may be lost, repeated and overtaken: an
//! event may deliver any message that was ever sent, any number of times, or never.
//! A partition is the case that some messages are not delivered; a crash is a
//! restart. The members are fixed, and no node cuts its log: the model has no event
//! that puts a membership entry into effect or that takes or installs a snapshot.
//!
//! Beside what the nodes and the network hold, the state records what has happened:
//! the votes that were granted, the elections that were won, the log with which each
//! campaign began, the log of each term's leader, which entries of a leader each node
//! has taken, which entries a leader has counted as committed, and with each
//! append-entries request the sender's log. The records take no part in what the
//! nodes do; the laws are proved with their help.

use vstd::prelude::*;
use crate::protocol::{
    append_well_formed, distinct, AppendReply, AppendView, EngineState, Role, VoteReply,
    VoteRequest,
};
use crate::types::{EntryView, NodeId, PayloadView};

verus! {

/// A vote reply on its way from `from` to `to`.
pub struct VoteReplyMsg {
    pub from: NodeId,
    pub to: NodeId,
    pub reply: VoteReply,
}

/// An append-entries request on its way to `to`, with the sender's log when it was
/// sent and the votes that had made the sender leader.
pub struct AppendMsg {
    pub to: NodeId,
    pub req: AppendView,
    pub log: Seq<EntryView>,
    pub voters: Seq<NodeId>,
}

/// An append-entries reply on its way from `from` to `to`.
pub struct AppendReplyMsg {
    pub from: NodeId,
    pub to: NodeId,
    pub reply: AppendReply,
}

/// The record of a vote that `voter` granted to `candidate` in `term`.
pub struct Grant {
    pub voter: NodeId,
    pub term: u64,
    pub candidate: NodeId,
}

/// The record of an election that `leader` won in `term` with the votes of `voters`.
pub struct Election {
    pub term: u64,
    pub leader: NodeId,
    pub voters: Seq<NodeId>,
}

/// The record that `voter` held the first `index` entries of the log of the leader
/// of `term` when it answered that leader, or was that leader.
pub struct Ack {
    pub voter: NodeId,
    pub term: u64,
    pub index: int,
}

/// The record that the leader of `term` moved its commit index to `index` on the
/// word of the members in `quorum`.
pub struct Commit {
    pub term: u64,
    pub index: int,
    pub quorum: Seq<NodeId>,
}

/// A cluster: nodes, network, and the record of what has happened.
pub struct Cluster {
    pub members: Seq<NodeId>,
    pub nodes: Map<NodeId, EngineState>,
    pub vote_requests: Set<VoteRequest>,
    pub vote_replies: Set<VoteReplyMsg>,
    pub appends: Set<AppendMsg>,
    pub append_replies: Set<AppendReplyMsg>,
    pub grants: Set<Grant>,
    pub elections: Set<Election>,
    /// The log of each candidate when it began its campaign, by term and candidate.
    pub campaigns: Map<(u64, NodeId), Seq<EntryView>>,
    /// The log of the leader of each term, as it was when the leader last changed it.
    pub leader_logs: Map<u64, Seq<EntryView>>,
    pub acks: Set<Ack>,
    pub commits: Set<Commit>,
}

/// The records that `voter` held the first `upto` entries of the log of the leader
/// of `term`, and so each shorter beginning of it.
pub open spec fn acks_upto(voter: NodeId, term: u64, upto: int) -> Set<Ack> {
    Set::new(|a: Ack| a.voter == voter && a.term == term && 1 <= a.index <= upto)
}

/// The members among the first `upto` that the leader `s` knows to store the entry
/// at `index`, in the order of the members.
pub open spec fn storing(s: EngineState, index: int, upto: int) -> Seq<NodeId>
    decreases upto,
{
    if upto <= 0 {
        Seq::empty()
    } else if s.stored_by(upto - 1, index) {
        storing(s, index, upto - 1).push(s.members[upto - 1])
    } else {
        storing(s, index, upto - 1)
    }
}

/// What can happen in a cluster.
pub enum Event {
    /// The election timer of a node runs out.
    Timeout(NodeId),
    /// A node crashes and starts again.
    Restart(NodeId),
    /// A node receives a vote request that was sent.
    DeliverVoteRequest(NodeId, VoteRequest),
    /// A node receives a vote reply that was sent to it.
    DeliverVoteReply(VoteReplyMsg),
    /// A client asks a node to write.
    Write(NodeId, PayloadView),
    /// A node sends another what `replication` gives for it.
    SendAppend(NodeId, NodeId),
    /// A node receives an append-entries request that was sent to it.
    DeliverAppend(AppendMsg),
    /// A node receives an append-entries reply that was sent to it.
    DeliverAppendReply(AppendReplyMsg),
}

impl Cluster {
    /// A cluster of `members` in which nothing has happened yet.
    pub open spec fn start(members: Seq<NodeId>) -> Cluster {
        Cluster {
            members: distinct(members),
            nodes: Map::new(
                |id: NodeId| members.contains(id),
                |id: NodeId| EngineState::initial(id, members),
            ),
            vote_requests: Set::empty(),
            vote_replies: Set::empty(),
            appends: Set::empty(),
            append_replies: Set::empty(),
            grants: Set::empty(),
            elections: Set::empty(),
            campaigns: Map::empty(),
            leader_logs: Map::empty(),
            acks: Set::empty(),
            commits: Set::empty(),
        }
    }

    /// Whether `id` is a node of the cluster.
    pub open spec fn has(self, id: NodeId) -> bool {
        self.nodes.contains_key(id)
    }

    /// Whether `event` can happen: only a node of the cluster acts, and only a message
    /// that was sent is delivered. An append-entries request that is not well formed
    /// is not delivered: the service refuses it.
    pub open spec fn enabled(self, event: Event) -> bool {
        match event {
            Event::Timeout(n) => self.has(n),
            Event::Restart(n) => self.has(n),
            Event::DeliverVoteRequest(n, req) => self.has(n) && self.vote_requests.contains(req),
            Event::DeliverVoteReply(m) => self.has(m.to) && self.vote_replies.contains(m),
            Event::Write(n, _) => self.has(n),
            Event::SendAppend(n, to) => self.has(n) && self.nodes[n].replication(
                to,
            ) is Entries,
            Event::DeliverAppend(m) => self.has(m.to) && self.appends.contains(m)
                && append_well_formed(m.req),
            Event::DeliverAppendReply(m) => self.has(m.to) && self.append_replies.contains(m),
        }
    }

    /// The cluster with the state of node `n` replaced.
    pub open spec fn with_node(self, n: NodeId, state: EngineState) -> Cluster {
        Cluster { nodes: self.nodes.insert(n, state), ..self }
    }

    /// The cluster with the election recorded that `n` has just won, where `before`
    /// was no leader's state and the node's state now is a leader's.
    pub open spec fn with_election(self, n: NodeId, before: EngineState) -> Cluster {
        let now = self.nodes[n];
        if before.role != Role::Leader && now.role == Role::Leader {
            Cluster {
                elections: self.elections.insert(
                    Election { term: now.current_term, leader: n, voters: now.votes },
                ),
                ..self
            }
        } else {
            self
        }
    }

    /// The cluster with the records brought up to date after node `n`, whose state
    /// was `before`, has acted: where it is leader now, its log is the log of its
    /// term's leader, it holds every entry of that log, and a commit index that it
    /// has raised is on record with the members that store the entry.
    pub open spec fn recorded(self, n: NodeId, before: EngineState) -> Cluster {
        let now = self.nodes[n];
        if now.role == Role::Leader {
            Cluster {
                leader_logs: self.leader_logs.insert(now.current_term, now.log),
                acks: self.acks.union(acks_upto(n, now.current_term, now.log.len() as int)),
                commits: if now.commit_index > before.commit_index {
                    self.commits.insert(
                        Commit {
                            term: now.current_term,
                            index: now.commit_index as int,
                            quorum: storing(
                                now,
                                now.commit_index as int,
                                now.members.len() as int,
                            ),
                        },
                    )
                } else {
                    self.commits
                },
                ..self
            }
        } else {
            self
        }
    }

    /// The cluster after `event`. An event that cannot happen changes nothing.
    pub open spec fn after(self, event: Event) -> Cluster {
        if !self.enabled(event) {
            self
        } else {
            match event {
                Event::Timeout(n) => {
                    let s = self.nodes[n];
                    if s.may_campaign() {
                        Cluster {
                            vote_requests: self.vote_requests.insert(
                                s.campaign_request().unwrap(),
                            ),
                            grants: self.grants.insert(
                                Grant {
                                    voter: n,
                                    term: (s.current_term + 1) as u64,
                                    candidate: n,
                                },
                            ),
                            campaigns: self.campaigns.insert(
                                ((s.current_term + 1) as u64, n),
                                s.log,
                            ),
                            ..self
                        }.with_node(n, s.timed_out()).with_election(n, s).recorded(n, s)
                    } else {
                        self
                    }
                },
                Event::Restart(n) => self.with_node(n, self.nodes[n].restarted()),
                Event::DeliverVoteRequest(n, req) => {
                    let s = self.nodes[n];
                    Cluster {
                        vote_replies: self.vote_replies.insert(
                            VoteReplyMsg { from: n, to: req.candidate, reply: s.vote_reply(req) },
                        ),
                        grants: if s.grants(req) {
                            self.grants.insert(
                                Grant { voter: n, term: req.term, candidate: req.candidate },
                            )
                        } else {
                            self.grants
                        },
                        ..self
                    }.with_node(n, s.voted(req))
                },
                Event::DeliverVoteReply(m) => {
                    let s = self.nodes[m.to];
                    self.with_node(m.to, s.vote_counted(m.from, m.reply)).with_election(
                        m.to,
                        s,
                    ).recorded(m.to, s)
                },
                Event::Write(n, payload) => self.with_node(
                    n,
                    self.nodes[n].written(payload),
                ).recorded(n, self.nodes[n]),
                Event::SendAppend(n, to) => Cluster {
                    appends: self.appends.insert(
                        AppendMsg {
                            to,
                            req: self.nodes[n].replication(to)->Entries_0,
                            log: self.nodes[n].log,
                            voters: self.nodes[n].votes,
                        },
                    ),
                    ..self
                },
                Event::DeliverAppend(m) => {
                    let s = self.nodes[m.to];
                    Cluster {
                        append_replies: self.append_replies.insert(
                            AppendReplyMsg {
                                from: m.to,
                                to: m.req.leader,
                                reply: s.append_reply(m.req),
                            },
                        ),
                        acks: if s.append_reply(m.req).success {
                            self.acks.union(
                                acks_upto(m.to, m.req.term, s.append_reply(m.req).match_index as int),
                            )
                        } else {
                            self.acks
                        },
                        ..self
                    }.with_node(m.to, s.appended(m.req))
                },
                Event::DeliverAppendReply(m) => self.with_node(
                    m.to,
                    self.nodes[m.to].append_counted(m.from, m.reply),
                ).recorded(m.to, self.nodes[m.to]),
            }
        }
    }

    /// The cluster after `events`, one after the other.
    pub open spec fn after_all(self, events: Seq<Event>) -> Cluster
        decreases events.len(),
    {
        if events.len() == 0 {
            self
        } else {
            self.after_all(events.drop_last()).after(events.last())
        }
    }
}

} // verus!
