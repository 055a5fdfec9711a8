//! The requests between nodes that carry more than plain numbers.

use vstd::prelude::*;
use crate::protocol::{append_well_formed, AppendView, ReplicationView, SnapshotView};
use crate::types::{copy_ids, entries_view, LogEntry, LogId, NodeId};

verus! {

/// A leader's request to take entries into the log; without entries, a heartbeat.
#[derive(Debug, PartialEq, Eq)]
pub struct AppendEntriesRequest {
    pub term: u64,
    pub leader: NodeId,
    /// Position of the entry just before `entries`.
    pub prev: LogId,
    pub entries: Vec<LogEntry>,
    pub leader_commit: u64,
}

impl View for AppendEntriesRequest {
    type V = AppendView;

    open spec fn view(&self) -> AppendView {
        AppendView {
            term: self.term,
            leader: self.leader,
            prev: self.prev,
            entries: entries_view(self.entries@),
            leader_commit: self.leader_commit,
        }
    }
}

impl AppendEntriesRequest {
    /// Whether the entries follow `prev` by increasing index without gaps, and end
    /// below the largest number.
    pub fn is_well_formed(&self) -> (r: bool)
        ensures
            r == append_well_formed(self@),
    {
        let n = self.entries.len();
        if n as u64 >= u64::MAX - self.prev.index {
            return false;
        }
        let mut i: usize = 0;
        while i < n
            invariant
                i <= n,
                n == self.entries.len(),
                self.prev.index + n < u64::MAX,
                forall|j: int|
                    0 <= j < i ==> (#[trigger] self@.entries[j]).index == self.prev.index + 1 + j,
            decreases n - i,
        {
            assert(self@.entries[i as int] == self.entries@[i as int]@);
            if self.entries[i].index != self.prev.index + 1 + i as u64 {
                return false;
            }
            i += 1;
        }
        true
    }
}

/// The stamp of a snapshot that a leader sends: its position in the log and the
/// members as of that position. The snapshot's contents travel beside it.
#[derive(Debug, PartialEq, Eq)]
pub struct SnapshotMeta {
    pub term: u64,
    pub leader: NodeId,
    /// Position of the last entry that the snapshot covers.
    pub last: LogId,
    pub members: Vec<NodeId>,
}

impl View for SnapshotMeta {
    type V = SnapshotView;

    open spec fn view(&self) -> SnapshotView {
        SnapshotView {
            term: self.term,
            leader: self.leader,
            last: self.last,
            members: self.members@,
        }
    }
}

impl Clone for SnapshotMeta {
    fn clone(&self) -> (r: Self)
        ensures
            r@ == self@,
    {
        SnapshotMeta {
            term: self.term,
            leader: self.leader,
            last: self.last,
            members: copy_ids(&self.members),
        }
    }
}

/// What a leader sends a member next.
#[derive(Debug, PartialEq, Eq)]
pub enum Replication {
    /// Nothing: this node is no leader, or the target is no other member.
    Idle,
    /// The entries from the member's next index on; none is a heartbeat.
    Entries(AppendEntriesRequest),
    /// A snapshot: the member needs entries that the log no longer holds.
    Snapshot,
}

impl View for Replication {
    type V = ReplicationView;

    open spec fn view(&self) -> ReplicationView {
        match *self {
            Replication::Idle => ReplicationView::Idle,
            Replication::Entries(req) => ReplicationView::Entries(req@),
            Replication::Snapshot => ReplicationView::Snapshot,
        }
    }
}

} // verus!
