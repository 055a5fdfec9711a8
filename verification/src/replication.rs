//! The engine's part in replication: taking a leader's entries and snapshots,
//! taking client writes as leader, and following the members' progress.

use vstd::prelude::*;
use crate::engine::{new_progress, Engine};
use crate::ids::{dedup, find};
use crate::messages::{AppendEntriesRequest, Replication, SnapshotMeta};
use crate::preservation::lemma_agreeing_run;
use crate::protocol::{
    append_well_formed, fresh_progress, AppendReply, EngineState, Progress, Role, SnapshotReply,
    WriteError,
};
use crate::types::{copy_entries_from, entries_view, EntryView, LogEntry, LogId, NodeId, Payload};

verus! {

impl Engine {
    /// How many log entries lie at or below `index`.
    fn offset(&self, index: u64) -> (r: usize)
        requires
            self@.wf(),
            self@.snapshot.index <= index <= self@.last_index(),
        ensures
            r == index - self@.snapshot.index,
            r <= self.log@.len(),
    {
        let n = self.log.len();
        assert(entries_view(self.log@).len() == n);
        let d = index - self.snapshot.index;
        assert(d <= n as u64);
        d as usize
    }

    /// Makes the node a follower of `leader` in `term`, which is not behind its own.
    fn follow(&mut self, term: u64, leader: NodeId)
        requires
            old(self)@.wf(),
            term >= old(self)@.current_term,
        ensures
            final(self)@ == old(self)@.following(term, leader),
            final(self)@.wf(),
    {
        if term > self.current_term {
            self.current_term = term;
            self.voted_for = None;
        }
        self.role = Role::Follower;
        self.leader = Some(leader);
        self.votes = Vec::new();
        assert(self@ =~= old(self)@.following(term, leader));
    }

    /// How many of the leading entries of `entries` the node already stores.
    fn agreeing_run(&self, entries: &Vec<LogEntry>) -> (r: usize)
        requires
            self@.wf(),
        ensures
            r == self@.agreeing_run(entries_view(entries@), 0),
            r <= entries.len(),
    {
        let ghost es = entries_view(entries@);
        let mut i: usize = 0;
        while i < entries.len()
            invariant
                i <= entries.len(),
                es == entries_view(entries@),
                self@.wf(),
                self@.agreeing_run(es, 0) == i + self@.agreeing_run(es, i as int),
            decreases entries.len() - i,
        {
            assert(es[i as int] == entries@[i as int]@);
            let stored = self.term_at(entries[i].index);
            let same = match stored {
                Some(t) => t == entries[i].term,
                None => false,
            };
            if !same {
                return i;
            }
            i += 1;
        }
        i
    }

    /// Takes a leader's request to append entries. A request of a term behind the
    /// node's own is refused and changes nothing. Otherwise the node follows the
    /// sender. It then takes the entries in where it stores the entry before them and
    /// would lose no committed entry: its log is cut at the first entry that differs
    /// in term and continued with the leader's, and its commit index moves up to the
    /// leader's, as far as the request reaches.
    pub fn append_entries(&mut self, req: AppendEntriesRequest) -> (r: AppendReply)
        requires
            old(self)@.wf(),
            append_well_formed(req@),
        ensures
            final(self)@ == old(self)@.appended(req@),
            r == old(self)@.append_reply(req@),
            final(self)@.wf(),
    {
        let mut req = req;
        let ghost rv = req@;
        let ghost s0 = self@;
        if req.term < self.current_term {
            return AppendReply { term: self.current_term, success: false, match_index: 0 };
        }
        self.follow(req.term, req.leader);
        let refused = AppendReply { term: req.term, success: false, match_index: 0 };
        if req.prev.index < self.snapshot.index {
            return AppendReply { term: req.term, success: true, match_index: self.snapshot.index };
        }
        let stored = self.term_at(req.prev.index);
        let holds_prev = match stored {
            Some(t) => t == req.prev.term,
            None => false,
        };
        if !holds_prev {
            return refused;
        }
        let n = req.entries.len();
        let k = self.agreeing_run(&req.entries);
        proof {
            lemma_agreeing_run(s0, rv);
            assert(self@.agreeing_run(rv.entries, 0) == s0.agreeing_run(rv.entries, 0)) by {
                lemma_agreeing_run_same_log(self@, s0, rv.entries, 0);
            }
        }
        if k < n {
            assert(rv.entries[k as int] == req.entries@[k as int]@);
            if req.entries[k].index <= self.commit_index {
                return refused;
            }
            let keep = self.offset(req.prev.index + k as u64);
            let mut tail = req.entries.split_off(k);
            let ghost before = self.log@;
            self.log.truncate(keep);
            self.log.append(&mut tail);
            assert(entries_view(self.log@) =~= s0.reconciled_log(rv));
        }
        let upto = req.prev.index + n as u64;
        let offered = if req.leader_commit < upto {
            req.leader_commit
        } else {
            upto
        };
        if offered > self.commit_index {
            self.commit_index = offered;
        }
        assert(self@ =~= s0.appended(rv));
        AppendReply { term: req.term, success: true, match_index: upto }
    }

    /// Takes a write as leader: the payload becomes the next entry of the current
    /// term, and the commit index moves where the node alone is a majority. Returns
    /// the entry's position. A node that is no leader refuses and names the leader it
    /// knows of.
    pub fn client_write(&mut self, payload: Payload) -> (r: Result<LogId, WriteError>)
        requires
            old(self)@.wf(),
        ensures
            final(self)@ == old(self)@.written(payload@),
            r == old(self)@.write_result(payload@),
            final(self)@.wf(),
    {
        if self.role != Role::Leader {
            return Err(WriteError::NotLeader { leader: self.leader });
        }
        let last = self.last_index();
        if last + 1 >= u64::MAX {
            return Err(WriteError::LogFull);
        }
        let id = LogId { term: self.current_term, index: last + 1 };
        let ghost pv = payload@;
        self.log.push(LogEntry { term: self.current_term, index: last + 1, payload });
        assert(entries_view(self.log@) =~= entries_view(old(self).log@).push(
            old(self)@.next_entry(pv),
        ));
        self.advance_commit();
        Ok(id)
    }

    /// Takes the answer of `from` to an append-entries request. A higher term makes
    /// the node a follower. A leader notes the member's progress and moves its commit
    /// index as far as a strict majority allows.
    pub fn handle_append_reply(&mut self, from: NodeId, reply: AppendReply)
        requires
            old(self)@.wf(),
        ensures
            final(self)@ == old(self)@.append_counted(from, reply),
            final(self)@.wf(),
    {
        if reply.term > self.current_term {
            self.observe_term(reply.term);
            return ;
        }
        if self.role != Role::Leader || reply.term != self.current_term || from == self.id {
            return ;
        }
        let k = find(&self.members, from);
        if k >= self.members.len() {
            return ;
        }
        let p = self.progress[k];
        let last = self.last_index();
        let q = if reply.success {
            let reported = if reply.match_index <= last {
                reply.match_index
            } else {
                last
            };
            let m = if reported > p.match_index {
                reported
            } else {
                p.match_index
            };
            Progress { next_index: m + 1, match_index: m }
        } else if p.next_index > p.match_index + 1 {
            Progress { next_index: p.next_index - 1, match_index: p.match_index }
        } else {
            p
        };
        assert(q == old(self)@.progress_after(p, reply));
        self.progress.set(k, q);
        self.advance_commit();
    }

    /// What the leader sends to `to` next: the entries from the member's next index
    /// on, or word that it needs a snapshot.
    pub fn replicate_to(&self, to: NodeId) -> (r: Replication)
        requires
            self@.wf(),
        ensures
            r@ == self@.replication(to),
    {
        if self.role != Role::Leader || to == self.id {
            return Replication::Idle;
        }
        let k = find(&self.members, to);
        if k >= self.members.len() {
            return Replication::Idle;
        }
        let next = self.progress[k].next_index;
        if next <= self.snapshot.index {
            return Replication::Snapshot;
        }
        let prev_term = match self.term_at(next - 1) {
            Some(t) => t,
            None => 0,
        };
        let from = self.offset(next - 1);
        let entries = copy_entries_from(&self.log, from);
        Replication::Entries(
            AppendEntriesRequest {
                term: self.current_term,
                leader: self.id,
                prev: LogId { term: prev_term, index: next - 1 },
                entries,
                leader_commit: self.commit_index,
            },
        )
    }

    /// Takes the stamp of a leader's snapshot. A request of a term behind the node's
    /// own is refused and changes nothing. Otherwise the node follows the sender, and
    /// where the snapshot reaches beyond its commit index, its log up to the snapshot's
    /// index gives way to the stamp, and the snapshot's members become its members.
    /// The answer says whether the caller is to replace the store's contents.
    pub fn install_snapshot(&mut self, req: &SnapshotMeta) -> (r: SnapshotReply)
        requires
            old(self)@.wf(),
        ensures
            final(self)@ == old(self)@.snapshot_installed(req@),
            r == old(self)@.snapshot_reply(req@),
            final(self)@.wf(),
    {
        let ghost s0 = self@;
        if req.term < self.current_term {
            return SnapshotReply { term: self.current_term, installed: false };
        }
        let stored = self.term_at(req.last.index);
        let last = self.last_index();
        self.follow(req.term, req.leader);
        if req.last.index <= self.commit_index || req.last.index == u64::MAX {
            return SnapshotReply { term: req.term, installed: false };
        }
        let agrees = req.last.index <= last && match stored {
            Some(t) => t == req.last.term,
            None => false,
        };
        if agrees {
            let at = self.offset(req.last.index);
            let tail = self.log.split_off(at);
            self.log = tail;
            assert(entries_view(self.log@) =~= s0.log.subrange(
                req.last.index - s0.snapshot.index,
                s0.log.len() as int,
            ));
        } else {
            self.log = Vec::new();
            assert(entries_view(self.log@) =~= Seq::empty());
        }
        self.snapshot = req.last;
        self.commit_index = req.last.index;
        self.members = dedup(&req.members);
        assert(self@ =~= s0.snapshot_installed(req@));
        SnapshotReply { term: req.term, installed: true }
    }

    /// Cuts the log up to `index` after the entries up to there went into a snapshot.
    /// Returns whether it did: only a committed entry that the log holds can be the
    /// last of a snapshot.
    pub fn compact(&mut self, index: u64) -> (r: bool)
        requires
            old(self)@.wf(),
        ensures
            final(self)@ == old(self)@.compacted(index),
            r == old(self)@.may_compact(index),
            final(self)@.wf(),
    {
        let ghost s0 = self@;
        if index <= self.snapshot.index || index > self.commit_index {
            return false;
        }
        let at = self.offset(index);
        assert(entries_view(self.log@)[at - 1] == self.log@[at - 1]@);
        let term = self.log[at - 1].term;
        let tail = self.log.split_off(at);
        self.log = tail;
        self.snapshot = LogId { term, index };
        assert(entries_view(self.log@) =~= s0.log.subrange(
            index - s0.snapshot.index,
            s0.log.len() as int,
        ));
        assert(self@ =~= s0.compacted(index));
        true
    }

    /// Puts a committed membership into effect. Repeated members count once; a leader
    /// starts its progress records anew.
    pub fn set_members(&mut self, members: &Vec<NodeId>)
        requires
            old(self)@.wf(),
        ensures
            final(self)@ == old(self)@.with_members(members@),
            final(self)@.wf(),
    {
        let last = self.last_index();
        self.members = dedup(members);
        if self.role == Role::Leader {
            self.progress = new_progress(self.members.len(), last);
            assert(self.progress@ =~= fresh_progress(self.members@, last as int));
        }
    }

    /// Starts again after a crash: term, vote, snapshot, log and members are kept,
    /// the node is a follower that knows no leader, and its commit index is the
    /// snapshot's.
    pub fn restart(&mut self)
        requires
            old(self)@.wf(),
        ensures
            final(self)@ == old(self)@.restarted(),
            final(self)@.wf(),
    {
        self.role = Role::Follower;
        self.leader = None;
        self.commit_index = self.snapshot.index;
        self.votes = Vec::new();
        self.progress = Vec::new();
        assert(self@ =~= old(self)@.restarted());
    }
}

/// The agreeing run depends on the snapshot's position and the log only.
proof fn lemma_agreeing_run_same_log(a: EngineState, b: EngineState, es: Seq<EntryView>, from: int)
    requires
        a.log == b.log,
        a.snapshot == b.snapshot,
    ensures
        a.agreeing_run(es, from) == b.agreeing_run(es, from),
    decreases es.len() - from,
{
    if 0 <= from < es.len() {
        lemma_agreeing_run_same_log(a, b, es, from + 1);
    }
}

} // verus!
