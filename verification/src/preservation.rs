//! Each protocol step keeps a node's state well formed.

use vstd::prelude::*;
use crate::ids::lemma_distinct;
use crate::protocol::{
    append_well_formed, fresh_progress, position, AppendReply, AppendView, EngineState, Role,
    VoteReply, VoteRequest,
};
use crate::types::{NodeId, PayloadView};

verus! {

/// The highest committable index lies between the commit index and the starting point,
/// is committable unless it is the commit index, and nothing above it is committable.
pub proof fn lemma_highest_committable(s: EngineState, from: int)
    ensures
        s.commit_index <= s.highest_committable(from),
        from >= s.commit_index ==> s.highest_committable(from) <= from,
        s.highest_committable(from) == s.commit_index || s.committable(
            s.highest_committable(from),
        ),
        forall|n: int| s.highest_committable(from) < n <= from ==> !s.committable(n),
    decreases from,
{
    if from > s.commit_index && !s.committable(from) {
        lemma_highest_committable(s, from - 1);
    }
}

/// Moving the commit index keeps the state well formed and does not lower the index.
pub proof fn lemma_advanced_wf(s: EngineState)
    requires
        s.wf(),
    ensures
        s.advanced().wf(),
        s.advanced().commit_index >= s.commit_index,
{
    lemma_highest_committable(s, s.last_index());
}

/// Taking office keeps the state well formed.
pub proof fn lemma_elected_wf(s: EngineState)
    requires
        s.wf(),
    ensures
        s.elected().wf(),
{
    let led = EngineState {
        role: Role::Leader,
        leader: Some(s.id),
        progress: fresh_progress(s.members, s.last_index()),
        ..s
    };
    if s.last_index() + 1 < u64::MAX {
        let grown = EngineState { log: s.log.push(s.elected_blank()), ..led };
        assert(grown.wf());
        lemma_advanced_wf(grown);
    } else {
        assert(led.wf());
    }
}

/// Counting the votes keeps the state well formed.
pub proof fn lemma_tallied_wf(s: EngineState)
    requires
        s.wf(),
    ensures
        s.tallied().wf(),
{
    lemma_elected_wf(s);
}

/// An election timeout keeps the state well formed.
pub proof fn lemma_timed_out_wf(s: EngineState)
    requires
        s.wf(),
    ensures
        s.timed_out().wf(),
{
    if s.may_campaign() {
        lemma_tallied_wf(s.campaigning());
    }
}

/// A vote request keeps the state well formed.
pub proof fn lemma_voted_wf(s: EngineState, req: VoteRequest)
    requires
        s.wf(),
    ensures
        s.voted(req).wf(),
{
}

/// An answer to a vote request keeps the state well formed.
pub proof fn lemma_vote_counted_wf(s: EngineState, from: NodeId, reply: VoteReply)
    requires
        s.wf(),
    ensures
        s.vote_counted(from, reply).wf(),
{
    lemma_tallied_wf(EngineState { votes: s.votes.push(from), ..s });
}

/// A write keeps the state well formed.
pub proof fn lemma_written_wf(s: EngineState, payload: PayloadView)
    requires
        s.wf(),
    ensures
        s.written(payload).wf(),
{
    if s.role == Role::Leader && s.last_index() + 1 < u64::MAX {
        let grown = EngineState { log: s.log.push(s.next_entry(payload)), ..s };
        assert(grown.wf());
        lemma_advanced_wf(grown);
    }
}

/// On a well-formed request whose `prev` the node stores, the entries of the agreeing
/// run are entries of the log, and the run ends at the first entry that the node does
/// not store with that term.
pub proof fn lemma_agreeing_run(s: EngineState, req: AppendView)
    requires
        s.wf(),
        append_well_formed(req),
        req.prev.index >= s.snapshot.index,
        s.term_at(req.prev.index as int).is_some(),
    ensures
        0 <= s.agreeing_run(req.entries, 0) <= req.entries.len(),
        req.prev.index + s.agreeing_run(req.entries, 0) <= s.last_index(),
        forall|j: int|
            0 <= j < s.agreeing_run(req.entries, 0) ==> s.agrees(#[trigger] req.entries[j]),
        s.agreeing_run(req.entries, 0) < req.entries.len() ==> !s.agrees(
            req.entries[s.agreeing_run(req.entries, 0)],
        ),
{
    lemma_agreeing_run_from(s, req, 0);
}

/// The same, for the run counted from any position that the log reaches.
pub proof fn lemma_agreeing_run_from(s: EngineState, req: AppendView, from: int)
    requires
        s.wf(),
        append_well_formed(req),
        req.prev.index >= s.snapshot.index,
        0 <= from <= req.entries.len(),
        req.prev.index + from <= s.last_index(),
    ensures
        0 <= s.agreeing_run(req.entries, from) <= req.entries.len() - from,
        req.prev.index + from + s.agreeing_run(req.entries, from) <= s.last_index(),
        forall|j: int|
            from <= j < from + s.agreeing_run(req.entries, from) ==> s.agrees(
                #[trigger] req.entries[j],
            ),
        from + s.agreeing_run(req.entries, from) < req.entries.len() ==> !s.agrees(
            req.entries[from + s.agreeing_run(req.entries, from)],
        ),
    decreases req.entries.len() - from,
{
    if from < req.entries.len() && s.agrees(req.entries[from]) {
        lemma_agreeing_run_from(s, req, from + 1);
    }
}

/// Whether `after` keeps what `before` has committed: the same snapshot position, a
/// commit index that is not lower, and the same entries up to the old commit index.
pub open spec fn keeps_committed(before: EngineState, after: EngineState) -> bool {
    &&& after.snapshot == before.snapshot
    &&& after.commit_index >= before.commit_index
    &&& forall|i: int|
        before.snapshot.index < i <= before.commit_index ==> after.has_entry(i)
            && #[trigger] after.entry_at(i) == before.entry_at(i)
}

/// An election timeout loses nothing that was committed.
pub proof fn lemma_timed_out_keeps(s: EngineState)
    requires
        s.wf(),
    ensures
        keeps_committed(s, s.timed_out()),
{
    if s.may_campaign() {
        lemma_tallied_keeps(s.campaigning());
    }
}

/// Becoming leader loses nothing that was committed.
pub proof fn lemma_tallied_keeps(s: EngineState)
    requires
        s.wf(),
    ensures
        keeps_committed(s, s.tallied()),
{
    if s.last_index() + 1 < u64::MAX {
        let grown = EngineState {
            role: Role::Leader,
            leader: Some(s.id),
            progress: fresh_progress(s.members, s.last_index()),
            log: s.log.push(s.elected_blank()),
            ..s
        };
        lemma_highest_committable(grown, grown.last_index());
    }
}

/// A vote request loses nothing that was committed.
pub proof fn lemma_voted_keeps(s: EngineState, req: VoteRequest)
    requires
        s.wf(),
    ensures
        keeps_committed(s, s.voted(req)),
{
}

/// An answer to a vote request loses nothing that was committed.
pub proof fn lemma_vote_counted_keeps(s: EngineState, from: NodeId, reply: VoteReply)
    requires
        s.wf(),
    ensures
        keeps_committed(s, s.vote_counted(from, reply)),
{
    lemma_tallied_keeps(EngineState { votes: s.votes.push(from), ..s });
}

/// A write loses nothing that was committed.
pub proof fn lemma_written_keeps(s: EngineState, payload: PayloadView)
    requires
        s.wf(),
    ensures
        keeps_committed(s, s.written(payload)),
{
    if s.role == Role::Leader && s.last_index() + 1 < u64::MAX {
        let grown = EngineState { log: s.log.push(s.next_entry(payload)), ..s };
        lemma_highest_committable(grown, grown.last_index());
    }
}

/// An answer to append-entries loses nothing that was committed.
pub proof fn lemma_append_counted_keeps(s: EngineState, from: NodeId, reply: AppendReply)
    requires
        s.wf(),
    ensures
        keeps_committed(s, s.append_counted(from, reply)),
{
    if reply.term <= s.current_term && s.heeds(from, reply) {
        let k = position(s.members, from);
        let noted = EngineState {
            progress: s.progress.update(k, s.progress_after(s.progress[k], reply)),
            ..s
        };
        lemma_highest_committable(noted, noted.last_index());
    }
}

/// An append-entries request loses nothing that was committed, and leaves the state
/// well formed.
pub proof fn lemma_appended(s: EngineState, req: AppendView)
    requires
        s.wf(),
        append_well_formed(req),
    ensures
        s.appended(req).wf(),
        keeps_committed(s, s.appended(req)),
{
    if s.accepts_leader(req) && s.can_append(req) {
        lemma_agreeing_run(s, req);
        let k = s.agreeing_run(req.entries, 0);
        let t = s.appended(req);
        if k < req.entries.len() {
            assert(t.log.len() == req.prev.index + req.entries.len() - s.snapshot.index);
            assert forall|i: int| 0 <= i < t.log.len() implies (#[trigger] t.log[i]).index
                == t.snapshot.index + 1 + i by {
                if i >= req.prev.index + k - s.snapshot.index {
                    let j = i - (req.prev.index + k - s.snapshot.index) + k;
                    assert(t.log[i] == req.entries[j]);
                }
            }
            assert forall|i: int| s.snapshot.index < i <= s.commit_index implies t.has_entry(i)
                && #[trigger] t.entry_at(i) == s.entry_at(i) by {
                assert(req.entries[k].index > s.commit_index);
            }
        } else {
            if req.entries.len() > 0 {
                assert(s.agrees(req.entries[req.entries.len() - 1]));
            }
        }
    }
}

/// Putting a membership into effect loses nothing that was committed, and leaves the
/// state well formed.
pub proof fn lemma_with_members(s: EngineState, members: Seq<NodeId>)
    requires
        s.wf(),
    ensures
        s.with_members(members).wf(),
        keeps_committed(s, s.with_members(members)),
        s.with_members(members).commit_index == s.commit_index,
        s.with_members(members).log == s.log,
{
    lemma_distinct(members);
}

} // verus!
