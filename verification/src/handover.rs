//! The two places where a log changes hands: a vote, which a node grants only to a
//! candidate whose log is at least as up to date as its own, and an append-entries
//! request, which cuts a follower's log only where it disagrees with the leader's.

use vstd::prelude::*;
use crate::cluster::{storing, AppendMsg, Cluster, Election};
use crate::commitment::{beginning, holds, lacks, lost_by, own};
use crate::leadership::{
    campaign_valid, election_logged, entry_on_record, full_inv, prefix, rising, seq_last_id,
};
use crate::log_matching::{held, log_of, log_shape, matching, message_valid, term_elected, LogSource};
use crate::ids::lemma_position_unique;
use crate::preservation::lemma_agreeing_run;
use crate::protocol::{append_well_formed, position, EngineState};
use crate::types::LogId;

verus! {

/// A vote hands the voter's entries on. Let the voter's log `x` begin with the first
/// `n` entries of the log of the leader of `term`, the last of them of that term, and
/// let the log `glog` of a campaign in a later term `later` be at least as up to date
/// as `x`. Then `glog` begins with those entries too, unless a leader of a term in
/// between began without them.
pub proof fn lemma_vote_keeps(
    c: Cluster,
    xs: LogSource,
    gs: LogSource,
    term: u64,
    n: int,
    later: u64,
)
    requires
        full_inv(c),
        held(c, xs),
        held(c, gs),
        own(c, term, n),
        holds(log_of(c, xs), c, term, n),
        seq_last_id(log_of(c, gs)).up_to_date(seq_last_id(log_of(c, xs))),
        forall|k: int| 0 <= k < log_of(c, gs).len() ==> (#[trigger] log_of(c, gs)[k]).term < later,
    ensures
        holds(log_of(c, gs), c, term, n) || lost_by(c, term, n, later as int),
{
    let x = log_of(c, xs);
    let glog = log_of(c, gs);
    let lead = c.leader_logs[term];
    assert(log_shape(x) && log_shape(glog));
    assert(rising(x));
    assert(x.subrange(0, n)[n - 1] == beginning(c, term, n)[n - 1]);
    assert(x[n - 1].term == term);
    let xl = x.len() - 1;
    assert(x[n - 1].term <= x[xl].term);
    // The term is that of an election, so it is not 0, and the campaign's log is not
    // empty.
    assert(term_elected(c, term));
    let won = choose|w: Election| #[trigger] c.elections.contains(w) && w.term == term;
    assert(election_logged(c, won));
    assert(campaign_valid(c, term, won.leader));
    assert(glog.len() >= 1);
    let g = glog.len() as int;
    let tg = glog[g - 1].term;
    assert(entry_on_record(c, glog[g - 1], g - 1));
    let full = c.leader_logs[tg];
    assert(held(c, LogSource::Leader(tg)));
    assert(matching(log_of(c, gs), log_of(c, LogSource::Leader(tg))));
    assert(glog[g - 1].term == full[g - 1].term);
    assert(glog.subrange(0, g) == full.subrange(0, g));
    assert forall|i: int| 0 <= i < g implies glog[i] == full[i] by {
        assert(glog.subrange(0, g)[i] == full.subrange(0, g)[i]);
    }
    if tg > term {
        assert(term_elected(c, tg));
        let e = choose|w: Election| #[trigger] c.elections.contains(w) && w.term == tg;
        assert(election_logged(c, e));
        assert(campaign_valid(c, tg, e.leader));
        let begun = c.campaigns[(tg, e.leader)];
        if holds(begun, c, term, n) {
            if g - 1 < begun.len() {
                assert(begun[g - 1] == full.subrange(0, begun.len() as int)[g - 1]);
            }
            assert(glog.subrange(0, n) =~= beginning(c, term, n)) by {
                assert forall|i: int| 0 <= i < n implies glog[i] == lead[i] by {
                    assert(begun[i] == full.subrange(0, begun.len() as int)[i]);
                    assert(begun.subrange(0, n)[i] == beginning(c, term, n)[i]);
                }
            }
        } else {
            assert(lacks(c, e, term, n));
        }
    } else {
        assert(x[xl].term == term);
        assert(g >= x.len());
        assert(glog.subrange(0, n) =~= beginning(c, term, n));
    }
}

/// What a node makes of an append-entries request that it can take: its log
/// afterwards begins with the sender's log, and it answers with that log's length.
/// Where it had to cut its log, its log afterwards is the sender's.
pub proof fn lemma_append_taken(s: EngineState, m: AppendMsg, c: Cluster)
    requires
        s.wf(),
        s.snapshot == (LogId { term: 0, index: 0 }),
        log_shape(s.log),
        log_shape(m.log),
        message_valid(c, m),
        matching(s.log, m.log),
        append_well_formed(m.req),
        s.accepts_leader(m.req),
        s.can_append(m.req),
    ensures
        prefix(m.log, s.appended(m.req).log),
        s.append_reply(m.req).success,
        s.append_reply(m.req).match_index == m.log.len(),
        s.appended(m.req).log == s.log || s.appended(m.req).log == m.log,
{
    let req = m.req;
    lemma_agreeing_run(s, req);
    let k = s.agreeing_run(req.entries, 0);
    let p = req.prev.index as int;
    let n = req.entries.len() as int;
    let cut = p + k;
    if cut > 0 {
        if k > 0 {
            assert(s.agrees(req.entries[k - 1]));
            assert(req.entries[k - 1] == m.log[cut - 1]);
            assert(s.entry_at(cut) == s.log[cut - 1]);
        } else {
            assert(s.term_at(p) == Some(req.prev.term));
            assert(s.entry_at(p) == s.log[p - 1]);
        }
        assert(s.log[cut - 1].term == m.log[cut - 1].term);
        assert(s.log.subrange(0, cut) == m.log.subrange(0, cut));
    } else {
        assert(s.log.subrange(0, cut) =~= m.log.subrange(0, cut));
    }
    if k < n {
        assert(req.entries.subrange(k, n) =~= m.log.subrange(cut, m.log.len() as int));
        assert(m.log.subrange(0, cut) + m.log.subrange(cut, m.log.len() as int) =~= m.log);
        assert(m.log =~= m.log.subrange(0, m.log.len() as int));
    } else {
        assert(m.log =~= m.log.subrange(0, cut));
    }
}

/// A request whose sender's log is a beginning of the node's log cuts nothing.
pub proof fn lemma_no_cut(s: EngineState, m: AppendMsg, c: Cluster)
    requires
        s.wf(),
        s.snapshot == (LogId { term: 0, index: 0 }),
        log_shape(s.log),
        log_shape(m.log),
        message_valid(c, m),
        append_well_formed(m.req),
        prefix(m.log, s.log),
    ensures
        s.appended(m.req).log == s.log,
{
    let req = m.req;
    let p = req.prev.index as int;
    if s.accepts_leader(req) && s.can_append(req) {
        lemma_agreeing_run(s, req);
        let k = s.agreeing_run(req.entries, 0);
        if k < req.entries.len() {
            let e = req.entries[k];
            assert(e == m.log[p + k]);
            assert(m.log[p + k] == s.log.subrange(0, m.log.len() as int)[p + k]);
            assert(s.entry_at(p + k + 1) == s.log[p + k]);
            assert(s.agrees(e));
        }
    }
}

/// The members that a leader knows to store an entry: each is a member that stores
/// it, none occurs twice, and they are as many as the leader counts.
pub proof fn lemma_storing(s: EngineState, index: int, upto: int)
    requires
        s.members.no_duplicates(),
        0 <= upto <= s.members.len(),
    ensures
        storing(s, index, upto).len() == s.count_stored(index, upto),
        storing(s, index, upto).no_duplicates(),
        forall|i: int|
            0 <= i < storing(s, index, upto).len() ==> {
                let v = #[trigger] storing(s, index, upto)[i];
                &&& s.members.contains(v)
                &&& position(s.members, v) < upto
                &&& s.stored_by(position(s.members, v), index)
            },
    decreases upto,
{
    if upto > 0 {
        lemma_storing(s, index, upto - 1);
        let before = storing(s, index, upto - 1);
        let now = storing(s, index, upto);
        lemma_position_unique(s.members, upto - 1);
        assert forall|i: int| 0 <= i < now.len() implies {
            let v = #[trigger] now[i];
            &&& s.members.contains(v)
            &&& position(s.members, v) < upto
            &&& s.stored_by(position(s.members, v), index)
        } by {
            if i < before.len() {
                assert(now[i] == before[i]);
            }
        }
        if s.stored_by(upto - 1, index) {
            assert forall|i: int, j: int| 0 <= i < now.len() && 0 <= j < now.len() && i
                != j implies now[i] != now[j] by {
                if i < before.len() && j < before.len() {
                } else if i < before.len() {
                    assert(position(s.members, before[i]) < upto - 1);
                } else {
                    assert(position(s.members, before[j]) < upto - 1);
                }
            }
        }
    }
}

} // verus!
