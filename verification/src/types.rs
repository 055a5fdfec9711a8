//! The values that travel through the replicated log, and their mathematical views.

use vstd::prelude::*;

verus! {

/// Identifier of a cluster member.
pub type NodeId = u64;

/// Position of an entry in the replicated log: the term it was written in and its index.
#[derive(Clone, Copy, Debug, PartialEq, Eq, Structural)]
pub struct LogId {
    pub term: u64,
    pub index: u64,
}

impl LogId {
    /// Whether a log ending in `self` is at least as up to date as one ending in `other`:
    /// the pair (term, index) is compared lexicographically.
    pub open spec fn up_to_date(self, other: LogId) -> bool {
        self.term > other.term || (self.term == other.term && self.index >= other.index)
    }

    /// Decides `up_to_date`.
    pub fn is_up_to_date(&self, other: &LogId) -> (r: bool)
        ensures
            r == self.up_to_date(*other),
    {
        self.term > other.term || (self.term == other.term && self.index >= other.index)
    }
}

/// A mutation of the key/value namespace.
#[derive(Debug, PartialEq, Eq)]
pub enum MetadataCommand {
    /// Writes `value` under `key`. With `expected_version` set, only where the key's
    /// current version equals it (an absent key has version 0).
    Upsert { key: String, expected_version: Option<u64>, value: String },
    /// Removes `key`. With `expected_version` set, only where the key's current version
    /// equals it.
    Delete { key: String, expected_version: Option<u64> },
}

/// What a `MetadataCommand` is, as plain values.
pub enum CommandView {
    Upsert { key: Seq<char>, expected_version: Option<u64>, value: Seq<char> },
    Delete { key: Seq<char>, expected_version: Option<u64> },
}

impl View for MetadataCommand {
    type V = CommandView;

    open spec fn view(&self) -> CommandView {
        match *self {
            MetadataCommand::Upsert { key, expected_version, value } => CommandView::Upsert {
                key: key@,
                expected_version,
                value: value@,
            },
            MetadataCommand::Delete { key, expected_version } => CommandView::Delete {
                key: key@,
                expected_version,
            },
        }
    }
}

impl Clone for MetadataCommand {
    fn clone(&self) -> (r: Self)
        ensures
            r@ == self@,
    {
        match self {
            MetadataCommand::Upsert { key, expected_version, value } => MetadataCommand::Upsert {
                key: key.clone(),
                expected_version: *expected_version,
                value: value.clone(),
            },
            MetadataCommand::Delete { key, expected_version } => MetadataCommand::Delete {
                key: key.clone(),
                expected_version: *expected_version,
            },
        }
    }
}

/// What a log entry carries.
#[derive(Debug, PartialEq, Eq)]
pub enum Payload {
    /// Nothing: written by a new leader to commit what came before.
    Blank,
    /// The voting members from this entry on, once it is committed.
    Membership(Vec<NodeId>),
    /// A mutation of the key/value namespace.
    Write(MetadataCommand),
}

/// What a `Payload` is, as plain values.
pub enum PayloadView {
    Blank,
    Membership(Seq<u64>),
    Write(CommandView),
}

impl View for Payload {
    type V = PayloadView;

    open spec fn view(&self) -> PayloadView {
        match *self {
            Payload::Blank => PayloadView::Blank,
            Payload::Membership(m) => PayloadView::Membership(m@),
            Payload::Write(c) => PayloadView::Write(c@),
        }
    }
}

impl Clone for Payload {
    fn clone(&self) -> (r: Self)
        ensures
            r@ == self@,
    {
        match self {
            Payload::Blank => Payload::Blank,
            Payload::Membership(m) => Payload::Membership(copy_ids(m)),
            Payload::Write(c) => Payload::Write(c.clone()),
        }
    }
}

/// A fresh vector with the same identifiers in the same order.
pub fn copy_ids(ids: &Vec<NodeId>) -> (r: Vec<NodeId>)
    ensures
        r@ == ids@,
{
    let mut out: Vec<NodeId> = Vec::new();
    let mut i: usize = 0;
    while i < ids.len()
        invariant
            i <= ids.len(),
            out@ == ids@.subrange(0, i as int),
        decreases ids.len() - i,
    {
        out.push(ids[i]);
        assert(out@ =~= ids@.subrange(0, i + 1));
        i += 1;
    }
    assert(ids@.subrange(0, ids.len() as int) =~= ids@);
    out
}

/// One entry of the replicated log.
#[derive(Debug, PartialEq, Eq)]
pub struct LogEntry {
    pub term: u64,
    pub index: u64,
    pub payload: Payload,
}

/// What a `LogEntry` is, as plain values.
pub struct EntryView {
    pub term: u64,
    pub index: u64,
    pub payload: PayloadView,
}

impl EntryView {
    /// The entry's position.
    pub open spec fn id(self) -> LogId {
        LogId { term: self.term, index: self.index }
    }
}

impl View for LogEntry {
    type V = EntryView;

    open spec fn view(&self) -> EntryView {
        EntryView { term: self.term, index: self.index, payload: self.payload@ }
    }
}

impl Clone for LogEntry {
    fn clone(&self) -> (r: Self)
        ensures
            r@ == self@,
    {
        LogEntry { term: self.term, index: self.index, payload: self.payload.clone() }
    }
}

impl LogEntry {
    /// The entry's position.
    pub fn log_id(&self) -> (r: LogId)
        ensures
            r == self@.id(),
    {
        LogId { term: self.term, index: self.index }
    }
}

/// The views of a sequence of entries, in order.
pub open spec fn entries_view(s: Seq<LogEntry>) -> Seq<EntryView> {
    s.map_values(|e: LogEntry| e@)
}

/// A fresh vector holding copies of `entries[from..]`.
pub fn copy_entries_from(entries: &Vec<LogEntry>, from: usize) -> (r: Vec<LogEntry>)
    requires
        from <= entries.len(),
    ensures
        entries_view(r@) == entries_view(entries@).subrange(from as int, entries.len() as int),
{
    let mut out: Vec<LogEntry> = Vec::new();
    let mut i: usize = from;
    while i < entries.len()
        invariant
            from <= i <= entries.len(),
            entries_view(out@) == entries_view(entries@).subrange(from as int, i as int),
        decreases entries.len() - i,
    {
        let ghost before = out@;
        out.push(entries[i].clone());
        assert(entries_view(out@) =~= entries_view(before).push(entries@[i as int]@));
        assert(entries_view(out@) =~= entries_view(entries@).subrange(from as int, i + 1));
        i += 1;
    }
    out
}

/// Why the state machine refused a command.
#[derive(Clone, Copy, Debug, PartialEq, Eq, Structural)]
pub enum StateMachineError {
    /// The command named an expected version other than the key's current one.
    VersionConflict { expected: u64, actual: u64 },
    /// A delete named a key that the store does not hold.
    NotFound,
    /// The key's version cannot grow any further.
    VersionExhausted,
}

/// The result of applying one committed entry.
#[derive(Clone, Copy, Debug, PartialEq, Eq, Structural)]
pub enum AppliedState {
    /// The entry carried no command.
    Nothing,
    /// The key was written and now has this version.
    Written { version: u64 },
    /// The key was removed; it had this version.
    Removed { version: u64 },
    /// The command was refused; the store is unchanged.
    Refused(StateMachineError),
}

} // verus!
