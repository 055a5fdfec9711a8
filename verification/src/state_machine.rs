//! The replicated state machine: a key/value store with a version per key, changed
//! only by applying committed log entries.

use vstd::prelude::*;
use crate::types::{
    AppliedState, CommandView, LogEntry, MetadataCommand, Payload, PayloadView, StateMachineError,
};

verus! {

/// What the store holds under one key.
pub struct Stored {
    /// How often the key was written since it was last absent; at least 1.
    pub version: u64,
    pub value: Seq<char>,
}

/// The store's contents: what it holds under each key.
pub type StoreView = Map<Seq<char>, Stored>;

/// The version of `key`: 0 where the store holds nothing under it.
pub open spec fn version_of(store: StoreView, key: Seq<char>) -> u64 {
    if store.contains_key(key) {
        store[key].version
    } else {
        0
    }
}

/// Whether a command that expects `expected` may go ahead on a key of version `current`.
pub open spec fn version_accepted(expected: Option<u64>, current: u64) -> bool {
    expected.is_none() || expected == Some(current)
}

/// The result of a command on a store.
pub open spec fn command_result(store: StoreView, cmd: CommandView) -> AppliedState {
    match cmd {
        CommandView::Upsert { key, expected_version, value } => {
            let current = version_of(store, key);
            if !version_accepted(expected_version, current) {
                AppliedState::Refused(
                    StateMachineError::VersionConflict {
                        expected: expected_version.unwrap(),
                        actual: current,
                    },
                )
            } else if current == u64::MAX {
                AppliedState::Refused(StateMachineError::VersionExhausted)
            } else {
                AppliedState::Written { version: (current + 1) as u64 }
            }
        },
        CommandView::Delete { key, expected_version } => {
            let current = version_of(store, key);
            if !store.contains_key(key) {
                AppliedState::Refused(StateMachineError::NotFound)
            } else if !version_accepted(expected_version, current) {
                AppliedState::Refused(
                    StateMachineError::VersionConflict {
                        expected: expected_version.unwrap(),
                        actual: current,
                    },
                )
            } else {
                AppliedState::Removed { version: current }
            }
        },
    }
}

/// The store after a command: changed only where the command's result is a success.
pub open spec fn command_effect(store: StoreView, cmd: CommandView) -> StoreView {
    match (cmd, command_result(store, cmd)) {
        (CommandView::Upsert { key, value, .. }, AppliedState::Written { version }) => store.insert(
            key,
            Stored { version, value },
        ),
        (CommandView::Delete { key, .. }, AppliedState::Removed { .. }) => store.remove(key),
        _ => store,
    }
}

/// The result of applying an entry's payload: of its command, or nothing for an entry
/// without one.
pub open spec fn payload_result(store: StoreView, payload: PayloadView) -> AppliedState {
    match payload {
        PayloadView::Write(cmd) => command_result(store, cmd),
        _ => AppliedState::Nothing,
    }
}

/// The store after applying an entry's payload.
pub open spec fn payload_effect(store: StoreView, payload: PayloadView) -> StoreView {
    match payload {
        PayloadView::Write(cmd) => command_effect(store, cmd),
        _ => store,
    }
}

/// Idempotent application. Two stores with the same contents, to which the same
/// entry is applied, have the same contents afterwards and give the same result: what
/// `apply` does depends on the store and the entry alone.
pub proof fn law_apply_deterministic(a: StateMachine, b: StateMachine, payload: PayloadView)
    requires
        a@ == b@,
    ensures
        payload_effect(a@, payload) == payload_effect(b@, payload),
        payload_result(a@, payload) == payload_result(b@, payload),
{
}

/// One key of the store with what it holds.
#[derive(Debug, PartialEq, Eq)]
pub struct Record {
    pub key: String,
    pub version: u64,
    pub value: String,
}

impl Clone for Record {
    fn clone(&self) -> (r: Self)
        ensures
            r.key@ == self.key@,
            r.version == self.version,
            r.value@ == self.value@,
    {
        Record { key: self.key.clone(), version: self.version, value: self.value.clone() }
    }
}

/// The first position in `records` that holds `key`, or the length where none does.
pub open spec fn key_position(records: Seq<Record>, key: Seq<char>) -> int
    decreases records.len(),
{
    if records.len() == 0 {
        0
    } else if records[0].key@ == key {
        0
    } else {
        1 + key_position(records.drop_first(), key)
    }
}

/// Whether the records can be a store's contents: no key twice, every version at
/// least 1.
pub open spec fn records_valid(records: Seq<Record>) -> bool {
    &&& forall|i: int, j: int|
        0 <= i < j < records.len() ==> (#[trigger] records[i]).key@ != (#[trigger] records[j]).key@
    &&& forall|i: int| 0 <= i < records.len() ==> (#[trigger] records[i]).version >= 1
}

/// The store that the records describe.
pub open spec fn records_store(records: Seq<Record>) -> StoreView {
    Map::new(
        |key: Seq<char>| key_position(records, key) < records.len(),
        |key: Seq<char>|
            Stored {
                version: records[key_position(records, key)].version,
                value: records[key_position(records, key)].value@,
            },
    )
}

/// `key_position` is the index of the first record with the key, or the length where
/// there is none.
pub proof fn lemma_key_position(records: Seq<Record>, key: Seq<char>)
    ensures
        0 <= key_position(records, key) <= records.len(),
        key_position(records, key) < records.len() ==> records[key_position(
            records,
            key,
        )].key@ == key,
        forall|j: int| 0 <= j < key_position(records, key) ==> records[j].key@ != key,
    decreases records.len(),
{
    if records.len() > 0 && records[0].key@ != key {
        let t = records.drop_first();
        lemma_key_position(t, key);
        assert forall|j: int| 0 <= j < key_position(records, key) implies records[j].key@
            != key by {
            if j > 0 {
                assert(t[j - 1] == records[j]);
            }
        }
    }
}

/// Where no key occurs twice, a record's key is found where the record stands.
pub proof fn lemma_key_position_at(records: Seq<Record>, i: int)
    requires
        records_valid(records),
        0 <= i < records.len(),
    ensures
        key_position(records, records[i].key@) == i,
{
    lemma_key_position(records, records[i].key@);
}

/// The replicated key/value store.
pub struct StateMachine {
    records: Vec<Record>,
}

impl View for StateMachine {
    type V = StoreView;

    closed spec fn view(&self) -> StoreView {
        records_store(self.records@)
    }
}

impl StateMachine {
    /// The store's invariant.
    pub closed spec fn wf(&self) -> bool {
        records_valid(self.records@)
    }

    /// An empty store.
    pub fn new() -> (r: StateMachine)
        ensures
            r@ == Map::<Seq<char>, Stored>::empty(),
            r.wf(),
    {
        let r = StateMachine { records: Vec::new() };
        assert(r@ =~= Map::<Seq<char>, Stored>::empty());
        r
    }

    /// The index of the record with `key`, or the number of records where none has it.
    fn locate(&self, key: &String) -> (r: usize)
        ensures
            r == key_position(self.records@, key@),
            r <= self.records.len(),
    {
        let mut i: usize = 0;
        assert(self.records@.subrange(0, self.records.len() as int) =~= self.records@);
        while i < self.records.len()
            invariant
                i <= self.records.len(),
                key_position(self.records@, key@) == i + key_position(
                    self.records@.subrange(i as int, self.records.len() as int),
                    key@,
                ),
            decreases self.records.len() - i,
        {
            let ghost rest = self.records@.subrange(i as int, self.records.len() as int);
            assert(rest[0] == self.records@[i as int]);
            if self.records[i].key == *key {
                return i;
            }
            assert(rest.drop_first() =~= self.records@.subrange(
                i + 1,
                self.records.len() as int,
            ));
            i += 1;
        }
        i
    }

    /// The version and value under `key`, if the store holds it.
    pub fn get(&self, key: &String) -> (r: Option<(u64, String)>)
        requires
            self.wf(),
        ensures
            r.is_some() == self@.contains_key(key@),
            r matches Some(found) ==> found.0 == self@[key@].version && found.1@
                == self@[key@].value,
    {
        let i = self.locate(key);
        if i < self.records.len() {
            Some((self.records[i].version, self.records[i].value.clone()))
        } else {
            None
        }
    }

    /// The version of `key`: 0 where the store does not hold it.
    pub fn version(&self, key: &String) -> (r: u64)
        requires
            self.wf(),
        ensures
            r == version_of(self@, key@),
    {
        let i = self.locate(key);
        if i < self.records.len() {
            self.records[i].version
        } else {
            0
        }
    }

    /// Applies one command. A command that names an expected version other than the
    /// key's current one is refused with a version conflict and changes nothing.
    pub fn apply_command(&mut self, cmd: &MetadataCommand) -> (r: AppliedState)
        requires
            old(self).wf(),
        ensures
            r == command_result(old(self)@, cmd@),
            final(self)@ == command_effect(old(self)@, cmd@),
            final(self).wf(),
    {
        let ghost before = self.records@;
        match cmd {
            MetadataCommand::Upsert { key, expected_version, value } => {
                let i = self.locate(key);
                proof {
                    lemma_key_position(before, key@);
                }
                let current = if i < self.records.len() {
                    self.records[i].version
                } else {
                    0
                };
                match expected_version {
                    Some(e) => {
                        if *e != current {
                            return AppliedState::Refused(
                                StateMachineError::VersionConflict { expected: *e, actual: current },
                            );
                        }
                    },
                    None => {},
                }
                if current == u64::MAX {
                    return AppliedState::Refused(StateMachineError::VersionExhausted);
                }
                let record = Record { key: key.clone(), version: current + 1, value: value.clone() };
                if i < self.records.len() {
                    self.records.set(i, record);
                } else {
                    self.records.push(record);
                }
                proof {
                    let after = self.records@;
                    assert(after[i as int].key@ == key@);
                    assert forall|j: int| 0 <= j < after.len() && j != i implies after[j]
                        == before[j] by {}
                    assert(records_valid(after));
                    let m0 = records_store(before);
                    let m1 = records_store(after);
                    let target = command_effect(m0, cmd@);
                    assert forall|k: Seq<char>|
                        #![trigger m1.dom().contains(k)]
                        #![trigger target.dom().contains(k)]
                        #![trigger m1[k]]
                        m1.dom().contains(k) == target.dom().contains(k) && (m1.dom().contains(k)
                            ==> m1[k] == target[k]) by {
                        lemma_key_position(after, k);
                        lemma_key_position(before, k);
                        let p = key_position(before, k);
                        let q = key_position(after, k);
                        if k == key@ {
                            if q < i {
                                assert(after[q] == before[q]);
                            }
                            assert(q == i);
                        } else {
                            if p < before.len() {
                                assert(after[p] == before[p]);
                            }
                            if q < after.len() {
                                assert(after[q] == before[q]);
                            }
                            assert(p < before.len() ==> q == p);
                            assert(q < after.len() ==> q == p);
                        }
                    }
                    assert(m1.dom() =~= target.dom());
                    assert(m1 =~= target);
                }
                AppliedState::Written { version: current + 1 }
            },
            MetadataCommand::Delete { key, expected_version } => {
                let i = self.locate(key);
                proof {
                    lemma_key_position(before, key@);
                }
                if i >= self.records.len() {
                    return AppliedState::Refused(StateMachineError::NotFound);
                }
                let current = self.records[i].version;
                match expected_version {
                    Some(e) => {
                        if *e != current {
                            return AppliedState::Refused(
                                StateMachineError::VersionConflict { expected: *e, actual: current },
                            );
                        }
                    },
                    None => {},
                }
                self.records.remove(i);
                proof {
                    let after = self.records@;
                    assert(records_valid(after)) by {
                        assert forall|a: int, b: int| 0 <= a < b < after.len() implies (
                        #[trigger] after[a]).key@ != (#[trigger] after[b]).key@ by {
                            let a0 = if a < i { a } else { a + 1 };
                            let b0 = if b < i { b } else { b + 1 };
                            assert(after[a] == before[a0] && after[b] == before[b0]);
                        }
                    }
                    let m0 = records_store(before);
                    let m1 = records_store(after);
                    let target = command_effect(m0, cmd@);
                    assert forall|k: Seq<char>|
                        #![trigger m1.dom().contains(k)]
                        #![trigger target.dom().contains(k)]
                        #![trigger m1[k]]
                        m1.dom().contains(k) == target.dom().contains(k) && (m1.dom().contains(k)
                            ==> m1[k] == target[k]) by {
                        lemma_key_position(after, k);
                        lemma_key_position(before, k);
                        let p = key_position(before, k);
                        let q = key_position(after, k);
                        if q < after.len() {
                            let q0 = if q < i { q } else { q + 1 };
                            assert(after[q] == before[q0]);
                            lemma_key_position_at(before, q0);
                            assert(p == q0);
                            assert(k != key@);
                        }
                        if p < before.len() && k != key@ {
                            let p1 = if p < i { p } else { p - 1 };
                            assert(after[p1] == before[p]);
                            lemma_key_position_at(after, p1);
                            assert(q == p1);
                        }
                    }
                    assert(m1.dom() =~= target.dom());
                    assert(m1 =~= target);
                }
                AppliedState::Removed { version: current }
            },
        }
    }

    /// Applies a committed entry. An entry without a command changes nothing. The
    /// result and the store afterwards depend on the store before and on the entry
    /// alone.
    pub fn apply(&mut self, entry: &LogEntry) -> (r: AppliedState)
        requires
            old(self).wf(),
        ensures
            r == payload_result(old(self)@, entry@.payload),
            final(self)@ == payload_effect(old(self)@, entry@.payload),
            final(self).wf(),
    {
        match &entry.payload {
            Payload::Write(cmd) => self.apply_command(cmd),
            _ => AppliedState::Nothing,
        }
    }

    /// Whether `records` can be a store's contents.
    pub fn check_records(records: &Vec<Record>) -> (r: bool)
        ensures
            r == records_valid(records@),
    {
        let mut i: usize = 0;
        while i < records.len()
            invariant
                i <= records.len(),
                records_valid(records@.subrange(0, i as int)),
            decreases records.len() - i,
        {
            if records[i].version == 0 {
                return false;
            }
            let mut j: usize = 0;
            while j < i
                invariant
                    j <= i < records.len(),
                    forall|k: int| 0 <= k < j ==> (#[trigger] records@[k]).key@ != records@[i as int].key@,
                decreases i - j,
            {
                if records[j].key == records[i].key {
                    return false;
                }
                j += 1;
            }
            proof {
                let a = records@.subrange(0, i as int);
                let b = records@.subrange(0, i + 1);
                assert forall|x: int, y: int| 0 <= x < y < b.len() implies (#[trigger] b[x]).key@ != (
                #[trigger] b[y]).key@ by {
                    if y < i {
                        assert(a[x] == b[x] && a[y] == b[y]);
                    }
                }
                assert forall|x: int| 0 <= x < b.len() implies (#[trigger] b[x]).version >= 1 by {
                    if x < i {
                        assert(a[x] == b[x]);
                    }
                }
            }
            i += 1;
        }
        assert(records@.subrange(0, records.len() as int) =~= records@);
        true
    }

    /// The store that `records` describe, where they can be a store's contents.
    pub fn from_records(records: Vec<Record>) -> (r: Option<StateMachine>)
        ensures
            r.is_some() == records_valid(records@),
            r matches Some(s) ==> s.wf() && s@ == records_store(records@),
    {
        if Self::check_records(&records) {
            Some(StateMachine { records })
        } else {
            None
        }
    }

    /// The store's contents as records, for a snapshot.
    pub fn to_records(&self) -> (r: Vec<Record>)
        requires
            self.wf(),
        ensures
            records_valid(r@),
            records_store(r@) == self@,
    {
        let mut out: Vec<Record> = Vec::new();
        let mut i: usize = 0;
        while i < self.records.len()
            invariant
                i <= self.records.len(),
                out@.len() == i,
                forall|k: int|
                    0 <= k < i ==> (#[trigger] out@[k]).key@ == self.records@[k].key@ && out@[k].version
                        == self.records@[k].version && out@[k].value@ == self.records@[k].value@,
            decreases self.records.len() - i,
        {
            out.push(self.records[i].clone());
            i += 1;
        }
        proof {
            lemma_same_records(out@, self.records@);
        }
        out
    }
}

/// Records that agree in keys, versions and values describe the same store.
pub proof fn lemma_same_records(a: Seq<Record>, b: Seq<Record>)
    requires
        a.len() == b.len(),
        forall|k: int|
            0 <= k < a.len() ==> (#[trigger] a[k]).key@ == b[k].key@ && a[k].version
                == b[k].version && a[k].value@ == b[k].value@,
    ensures
        records_valid(a) == records_valid(b),
        records_store(a) == records_store(b),
{
    assert forall|key: Seq<char>| key_position(a, key) == key_position(b, key) by {
        lemma_same_positions(a, b, key);
    }
    assert forall|key: Seq<char>| records_store(a).contains_key(key) implies records_store(a)[key]
        == records_store(b)[key] by {
        lemma_key_position(a, key);
        let p = key_position(a, key);
        assert(a[p].version == b[p].version && a[p].value@ == b[p].value@);
    }
    assert(records_store(a) =~= records_store(b));
    if records_valid(b) {
        assert(records_valid(a));
    }
    if records_valid(a) {
        assert forall|i: int, j: int| 0 <= i < j < b.len() implies (#[trigger] b[i]).key@ != (
        #[trigger] b[j]).key@ by {
            assert(a[i].key@ != a[j].key@);
        }
        assert forall|i: int| 0 <= i < b.len() implies (#[trigger] b[i]).version >= 1 by {
            assert(a[i].version >= 1);
        }
    }
}

/// Records that agree in their keys hold each key at the same position.
pub proof fn lemma_same_positions(a: Seq<Record>, b: Seq<Record>, key: Seq<char>)
    requires
        a.len() == b.len(),
        forall|k: int| 0 <= k < a.len() ==> (#[trigger] a[k]).key@ == b[k].key@,
    ensures
        key_position(a, key) == key_position(b, key),
    decreases a.len(),
{
    if a.len() > 0 {
        assert(a[0].key@ == b[0].key@);
        let ta = a.drop_first();
        let tb = b.drop_first();
        assert forall|k: int| 0 <= k < ta.len() implies (#[trigger] ta[k]).key@ == tb[k].key@ by {
            assert(a[k + 1].key@ == b[k + 1].key@);
        }
        lemma_same_positions(ta, tb, key);
    }
}

} // verus!
