//! The record store together with its change journal.
use vstd::prelude::*;
use crate::record::{
    copy_bytes, Change, ChangeView, JournalEntry, Operation, Record, RecordKey, RecordKind, RecordView,
    SyncError,
};
use crate::merge::{
    created, entry_for, find, find_from, step, touched, wins, written, StoreState,
};

verus! {

/// The journal is gapless: entry `i` has sequence number `i + 1`.
pub open spec fn journal_gapless(j: Seq<JournalEntry>) -> bool {
    forall|i: int| 0 <= i < j.len() ==> (#[trigger] j[i]).seq == i + 1
}

/// The journal entries after `cursor`, oldest first.
pub open spec fn journal_after(j: Seq<JournalEntry>, cursor: int) -> Seq<JournalEntry> {
    if 0 <= cursor <= j.len() {
        j.subrange(cursor, j.len() as int)
    } else {
        Seq::empty()
    }
}

/// Reading the journal after a cursor is repeatable: on an unchanged journal,
/// two reads with the same cursor give the same entries.
pub proof fn lemma_entries_after_repeatable(
    j1: Seq<JournalEntry>,
    j2: Seq<JournalEntry>,
    cursor: int,
    r1: Seq<JournalEntry>,
    r2: Seq<JournalEntry>,
)
    requires
        j1 == j2,
        r1 == journal_after(j1, cursor),
        r2 == journal_after(j2, cursor),
    ensures
        r1 == r2,
{
}

/// A merge step keeps the journal gapless.
pub proof fn lemma_step_gapless(st: StoreState, c: ChangeView)
    requires
        journal_gapless(st.journal),
        step(st, c) is Ok,
    ensures
        journal_gapless(step(st, c)->Ok_0.journal),
{
    let j2 = step(st, c)->Ok_0.journal;
    assert forall|i: int| 0 <= i < j2.len() implies (#[trigger] j2[i]).seq == i + 1 by {
        if i < st.journal.len() {
            assert(j2[i] == st.journal[i]);
        }
    }
}

/// No two records share a key.
#[verifier::opaque]
pub open spec fn keys_unique(s: Seq<RecordView>) -> bool {
    forall|i: int, j: int| 0 <= i < j < s.len() ==> (#[trigger] s[i]).key != (#[trigger] s[j]).key
}

/// A key that is not found is held by no record.
pub proof fn lemma_find_none(s: Seq<RecordView>, k: RecordKey, i: int)
    requires
        0 <= i,
        find_from(s, k, i) is None,
    ensures
        forall|j: int| i <= j < s.len() ==> (#[trigger] s[j]).key != k,
    decreases s.len() - i,
{
    if i < s.len() {
        lemma_find_none(s, k, i + 1);
    }
}

/// With unique keys, a record is found where it stands.
pub proof fn lemma_find_unique(s: Seq<RecordView>, j: int)
    requires
        keys_unique(s),
        0 <= j < s.len(),
    ensures
        find(s, s[j].key) == Some(j),
{
    reveal(keys_unique);
    if find(s, s[j].key) is None {
        lemma_find_none(s, s[j].key, 0);
    } else {
        crate::merge::lemma_find_found(s, s[j].key, 0);
        let m = find(s, s[j].key)->Some_0;
        if m < j {
            assert(s[m].key != s[j].key);
        } else if m > j {
            assert(s[j].key != s[m].key);
        }
    }
}

/// The entry at a record's `last_seq` is about the record, and no later one is.
pub proof fn lemma_linked_at(st: StoreState, j: int, i: int)
    requires
        linked(st),
        0 <= j < st.records.len(),
    ensures
        1 <= st.records[j].last_seq <= st.journal.len(),
        st.journal[st.records[j].last_seq - 1].key == st.records[j].key,
        st.records[j].last_seq <= i < st.journal.len() ==> st.journal[i].key
            != st.records[j].key,
{
    reveal(linked);
}

/// A merge step keeps record keys unique.
pub proof fn lemma_step_unique(st: StoreState, c: ChangeView)
    requires
        keys_unique(st.records),
        step(st, c) is Ok,
    ensures
        keys_unique(step(st, c)->Ok_0.records),
{
    reveal(keys_unique);
    let s2 = step(st, c)->Ok_0.records;
    match find(st.records, c.key) {
        None => {
            lemma_find_none(st.records, c.key, 0);
            assert forall|i: int, j: int| 0 <= i < j < s2.len() implies (#[trigger] s2[i]).key
                != (#[trigger] s2[j]).key by {
                assert(s2[i] == st.records[i]);
                if j < st.records.len() {
                    assert(s2[j] == st.records[j]);
                }
            }
        },
        Some(m) => {
            crate::merge::lemma_find_found(st.records, c.key, 0);
            assert forall|i: int, j: int| 0 <= i < j < s2.len() implies (#[trigger] s2[i]).key
                != (#[trigger] s2[j]).key by {
                assert(s2[i].key == st.records[i].key);
                assert(s2[j].key == st.records[j].key);
            }
        },
    }
}

/// Each record points at its latest journal entry: the entry at `last_seq`
/// is about the record, and no later entry is.
#[verifier::opaque]
pub open spec fn linked(st: StoreState) -> bool {
    &&& forall|j: int|
        0 <= j < st.records.len() ==> 1 <= (#[trigger] st.records[j]).last_seq <= st.journal.len()
            && st.journal[st.records[j].last_seq - 1].key == st.records[j].key
    &&& forall|j: int, i: int|
        0 <= j < st.records.len() && (#[trigger] st.records[j]).last_seq <= i < st.journal.len()
            ==> (#[trigger] st.journal[i]).key != st.records[j].key
}

/// A merge step keeps every record pointing at its latest journal entry.
pub proof fn lemma_step_linked(st: StoreState, c: ChangeView)
    requires
        keys_unique(st.records),
        linked(st),
        step(st, c) is Ok,
    ensures
        linked(step(st, c)->Ok_0),
{
    reveal(keys_unique);
    reveal(linked);
    let s2 = step(st, c)->Ok_0;
    let n = st.journal.len();
    assert(s2.journal[n as int].key == c.key);
    assert forall|i: int| 0 <= i < n implies s2.journal[i] == st.journal[i] by {}
    match find(st.records, c.key) {
        None => {
            lemma_find_none(st.records, c.key, 0);
            assert forall|j: int| 0 <= j < st.records.len() implies s2.records[j]
                == st.records[j] by {}
            assert(s2.records[st.records.len() as int].last_seq == n + 1);
        },
        Some(m) => {
            crate::merge::lemma_find_found(st.records, c.key, 0);
            assert forall|j: int| 0 <= j < st.records.len() && j != m implies s2.records[j]
                == st.records[j] && st.records[j].key != c.key by {}
            assert(s2.records[m].last_seq == n + 1);
            assert(s2.records[m].key == c.key);
        },
    }
}

/// Records keyed by kind and id, with every accepted or overridden change
/// journaled. A record and its journal entry are committed together.
pub struct SyncStore {
    records: Vec<Record>,
    journal: Vec<JournalEntry>,
}

impl View for SyncStore {
    type V = StoreState;

    closed spec fn view(&self) -> StoreState {
        StoreState {
            records: self.records@.map_values(|r: Record| r@),
            journal: self.journal@,
        }
    }
}

impl SyncStore {
    pub open spec fn wf(&self) -> bool {
        &&& journal_gapless(self@.journal)
        &&& keys_unique(self@.records)
        &&& linked(self@)
    }

    /// An empty store with an empty journal.
    pub fn new() -> (r: SyncStore)
        ensures
            r.wf(),
            r@.records.len() == 0,
            r@.journal.len() == 0,
    {
        proof {
            reveal(keys_unique);
            reveal(linked);
        }
        SyncStore { records: Vec::new(), journal: Vec::new() }
    }

    /// The position of the record with the given key.
    fn find_index(&self, key: RecordKey) -> (r: Option<usize>)
        ensures
            match r {
                Some(i) => (i as int) < self@.records.len() && find(self@.records, key) == Some(
                    i as int,
                ),
                None => find(self@.records, key) is None,
            },
    {
        let mut i: usize = 0;
        while i < self.records.len()
            invariant
                0 <= i <= self.records@.len(),
                find(self@.records, key) == find_from(self@.records, key, i as int),
            decreases self.records@.len() - i,
        {
            if self.records[i].key == key {
                return Some(i);
            }
            i = i + 1;
        }
        None
    }

    /// The current state of a record, tombstoned or not.
    pub fn get(&self, kind: RecordKind, id: u64) -> (r: Option<Record>)
        ensures
            match find(self@.records, RecordKey { kind, id }) {
                Some(i) => r is Some && r->Some_0@ == self@.records[i],
                None => r is None,
            },
    {
        match self.find_index(RecordKey { kind, id }) {
            Some(i) => Some(self.records[i].duplicate()),
            None => None,
        }
    }

    /// The sequence number of the newest journal entry (0 for an empty journal).
    pub fn watermark(&self) -> (r: u64)
        ensures
            r == self@.journal.len(),
    {
        self.journal.len() as u64
    }

    /// All journal entries with a sequence number above `cursor`, oldest first.
    pub fn entries_after(&self, cursor: u64) -> (r: Vec<JournalEntry>)
        requires
            self.wf(),
        ensures
            r@ == journal_after(self@.journal, cursor as int),
            forall|i: int| 0 <= i < r@.len() ==> (#[trigger] r@[i]).seq > cursor,
    {
        let mut out: Vec<JournalEntry> = Vec::new();
        if cursor > self.journal.len() as u64 {
            return out;
        }
        let mut i: usize = cursor as usize;
        while i < self.journal.len()
            invariant
                cursor <= i <= self.journal@.len(),
                out@ == self.journal@.subrange(cursor as int, i as int),
                journal_gapless(self@.journal),
            decreases self.journal@.len() - i,
        {
            out.push(self.journal[i]);
            i = i + 1;
            proof {
                assert(out@ =~= self.journal@.subrange(cursor as int, i as int));
            }
        }
        out
    }

    /// A copy of the store.
    pub fn duplicate(&self) -> (r: SyncStore)
        ensures
            r@ == self@,
    {
        let mut records: Vec<Record> = Vec::new();
        let mut i: usize = 0;
        while i < self.records.len()
            invariant
                0 <= i <= self.records@.len(),
                records@.len() == i,
                forall|j: int| 0 <= j < i ==> (#[trigger] records@[j])@ == self.records@[j]@,
            decreases self.records@.len() - i,
        {
            records.push(self.records[i].duplicate());
            i = i + 1;
        }
        let journal = self.journal.clone();
        proof {
            assert(records@.map_values(|r: Record| r@) =~= self@.records);
            assert(journal@ =~= self.journal@);
        }
        SyncStore { records, journal }
    }

    /// Merges one client change and commits it with its journal entry, or
    /// leaves the store as it is and says why the change is refused.
    pub fn apply_change(&mut self, c: &Change) -> (r: Result<(), SyncError>)
        requires
            old(self).wf(),
        ensures
            final(self).wf(),
            match step(old(self)@, c@) {
                Ok(s) => r is Ok && final(self)@ == s,
                Err(e) => r == Err::<(), SyncError>(e) && final(self)@ == old(self)@,
            },
    {
        proof {
            if step(self@, c@) is Ok {
                lemma_step_gapless(self@, c@);
                lemma_step_unique(self@, c@);
                lemma_step_linked(self@, c@);
            }
        }
        let ghost st = self@;
        let len = self.journal.len();
        match self.find_index(c.key) {
            None => {
                if c.base_revision != 0 {
                    return Err(SyncError::StaleClient { key: c.key });
                }
                if len as u64 == u64::MAX {
                    return Err(SyncError::Storage);
                }
                let seq = len as u64 + 1;
                let rec = Record {
                    key: c.key,
                    revision: 1,
                    modified_at: c.client_timestamp,
                    writer: c.client_id,
                    deleted: c.op == Operation::Delete,
                    fields: copy_bytes(&c.fields),
                    created_seq: seq,
                    last_seq: seq,
                };
                self.records.push(rec);
                self.journal.push(
                    JournalEntry {
                        seq,
                        key: c.key,
                        revision: 1,
                        timestamp: c.client_timestamp,
                        op: c.op,
                    },
                );
                proof {
                    assert(rec@ == created(c@, seq));
                    assert(self@.records =~= st.records.push(created(c@, seq)));
                }
                Ok(())
            },
            Some(i) => {
                proof {
                    crate::merge::lemma_find_found(st.records, c.key, 0);
                }
                let cur = &self.records[i];
                if c.base_revision > cur.revision {
                    return Err(SyncError::StaleClient { key: c.key });
                }
                if len as u64 == u64::MAX || cur.revision == u64::MAX {
                    return Err(SyncError::Storage);
                }
                let seq = len as u64 + 1;
                let newer = c.client_timestamp > cur.modified_at || (c.client_timestamp
                    == cur.modified_at && c.client_id > cur.writer);
                let (rec, revision) = if c.base_revision == cur.revision || newer {
                    let rec = Record {
                        key: cur.key,
                        revision: cur.revision + 1,
                        modified_at: c.client_timestamp,
                        writer: c.client_id,
                        deleted: c.op == Operation::Delete,
                        fields: copy_bytes(&c.fields),
                        created_seq: cur.created_seq,
                        last_seq: seq,
                    };
                    proof {
                        assert(rec@ == written(st.records[i as int], c@, seq));
                    }
                    (rec, cur.revision + 1)
                } else {
                    let rec = Record {
                        key: cur.key,
                        revision: cur.revision,
                        modified_at: cur.modified_at,
                        writer: cur.writer,
                        deleted: cur.deleted,
                        fields: copy_bytes(&cur.fields),
                        created_seq: cur.created_seq,
                        last_seq: seq,
                    };
                    proof {
                        assert(!wins(c@, st.records[i as int]));
                        assert(rec@ == touched(st.records[i as int], seq));
                    }
                    (rec, cur.revision)
                };
                let ghost rv = rec@;
                self.records.set(i, rec);
                self.journal.push(
                    JournalEntry {
                        seq,
                        key: c.key,
                        revision,
                        timestamp: c.client_timestamp,
                        op: c.op,
                    },
                );
                proof {
                    assert(self@.records =~= st.records.update(i as int, rv));
                    assert(self@.journal =~= st.journal.push(entry_for(c@, seq, revision)));
                }
                Ok(())
            },
        }
    }
}

} // verus!
