//! The merge engine as a mathematical model: how one client change, or a
//! whole change set, transforms the store and the journal.
use vstd::prelude::*;
use crate::record::{ChangeView, JournalEntry, Operation, RecordKey, RecordView, SyncError};

verus! {

/// The abstract state of a store: its records and its change journal.
pub struct StoreState {
    pub records: Seq<RecordView>,
    pub journal: Seq<JournalEntry>,
}

/// The position of the first record with key `k` at or after position `i`.
pub open spec fn find_from(s: Seq<RecordView>, k: RecordKey, i: int) -> Option<int>
    decreases s.len() - i,
{
    if i < 0 || i >= s.len() {
        None
    } else if s[i].key == k {
        Some(i)
    } else {
        find_from(s, k, i + 1)
    }
}

/// The position of the record with key `k`, if any.
pub open spec fn find(s: Seq<RecordView>, k: RecordKey) -> Option<int> {
    find_from(s, k, 0)
}

/// The stored revision of `k`: 0 for a record that does not exist.
pub open spec fn revision_of(st: StoreState, k: RecordKey) -> int {
    match find(st.records, k) {
        Some(i) => st.records[i].revision as int,
        None => 0,
    }
}

/// Last-writer-wins: the change is newer than the stored write when its
/// `(client_timestamp, client_id)` is lexicographically larger.
pub open spec fn wins(c: ChangeView, r: RecordView) -> bool {
    c.client_timestamp > r.modified_at || (c.client_timestamp == r.modified_at && c.client_id
        > r.writer)
}

/// The record a change creates, as the journal entry `seq`.
pub open spec fn created(c: ChangeView, seq: u64) -> RecordView {
    RecordView {
        key: c.key,
        revision: 1,
        modified_at: c.client_timestamp,
        writer: c.client_id,
        deleted: c.op == Operation::Delete,
        fields: c.fields,
        created_seq: seq,
        last_seq: seq,
    }
}

/// The record after a change is written over it, as the journal entry `seq`.
pub open spec fn written(r: RecordView, c: ChangeView, seq: u64) -> RecordView {
    RecordView {
        key: r.key,
        revision: (r.revision + 1) as u64,
        modified_at: c.client_timestamp,
        writer: c.client_id,
        deleted: c.op == Operation::Delete,
        fields: c.fields,
        created_seq: r.created_seq,
        last_seq: seq,
    }
}

/// The record after a losing change is journaled about it: only the pointer
/// to its latest journal entry moves.
pub open spec fn touched(r: RecordView, seq: u64) -> RecordView {
    RecordView { last_seq: seq, ..r }
}

/// The journal entry for a change that leaves the record at `revision`.
pub open spec fn entry_for(c: ChangeView, seq: u64, revision: u64) -> JournalEntry {
    JournalEntry { seq, key: c.key, revision, timestamp: c.client_timestamp, op: c.op }
}

/// Whether the change is a direct write (its base is the stored revision, or
/// it creates a record that does not exist) or wins a conflict.
pub open spec fn accepted(st: StoreState, c: ChangeView) -> bool {
    match find(st.records, c.key) {
        None => c.base_revision == 0,
        Some(i) => c.base_revision == st.records[i].revision || (c.base_revision
            < st.records[i].revision && wins(c, st.records[i])),
    }
}

/// One merge step: the state after the change, or why it is refused.
pub open spec fn step(st: StoreState, c: ChangeView) -> Result<StoreState, SyncError> {
    let seq = (st.journal.len() + 1) as u64;
    match find(st.records, c.key) {
        None => if c.base_revision != 0 {
            Err(SyncError::StaleClient { key: c.key })
        } else if st.journal.len() >= u64::MAX {
            Err(SyncError::Storage)
        } else {
            Ok(
                StoreState {
                    records: st.records.push(created(c, seq)),
                    journal: st.journal.push(entry_for(c, seq, 1)),
                },
            )
        },
        Some(i) => {
            let r = st.records[i];
            if c.base_revision > r.revision {
                Err(SyncError::StaleClient { key: c.key })
            } else if st.journal.len() >= u64::MAX || r.revision >= u64::MAX {
                Err(SyncError::Storage)
            } else if c.base_revision == r.revision || wins(c, r) {
                Ok(
                    StoreState {
                        records: st.records.update(i, written(r, c, seq)),
                        journal: st.journal.push(entry_for(c, seq, (r.revision + 1) as u64)),
                    },
                )
            } else {
                Ok(
                    StoreState {
                        records: st.records.update(i, touched(r, seq)),
                        journal: st.journal.push(entry_for(c, seq, r.revision)),
                    },
                )
            }
        },
    }
}

/// A whole change set merged in order; the first refused change refuses all.
pub open spec fn merge_all(st: StoreState, cs: Seq<ChangeView>) -> Result<StoreState, SyncError>
    decreases cs.len(),
{
    if cs.len() == 0 {
        Ok(st)
    } else {
        match merge_all(st, cs.drop_last()) {
            Ok(s1) => step(s1, cs.last()),
            Err(e) => Err(e),
        }
    }
}

/// Changes applied one after another, each refused change skipped.
pub open spec fn apply_each(st: StoreState, cs: Seq<ChangeView>) -> StoreState
    decreases cs.len(),
{
    if cs.len() == 0 {
        st
    } else {
        let s1 = apply_each(st, cs.drop_last());
        match step(s1, cs.last()) {
            Ok(s2) => s2,
            Err(_) => s1,
        }
    }
}

/// How many of the changes applied by `apply_each` were accepted.
pub open spec fn count_accepted(st: StoreState, cs: Seq<ChangeView>) -> int
    decreases cs.len(),
{
    if cs.len() == 0 {
        0
    } else {
        let s1 = apply_each(st, cs.drop_last());
        count_accepted(st, cs.drop_last()) + if step(s1, cs.last()) is Ok && accepted(
            s1,
            cs.last(),
        ) {
            1int
        } else {
            0int
        }
    }
}

/// Two sequences with the same keys position by position agree on every lookup.
pub proof fn lemma_find_same_keys(s1: Seq<RecordView>, s2: Seq<RecordView>, k: RecordKey, i: int)
    requires
        s1.len() == s2.len(),
        forall|j: int| 0 <= j < s1.len() ==> #[trigger] s1[j].key == s2[j].key,
    ensures
        find_from(s1, k, i) == find_from(s2, k, i),
    decreases s1.len() - i,
{
    if 0 <= i < s1.len() {
        lemma_find_same_keys(s1, s2, k, i + 1);
    }
}

/// Pushing a record keeps every lookup that succeeded, and finds its key at
/// the end where it was not found before.
pub proof fn lemma_find_push(s: Seq<RecordView>, r: RecordView, k: RecordKey, i: int)
    requires
        0 <= i <= s.len(),
    ensures
        find_from(s.push(r), k, i) == match find_from(s, k, i) {
            Some(j) => Some(j),
            None => if r.key == k {
                Some(s.len() as int)
            } else {
                None::<int>
            },
        },
    decreases s.len() - i,
{
    if i < s.len() {
        assert(s.push(r)[i] == s[i]);
        lemma_find_push(s, r, k, i + 1);
    } else {
        assert(s.push(r)[i] == r);
        assert(find_from(s.push(r), k, i + 1) is None);
    }
}

/// A found position holds the key.
pub proof fn lemma_find_found(s: Seq<RecordView>, k: RecordKey, i: int)
    requires
        find_from(s, k, i) is Some,
    ensures
        0 <= find_from(s, k, i)->Some_0 < s.len(),
        s[find_from(s, k, i)->Some_0].key == k,
    decreases s.len() - i,
{
    if 0 <= i < s.len() && s[i].key != k {
        lemma_find_found(s, k, i + 1);
    }
}

/// A successful step on the key of a change raises its revision by one when
/// the change is accepted and leaves it otherwise; other keys keep theirs.
pub proof fn lemma_step_revision(st: StoreState, c: ChangeView, k: RecordKey)
    requires
        step(st, c) is Ok,
    ensures
        revision_of(step(st, c)->Ok_0, k) == revision_of(st, k) + if k == c.key && accepted(
            st,
            c,
        ) {
            1int
        } else {
            0int
        },
{
    let s2 = step(st, c)->Ok_0;
    match find(st.records, c.key) {
        None => {
            lemma_find_push(st.records, created(c, (st.journal.len() + 1) as u64), k, 0);
            if let Some(m) = find(st.records, k) {
                lemma_find_found(st.records, k, 0);
            }
        },
        Some(i) => {
            lemma_find_found(st.records, c.key, 0);
            assert forall|j: int| 0 <= j < st.records.len() implies #[trigger] st.records[j].key
                == s2.records[j].key by {}
            lemma_find_same_keys(st.records, s2.records, k, 0);
            if let Some(m) = find(st.records, k) {
                lemma_find_found(st.records, k, 0);
            }
        },
    }
}

/// Revisions count accepted changes: after any sequence of changes to one
/// key, its stored revision has grown by exactly the number of changes that
/// were accepted (refused and losing changes leave it as it is).
pub proof fn lemma_revision_counts_accepted(st: StoreState, cs: Seq<ChangeView>, k: RecordKey)
    requires
        forall|i: int| 0 <= i < cs.len() ==> #[trigger] cs[i].key == k,
    ensures
        revision_of(apply_each(st, cs), k) == revision_of(st, k) + count_accepted(st, cs),
    decreases cs.len(),
{
    if cs.len() > 0 {
        let front = cs.drop_last();
        assert forall|i: int| 0 <= i < front.len() implies #[trigger] front[i].key == k by {
            assert(front[i] == cs[i]);
        }
        lemma_revision_counts_accepted(st, front, k);
        let s1 = apply_each(st, front);
        if step(s1, cs.last()) is Ok {
            lemma_step_revision(s1, cs.last(), k);
        }
    }
}

/// For a record that did not exist, the stored revision after any sequence of
/// changes to it equals the number of accepted changes.
pub proof fn lemma_revision_from_new(st: StoreState, cs: Seq<ChangeView>, k: RecordKey)
    requires
        find(st.records, k) is None,
        forall|i: int| 0 <= i < cs.len() ==> #[trigger] cs[i].key == k,
    ensures
        revision_of(apply_each(st, cs), k) == count_accepted(st, cs),
{
    lemma_revision_counts_accepted(st, cs, k);
}

/// The fields, tombstone flag and writer stamp of a record: what a write sets.
pub open spec fn content(r: RecordView) -> (u64, u64, bool, Seq<u8>) {
    (r.modified_at, r.writer, r.deleted, r.fields)
}

/// What a change writes when it wins.
pub open spec fn change_content(c: ChangeView) -> (u64, u64, bool, Seq<u8>) {
    (c.client_timestamp, c.client_id, c.op == Operation::Delete, c.fields)
}

/// A successful step on an existing record keeps it at its position and
/// writes or touches it there, as the merge rules say.
pub proof fn lemma_step_existing(st: StoreState, c: ChangeView, i: int)
    requires
        find(st.records, c.key) == Some(i),
        step(st, c) is Ok,
    ensures
        ({
            let s2 = step(st, c)->Ok_0;
            let r = st.records[i];
            let seq = (st.journal.len() + 1) as u64;
            &&& find(s2.records, c.key) == Some(i)
            &&& s2.records.len() == st.records.len()
            &&& c.base_revision <= r.revision
            &&& s2.records[i] == if c.base_revision == r.revision || wins(c, r) {
                written(r, c, seq)
            } else {
                touched(r, seq)
            }
            &&& s2.journal.len() == st.journal.len() + 1
        }),
{
    let s2 = step(st, c)->Ok_0;
    lemma_find_found(st.records, c.key, 0);
    assert forall|j: int| 0 <= j < st.records.len() implies #[trigger] st.records[j].key
        == s2.records[j].key by {}
    lemma_find_same_keys(st.records, s2.records, c.key, 0);
}

/// Conflict resolution does not depend on arrival order: two changes to one
/// record, both based on a revision older than the stored one and with
/// different `(client_timestamp, client_id)` stamps, leave the same fields,
/// tombstone flag and stamp whichever is merged first; that content is the
/// one of the newest of the stored write and the two changes.
pub proof fn lemma_conflict_order_independent(st: StoreState, c1: ChangeView, c2: ChangeView)
    requires
        c1.key == c2.key,
        find(st.records, c1.key) is Some,
        c1.base_revision < revision_of(st, c1.key),
        c2.base_revision < revision_of(st, c1.key),
        (c1.client_timestamp, c1.client_id) != (c2.client_timestamp, c2.client_id),
        step(st, c1) is Ok,
        step(step(st, c1)->Ok_0, c2) is Ok,
        step(st, c2) is Ok,
        step(step(st, c2)->Ok_0, c1) is Ok,
    ensures
        ({
            let i = find(st.records, c1.key)->Some_0;
            let s12 = step(step(st, c1)->Ok_0, c2)->Ok_0;
            let s21 = step(step(st, c2)->Ok_0, c1)->Ok_0;
            let r = st.records[i];
            &&& content(s12.records[i]) == content(s21.records[i])
            &&& content(s12.records[i]) == if wins(c2, r) && (c2.client_timestamp
                > c1.client_timestamp || (c2.client_timestamp == c1.client_timestamp
                && c2.client_id > c1.client_id)) {
                change_content(c2)
            } else if wins(c1, r) {
                change_content(c1)
            } else if wins(c2, r) {
                change_content(c2)
            } else {
                content(r)
            }
        }),
{
    let i = find(st.records, c1.key)->Some_0;
    let s1 = step(st, c1)->Ok_0;
    let s2 = step(st, c2)->Ok_0;
    lemma_step_existing(st, c1, i);
    lemma_step_existing(st, c2, i);
    lemma_step_existing(s1, c2, i);
    lemma_step_existing(s2, c1, i);
}

} // verus!
