//! The sync exchange: validate the client's watermark, merge its change set
//! atomically, and answer with the delta after the watermark.
use vstd::prelude::*;
use crate::record::{Change, ChangeView, JournalEntry, Operation, Record, RecordKey, RecordView, SyncError};
use crate::merge::{find, merge_all, step, StoreState};
use crate::store::{journal_after, journal_gapless, keys_unique, lemma_find_unique, linked, SyncStore};

verus! {

/// A record of a delta, flagged for the client as created, updated or deleted.
#[derive(Debug)]
pub struct DeltaItem {
    pub record: Record,
    pub op: Operation,
}

impl View for DeltaItem {
    type V = (RecordView, Operation);

    open spec fn view(&self) -> (RecordView, Operation) {
        (self.record@, self.op)
    }
}

/// The answer to a sync call.
#[derive(Debug)]
pub struct SyncResponse {
    /// The journal's newest sequence number after the call.
    pub new_watermark: u64,
    /// The latest state of each record changed after the client's watermark.
    pub changes: Vec<DeltaItem>,
}

pub struct SyncResponseView {
    pub new_watermark: u64,
    pub changes: Seq<(RecordView, Operation)>,
}

impl View for SyncResponse {
    type V = SyncResponseView;

    open spec fn view(&self) -> SyncResponseView {
        SyncResponseView {
            new_watermark: self.new_watermark,
            changes: self.changes@.map_values(|d: DeltaItem| d@),
        }
    }
}

/// How a record is flagged for a client whose watermark is `cursor`.
pub open spec fn op_flag(r: RecordView, cursor: int) -> Operation {
    if r.deleted {
        Operation::Delete
    } else if r.created_seq > cursor {
        Operation::Create
    } else {
        Operation::Update
    }
}

/// What a journal entry contributes to a delta: the record's current state,
/// when the entry is the record's latest one.
pub open spec fn emit(st: StoreState, cursor: int, e: JournalEntry) -> Seq<(RecordView, Operation)> {
    match find(st.records, e.key) {
        Some(j) => if st.records[j].last_seq == e.seq {
            seq![(st.records[j], op_flag(st.records[j], cursor))]
        } else {
            Seq::empty()
        },
        None => Seq::empty(),
    }
}

/// The delta materialized from a run of journal entries.
pub open spec fn delta_of(st: StoreState, cursor: int, es: Seq<JournalEntry>) -> Seq<
    (RecordView, Operation),
>
    decreases es.len(),
{
    if es.len() == 0 {
        Seq::empty()
    } else {
        delta_of(st, cursor, es.drop_last()) + emit(st, cursor, es.last())
    }
}

/// The delta for a client whose watermark is `cursor`: one item per record
/// changed after it, in the order of the records' latest changes.
pub open spec fn delta(st: StoreState, cursor: int) -> Seq<(RecordView, Operation)> {
    delta_of(st, cursor, journal_after(st.journal, cursor))
}

/// A whole sync call: the store after it and the response, or the error.
pub open spec fn sync_spec(st: StoreState, last_synced_at: int, cs: Seq<ChangeView>) -> Result<
    (StoreState, SyncResponseView),
    SyncError,
> {
    if last_synced_at < 0 {
        Err(SyncError::Validation)
    } else if last_synced_at > st.journal.len() {
        Err(SyncError::InvalidWatermark)
    } else {
        match merge_all(st, cs) {
            Ok(st2) => Ok(
                (
                    st2,
                    SyncResponseView {
                        new_watermark: st2.journal.len() as u64,
                        changes: delta(st2, last_synced_at),
                    },
                ),
            ),
            Err(e) => Err(e),
        }
    }
}

/// The views of a change set.
pub open spec fn changes_view(cs: Seq<Change>) -> Seq<ChangeView> {
    cs.map_values(|c: Change| c@)
}

/// Once a change set is refused, merging more changes keeps it refused.
proof fn lemma_merge_refused(st: StoreState, cs: Seq<ChangeView>, i: int)
    requires
        0 <= i <= cs.len(),
        merge_all(st, cs.take(i)) is Err,
    ensures
        merge_all(st, cs) == merge_all(st, cs.take(i)),
    decreases cs.len(),
{
    if i == cs.len() {
        assert(cs.take(i) =~= cs);
    } else {
        assert(cs.drop_last().take(i) =~= cs.take(i));
        lemma_merge_refused(st, cs.drop_last(), i);
    }
}

/// The delta item for the record stored under `k`.
pub open spec fn current_item(st: StoreState, cursor: int, k: RecordKey) -> (RecordView, Operation) {
    let r = st.records[find(st.records, k)->Some_0];
    (r, op_flag(r, cursor))
}

/// The delta built from the entries from `cursor` up to `n` holds, once
/// each, the current state of the records whose latest entry lies there.
proof fn lemma_delta_prefix(st: StoreState, cursor: int, n: int)
    requires
        journal_gapless(st.journal),
        keys_unique(st.records),
        linked(st),
        0 <= cursor <= n <= st.journal.len(),
    ensures
        ({
            let d = delta_of(st, cursor, st.journal.subrange(cursor, n));
            &&& forall|a: int|
                #![trigger d[a]]
                0 <= a < d.len() ==> find(st.records, d[a].0.key) is Some && d[a] == current_item(
                    st,
                    cursor,
                    d[a].0.key,
                ) && cursor < d[a].0.last_seq <= n
            &&& forall|a: int, b: int|
                0 <= a < b < d.len() ==> (#[trigger] d[a]).0.key != (#[trigger] d[b]).0.key
            &&& forall|j: int|
                #![trigger st.records[j]]
                0 <= j < st.records.len() && cursor < st.records[j].last_seq <= n ==> exists|a: int|
                    0 <= a < d.len() && (#[trigger] d[a]).0.key == st.records[j].key
        }),
    decreases n - cursor,
{
    let es = st.journal.subrange(cursor, n);
    let d = delta_of(st, cursor, es);
    if n > cursor {
        lemma_delta_prefix(st, cursor, n - 1);
        assert(es.drop_last() =~= st.journal.subrange(cursor, n - 1));
        let d0 = delta_of(st, cursor, st.journal.subrange(cursor, n - 1));
        let e = st.journal[n - 1];
        assert(es.last() == e);
        let em = emit(st, cursor, e);
        assert(d == d0 + em);
        assert(e.seq == n);
        if find(st.records, e.key) is Some {
            crate::merge::lemma_find_found(st.records, e.key, 0);
        }
        assert forall|a: int| #![trigger d[a]] 0 <= a < d.len() implies find(st.records, d[a].0.key) is Some
            && d[a] == current_item(st, cursor, d[a].0.key) && cursor < d[a].0.last_seq <= n by {
            if a < d0.len() {
                assert(d[a] == d0[a]);
            } else {
                assert(d[a] == em[a - d0.len()]);
            }
        }
        assert forall|a: int, b: int|
            0 <= a < b < d.len() implies (#[trigger] d[a]).0.key != (#[trigger] d[b]).0.key by {
            assert(d[a] == d0[a]);
            if b < d0.len() {
                assert(d[b] == d0[b]);
            } else {
                assert(d[b] == em[0]);
            }
        }
        assert forall|j: int|
            #![trigger st.records[j]]
            0 <= j < st.records.len() && cursor < st.records[j].last_seq <= n implies exists|a: int|
                0 <= a < d.len() && (#[trigger] d[a]).0.key == st.records[j].key by {
            if st.records[j].last_seq == n {
                crate::store::lemma_linked_at(st, j, 0);
                lemma_find_unique(st.records, j);
                assert(d[d0.len() as int] == em[0]);
            } else {
                let a0 = choose|a: int| 0 <= a < d0.len() && (#[trigger] d0[a]).0.key == st.records[j].key;
                assert(d[a0] == d0[a0]);
            }
        }
    }
}

/// A delta is exact: it holds each record that has a journal entry after the
/// cursor exactly once, in its current state with its create, update or
/// delete flag, and nothing else.
pub proof fn lemma_delta_exact(st: StoreState, cursor: int)
    requires
        journal_gapless(st.journal),
        keys_unique(st.records),
        linked(st),
        0 <= cursor <= st.journal.len(),
    ensures
        ({
            let d = delta(st, cursor);
            &&& forall|a: int|
                #![trigger d[a]]
                0 <= a < d.len() ==> find(st.records, d[a].0.key) is Some && d[a] == current_item(
                    st,
                    cursor,
                    d[a].0.key,
                ) && cursor < d[a].0.last_seq && st.journal[d[a].0.last_seq - 1].key == d[a].0.key
            &&& forall|a: int, b: int|
                0 <= a < b < d.len() ==> (#[trigger] d[a]).0.key != (#[trigger] d[b]).0.key
            &&& forall|j: int, i: int|
                0 <= j < st.records.len() && cursor <= i < st.journal.len() && (#[trigger] st.journal[i]).key
                    == (#[trigger] st.records[j]).key ==> exists|a: int|
                    0 <= a < d.len() && (#[trigger] d[a]).0.key == st.records[j].key
        }),
{
    let n = st.journal.len() as int;
    lemma_delta_prefix(st, cursor, n);
    let d = delta(st, cursor);
    assert forall|a: int| #![trigger d[a]] 0 <= a < d.len() implies st.journal[d[a].0.last_seq - 1].key
        == d[a].0.key by {
        crate::merge::lemma_find_found(st.records, d[a].0.key, 0);
        crate::store::lemma_linked_at(st, find(st.records, d[a].0.key)->Some_0, 0);
    }
    assert forall|j: int, i: int|
        0 <= j < st.records.len() && cursor <= i < st.journal.len() && (#[trigger] st.journal[i]).key
            == (#[trigger] st.records[j]).key implies exists|a: int|
            0 <= a < d.len() && (#[trigger] d[a]).0.key == st.records[j].key by {
        crate::store::lemma_linked_at(st, j, i);
    }
}

/// Each merged change adds one journal entry, and the journal never grows
/// past the largest sequence number.
proof fn lemma_merge_len(st: StoreState, cs: Seq<ChangeView>)
    requires
        merge_all(st, cs) is Ok,
    ensures
        merge_all(st, cs)->Ok_0.journal.len() == st.journal.len() + cs.len(),
        cs.len() > 0 ==> merge_all(st, cs)->Ok_0.journal.len() <= u64::MAX,
    decreases cs.len(),
{
    if cs.len() > 0 {
        lemma_merge_len(st, cs.drop_last());
    }
}

/// A client that re-syncs at once with the watermark it was given, and with
/// no new changes, receives an empty delta and keeps its watermark.
pub proof fn lemma_resync_is_empty(st: StoreState, last_synced_at: int, cs: Seq<ChangeView>)
    requires
        st.journal.len() <= u64::MAX,
        sync_spec(st, last_synced_at, cs) is Ok,
    ensures
        ({
            let (st2, resp) = sync_spec(st, last_synced_at, cs)->Ok_0;
            let again = sync_spec(st2, resp.new_watermark as int, Seq::empty());
            &&& again is Ok
            &&& again->Ok_0.0 == st2
            &&& again->Ok_0.1.new_watermark == resp.new_watermark
            &&& again->Ok_0.1.changes.len() == 0
        }),
{
    let st2 = merge_all(st, cs)->Ok_0;
    lemma_merge_len(st, cs);
    assert(journal_after(st2.journal, st2.journal.len() as int).len() == 0);
}

impl SyncStore {
    /// The delta for a client whose watermark is `cursor`, computed from the
    /// journal entries after it.
    pub fn delta(&self, cursor: u64) -> (r: Vec<DeltaItem>)
        requires
            self.wf(),
        ensures
            r@.map_values(|d: DeltaItem| d@) == delta(self@, cursor as int),
    {
        let es = self.entries_after(cursor);
        let mut out: Vec<DeltaItem> = Vec::new();
        let mut i: usize = 0;
        while i < es.len()
            invariant
                0 <= i <= es@.len(),
                es@ == journal_after(self@.journal, cursor as int),
                out@.map_values(|d: DeltaItem| d@) == delta_of(
                    self@,
                    cursor as int,
                    es@.take(i as int),
                ),
            decreases es@.len() - i,
        {
            let e = es[i];
            let ghost before = out@.map_values(|d: DeltaItem| d@);
            proof {
                assert(es@.take(i as int + 1).drop_last() =~= es@.take(i as int));
            }
            match self.get(e.key.kind, e.key.id) {
                Some(rec) => {
                    if rec.last_seq == e.seq {
                        let op = if rec.deleted {
                            Operation::Delete
                        } else if rec.created_seq > cursor {
                            Operation::Create
                        } else {
                            Operation::Update
                        };
                        out.push(DeltaItem { record: rec, op });
                    }
                },
                None => {},
            }
            proof {
                assert(out@.map_values(|d: DeltaItem| d@) =~= before + emit(
                    self@,
                    cursor as int,
                    e,
                ));
            }
            i = i + 1;
        }
        proof {
            assert(es@.take(es@.len() as int) =~= es@);
        }
        out
    }

    /// One sync call: checks the client's watermark, merges its changes in
    /// order as one unit (the first refused change refuses the call and
    /// nothing is committed), then returns the new watermark and the delta
    /// after the client's watermark.
    pub fn sync(&mut self, last_synced_at: i64, changes: &Vec<Change>) -> (r: Result<
        SyncResponse,
        SyncError,
    >)
        requires
            old(self).wf(),
        ensures
            final(self).wf(),
            match sync_spec(old(self)@, last_synced_at as int, changes_view(changes@)) {
                Ok((st, resp)) => r is Ok && final(self)@ == st && r->Ok_0@ == resp,
                Err(e) => r == Err::<SyncResponse, SyncError>(e) && final(self)@ == old(self)@,
            },
    {
        if last_synced_at < 0 {
            return Err(SyncError::Validation);
        }
        let cursor = last_synced_at as u64;
        if cursor > self.watermark() {
            return Err(SyncError::InvalidWatermark);
        }
        let ghost st = self@;
        let ghost cs = changes_view(changes@);
        let mut work = self.duplicate();
        let mut i: usize = 0;
        while i < changes.len()
            invariant
                0 <= i <= changes@.len(),
                cs == changes_view(changes@),
                journal_gapless(st.journal),
                0 <= last_synced_at,
                cursor == last_synced_at as u64,
                cursor <= st.journal.len(),
                self@ == st,
                self.wf(),
                work.wf(),
                merge_all(st, cs.take(i as int)) == Ok::<StoreState, SyncError>(work@),
            decreases changes@.len() - i,
        {
            proof {
                assert(cs.take(i as int + 1).drop_last() =~= cs.take(i as int));
                assert(cs.take(i as int + 1).last() == changes@[i as int]@);
            }
            let ghost w0 = work@;
            match work.apply_change(&changes[i]) {
                Ok(()) => {},
                Err(e) => {
                    proof {
                        assert(merge_all(st, cs.take(i as int + 1)) == step(w0, changes@[i as int]@));
                        lemma_merge_refused(st, cs, i as int + 1);
                    }
                    return Err(e);
                },
            }
            i = i + 1;
        }
        proof {
            assert(cs.take(changes@.len() as int) =~= cs);
        }
        let resp = SyncResponse { new_watermark: work.watermark(), changes: work.delta(cursor) };
        *self = work;
        Ok(resp)
    }
}

} // verus!
