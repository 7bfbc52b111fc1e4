use time_sync::coordinator::{DeltaItem, SyncResponse};
use time_sync::record::{Change, Operation, RecordKey, RecordKind, SyncError};
use time_sync::store::SyncStore;

fn change(id: u64, base: u64, op: Operation, fields: &[u8], ts: u64, client: u64) -> Change {
    Change::new(RecordKind::TimeEntry, id, base, op, fields.to_vec(), ts, client)
}

fn ok(r: Result<SyncResponse, SyncError>) -> SyncResponse {
    match r {
        Ok(resp) => resp,
        Err(e) => panic!("sync failed: {:?}", e),
    }
}

fn find_item(items: &[DeltaItem], id: u64) -> &DeltaItem {
    items.iter().find(|d| d.record.key.id == id).expect("record in delta")
}

#[test]
fn create_then_other_client_receives_it() {
    let mut store = SyncStore::new();
    let a = ok(store.sync(0, &vec![change(1, 0, Operation::Create, b"t1", 10, 1)]));
    assert_eq!(a.new_watermark, 1);
    let t1 = store.get(RecordKind::TimeEntry, 1).unwrap();
    assert_eq!(t1.revision, 1);
    let b = ok(store.sync(0, &vec![]));
    assert_eq!(b.new_watermark, 1);
    assert_eq!(b.changes.len(), 1);
    assert_eq!(b.changes[0].record.key, RecordKey { kind: RecordKind::TimeEntry, id: 1 });
    assert_eq!(b.changes[0].record.fields, b"t1".to_vec());
    assert_eq!(b.changes[0].op, Operation::Create);
}

fn concurrent_updates(first_ts: u64, second_ts: u64) -> SyncStore {
    let mut store = SyncStore::new();
    ok(store.sync(0, &vec![change(1, 0, Operation::Create, b"orig", 10, 9)]));
    let first_client = if first_ts == 100 { 1 } else { 2 };
    let second_client = if second_ts == 100 { 1 } else { 2 };
    let first_fields: &[u8] = if first_ts == 100 { b"from-a" } else { b"from-b" };
    let second_fields: &[u8] = if second_ts == 100 { b"from-a" } else { b"from-b" };
    ok(store.sync(1, &vec![change(1, 1, Operation::Update, first_fields, first_ts, first_client)]));
    ok(store.sync(1, &vec![change(1, 1, Operation::Update, second_fields, second_ts, second_client)]));
    store
}

#[test]
fn concurrent_updates_later_timestamp_wins_either_order() {
    let s1 = concurrent_updates(200, 100);
    let t = s1.get(RecordKind::TimeEntry, 1).unwrap();
    assert_eq!(t.fields, b"from-b".to_vec());
    assert_eq!(t.modified_at, 200);
    assert_eq!(t.revision, 2);

    let s2 = concurrent_updates(100, 200);
    let t = s2.get(RecordKind::TimeEntry, 1).unwrap();
    assert_eq!(t.fields, b"from-b".to_vec());
    assert_eq!(t.modified_at, 200);
    // the later write overrides an accepted one: a further mutation
    assert_eq!(t.revision, 3);
}

#[test]
fn both_clients_see_the_winning_state_on_next_sync() {
    for (x, y) in [(100u64, 200u64), (200, 100)] {
        let mut store = concurrent_updates(x, y);
        let a = ok(store.sync(1, &vec![]));
        let b = ok(store.sync(1, &vec![]));
        assert_eq!(a.changes.len(), 1);
        assert_eq!(b.changes.len(), 1);
        assert_eq!(a.changes[0].record.fields, b"from-b".to_vec());
        assert_eq!(b.changes[0].record.fields, b"from-b".to_vec());
        assert_eq!(a.changes[0].op, Operation::Update);
    }
}

#[test]
fn impossible_base_revision_is_stale_and_commits_nothing() {
    let mut store = SyncStore::new();
    ok(store.sync(0, &vec![change(1, 0, Operation::Create, b"v1", 1, 1)]));
    ok(store.sync(1, &vec![change(1, 1, Operation::Update, b"v2", 2, 1)]));
    assert_eq!(store.get(RecordKind::TimeEntry, 1).unwrap().revision, 2);
    let before = store.entries_after(0);
    let r = store.sync(2, &vec![
        change(2, 0, Operation::Create, b"other", 3, 1),
        change(1, 5, Operation::Update, b"v3", 3, 1),
    ]);
    assert_eq!(
        r.unwrap_err(),
        SyncError::StaleClient { key: RecordKey { kind: RecordKind::TimeEntry, id: 1 } }
    );
    assert_eq!(store.entries_after(0), before);
    assert_eq!(store.watermark(), 2);
    assert!(store.get(RecordKind::TimeEntry, 2).is_none());
    assert_eq!(store.get(RecordKind::TimeEntry, 1).unwrap().fields, b"v2".to_vec());
}

#[test]
fn revision_counts_accepted_mutations() {
    let mut store = SyncStore::new();
    assert_eq!(store.apply_change(&change(7, 0, Operation::Create, b"a", 10, 1)), Ok(()));
    assert_eq!(store.apply_change(&change(7, 1, Operation::Update, b"b", 20, 1)), Ok(()));
    // behind and older: journaled, not accepted
    assert_eq!(store.apply_change(&change(7, 1, Operation::Update, b"c", 5, 2)), Ok(()));
    assert_eq!(store.get(RecordKind::TimeEntry, 7).unwrap().revision, 2);
    // behind and newer: accepted
    assert_eq!(store.apply_change(&change(7, 1, Operation::Update, b"d", 30, 2)), Ok(()));
    assert_eq!(store.apply_change(&change(7, 3, Operation::Delete, b"d", 40, 1)), Ok(()));
    let r = store.get(RecordKind::TimeEntry, 7).unwrap();
    assert_eq!(r.revision, 4);
    assert!(r.deleted);
    assert_eq!(store.watermark(), 5);
}

#[test]
fn entries_after_is_repeatable() {
    let mut store = SyncStore::new();
    ok(store.sync(0, &vec![
        change(1, 0, Operation::Create, b"x", 1, 1),
        change(2, 0, Operation::Create, b"y", 2, 1),
        change(1, 1, Operation::Update, b"z", 3, 1),
    ]));
    let first = store.entries_after(1);
    let second = store.entries_after(1);
    assert_eq!(first, second);
    assert_eq!(first.len(), 2);
    assert_eq!(first[0].seq, 2);
    assert_eq!(first[1].seq, 3);
    assert_eq!(first[1].revision, 2);
    assert!(store.entries_after(3).is_empty());
    assert!(store.entries_after(9).is_empty());
}

#[test]
fn resync_with_new_watermark_is_empty() {
    let mut store = SyncStore::new();
    let r = ok(store.sync(0, &vec![
        change(1, 0, Operation::Create, b"x", 1, 1),
        change(2, 0, Operation::Create, b"y", 2, 1),
    ]));
    assert_eq!(r.new_watermark, 2);
    assert_eq!(r.changes.len(), 2);
    let again = ok(store.sync(r.new_watermark as i64, &vec![]));
    assert_eq!(again.new_watermark, 2);
    assert!(again.changes.is_empty());
}

#[test]
fn equal_timestamps_larger_client_id_wins_in_any_order() {
    for order in [[3u64, 8u64], [8, 3]] {
        let mut store = SyncStore::new();
        ok(store.sync(0, &vec![change(1, 0, Operation::Create, b"base", 10, 1)]));
        ok(store.sync(1, &vec![change(1, 1, Operation::Update, b"head", 20, 1)]));
        for client in order {
            let fields: &[u8] = if client == 8 { b"eight" } else { b"three" };
            ok(store.sync(2, &vec![change(1, 1, Operation::Update, fields, 50, client)]));
        }
        let t = store.get(RecordKind::TimeEntry, 1).unwrap();
        assert_eq!(t.fields, b"eight".to_vec());
        assert_eq!(t.writer, 8);
    }
}

#[test]
fn stored_newer_write_beats_older_conflicting_change() {
    let mut store = SyncStore::new();
    ok(store.sync(0, &vec![change(1, 0, Operation::Create, b"base", 10, 1)]));
    ok(store.sync(1, &vec![change(1, 1, Operation::Update, b"head", 90, 1)]));
    let r = ok(store.sync(2, &vec![change(1, 1, Operation::Update, b"late", 50, 2)]));
    // the losing change is journaled, so the delta tells the client
    assert_eq!(r.new_watermark, 3);
    assert_eq!(r.changes.len(), 1);
    assert_eq!(r.changes[0].record.fields, b"head".to_vec());
    assert_eq!(r.changes[0].record.revision, 2);
}

#[test]
fn negative_watermark_is_a_validation_error() {
    let mut store = SyncStore::new();
    assert_eq!(store.sync(-1, &vec![]).unwrap_err(), SyncError::Validation);
}

#[test]
fn watermark_ahead_of_journal_is_rejected() {
    let mut store = SyncStore::new();
    ok(store.sync(0, &vec![change(1, 0, Operation::Create, b"x", 1, 1)]));
    assert_eq!(store.sync(2, &vec![]).unwrap_err(), SyncError::InvalidWatermark);
    let r = store.sync(5, &vec![change(2, 0, Operation::Create, b"y", 1, 1)]);
    assert_eq!(r.unwrap_err(), SyncError::InvalidWatermark);
    assert!(store.get(RecordKind::TimeEntry, 2).is_none());
}

#[test]
fn delta_is_deduplicated_and_flagged() {
    let mut store = SyncStore::new();
    ok(store.sync(0, &vec![
        change(1, 0, Operation::Create, b"one", 1, 1),
        change(2, 0, Operation::Create, b"two", 1, 1),
    ]));
    ok(store.sync(2, &vec![
        change(1, 1, Operation::Update, b"one-b", 2, 1),
        change(3, 0, Operation::Create, b"three", 2, 1),
        change(1, 2, Operation::Update, b"one-c", 3, 1),
        change(2, 1, Operation::Delete, b"", 3, 1),
    ]));
    let r = ok(store.sync(2, &vec![]));
    assert_eq!(r.new_watermark, 6);
    assert_eq!(r.changes.len(), 3);
    // ordered by each record's latest change
    assert_eq!(r.changes[0].record.key.id, 3);
    assert_eq!(r.changes[1].record.key.id, 1);
    assert_eq!(r.changes[2].record.key.id, 2);
    assert_eq!(find_item(&r.changes, 3).op, Operation::Create);
    assert_eq!(find_item(&r.changes, 1).op, Operation::Update);
    assert_eq!(find_item(&r.changes, 1).record.fields, b"one-c".to_vec());
    assert_eq!(find_item(&r.changes, 1).record.revision, 3);
    assert_eq!(find_item(&r.changes, 2).op, Operation::Delete);
}

#[test]
fn deleting_a_tombstone_still_increments_revision() {
    let mut store = SyncStore::new();
    ok(store.sync(0, &vec![change(4, 0, Operation::Create, b"x", 1, 1)]));
    ok(store.sync(1, &vec![change(4, 1, Operation::Delete, b"x", 2, 1)]));
    ok(store.sync(2, &vec![change(4, 2, Operation::Delete, b"x", 3, 1)]));
    let r = store.get(RecordKind::TimeEntry, 4).unwrap();
    assert!(r.deleted);
    assert_eq!(r.revision, 3);
    let fresh = ok(store.sync(0, &vec![]));
    assert_eq!(fresh.changes.len(), 1);
    assert_eq!(fresh.changes[0].op, Operation::Delete);
}

#[test]
fn kinds_keep_separate_ids() {
    let mut store = SyncStore::new();
    ok(store.sync(0, &vec![
        Change::new(RecordKind::Project, 1, 0, Operation::Create, b"p".to_vec(), 1, 1),
        Change::new(RecordKind::Category, 1, 0, Operation::Create, b"c".to_vec(), 1, 1),
    ]));
    assert_eq!(store.get(RecordKind::Project, 1).unwrap().fields, b"p".to_vec());
    assert_eq!(store.get(RecordKind::Category, 1).unwrap().fields, b"c".to_vec());
    assert!(store.get(RecordKind::TimeEntry, 1).is_none());
    // a create for an id that exists is a conflict with the stored version
    let r = ok(store.sync(2, &vec![Change::new(RecordKind::Project, 1, 0, Operation::Create, b"q".to_vec(), 2, 1)]));
    assert_eq!(r.changes.len(), 1);
    let p = store.get(RecordKind::Project, 1).unwrap();
    assert_eq!(p.fields, b"q".to_vec());
    assert_eq!(p.revision, 2);
    assert_eq!(store.get(RecordKind::Category, 1).unwrap().revision, 1);
}

#[test]
fn update_of_missing_record_with_nonzero_base_is_stale() {
    let mut store = SyncStore::new();
    let r = store.apply_change(&change(9, 1, Operation::Update, b"x", 1, 1));
    assert_eq!(r, Err(SyncError::StaleClient { key: RecordKey { kind: RecordKind::TimeEntry, id: 9 } }));
    assert_eq!(store.watermark(), 0);
}
