//! Record kinds, records, client changes and journal entries.
use vstd::prelude::*;

verus! {

/// The three kinds of record that are synchronized.
#[derive(Clone, Copy, PartialEq, Eq, Structural, Debug)]
pub enum RecordKind {
    TimeEntry,
    Project,
    Category,
}

/// What a change does to a record.
#[derive(Clone, Copy, PartialEq, Eq, Structural, Debug)]
pub enum Operation {
    Create,
    Update,
    Delete,
}

/// A record's identity: its id is unique within its kind.
#[derive(Clone, Copy, PartialEq, Eq, Structural, Debug)]
pub struct RecordKey {
    pub kind: RecordKind,
    pub id: u64,
}

/// A stored record. `fields` holds the encoded domain fields of the record
/// (start, end, references, note, name...), which the sync core carries but
/// never interprets.
#[derive(Debug)]
pub struct Record {
    pub key: RecordKey,
    /// Number of accepted mutations of this record.
    pub revision: u64,
    /// Client timestamp of the write whose fields are stored.
    pub modified_at: u64,
    /// Client id of the write whose fields are stored.
    pub writer: u64,
    /// Tombstone flag: deleted records are kept.
    pub deleted: bool,
    pub fields: Vec<u8>,
    /// Journal sequence number of the entry that created the record.
    pub created_seq: u64,
    /// Journal sequence number of the latest entry about the record.
    pub last_seq: u64,
}

pub struct RecordView {
    pub key: RecordKey,
    pub revision: u64,
    pub modified_at: u64,
    pub writer: u64,
    pub deleted: bool,
    pub fields: Seq<u8>,
    pub created_seq: u64,
    pub last_seq: u64,
}

impl View for Record {
    type V = RecordView;

    open spec fn view(&self) -> RecordView {
        RecordView {
            key: self.key,
            revision: self.revision,
            modified_at: self.modified_at,
            writer: self.writer,
            deleted: self.deleted,
            fields: self.fields@,
            created_seq: self.created_seq,
            last_seq: self.last_seq,
        }
    }
}

/// One locally mutated record submitted by a client, with the revision the
/// client last saw (`base_revision`, 0 for a record it creates).
#[derive(Debug)]
pub struct Change {
    pub key: RecordKey,
    pub base_revision: u64,
    pub op: Operation,
    pub fields: Vec<u8>,
    pub client_timestamp: u64,
    pub client_id: u64,
}

pub struct ChangeView {
    pub key: RecordKey,
    pub base_revision: u64,
    pub op: Operation,
    pub fields: Seq<u8>,
    pub client_timestamp: u64,
    pub client_id: u64,
}

impl View for Change {
    type V = ChangeView;

    open spec fn view(&self) -> ChangeView {
        ChangeView {
            key: self.key,
            base_revision: self.base_revision,
            op: self.op,
            fields: self.fields@,
            client_timestamp: self.client_timestamp,
            client_id: self.client_id,
        }
    }
}

/// An immutable entry of the change journal.
#[derive(Clone, Copy, PartialEq, Eq, Structural, Debug)]
pub struct JournalEntry {
    /// Position in the journal, starting at 1, without gaps.
    pub seq: u64,
    pub key: RecordKey,
    /// Revision of the record after the change.
    pub revision: u64,
    /// Client timestamp of the change.
    pub timestamp: u64,
    pub op: Operation,
}

/// What makes a sync call fail. No error leaves a partial commit behind.
#[derive(Clone, Copy, PartialEq, Eq, Structural, Debug)]
pub enum SyncError {
    /// The request is malformed (a negative watermark).
    Validation,
    /// The client's watermark is ahead of the journal.
    InvalidWatermark,
    /// A change claims a base revision newer than the stored one.
    StaleClient { key: RecordKey },
    /// A counter of the store is exhausted.
    Storage,
}

/// Copies a byte buffer.
pub fn copy_bytes(b: &Vec<u8>) -> (r: Vec<u8>)
    ensures
        r@ == b@,
{
    let r = b.clone();
    proof {
        assert(r@ =~= b@);
    }
    r
}

impl Change {
    pub fn new(
        kind: RecordKind,
        id: u64,
        base_revision: u64,
        op: Operation,
        fields: Vec<u8>,
        client_timestamp: u64,
        client_id: u64,
    ) -> (r: Change)
        ensures
            r@ == (ChangeView {
                key: RecordKey { kind, id },
                base_revision,
                op,
                fields: fields@,
                client_timestamp,
                client_id,
            }),
    {
        Change { key: RecordKey { kind, id }, base_revision, op, fields, client_timestamp, client_id }
    }
}

impl Record {
    /// A copy of the record.
    pub fn duplicate(&self) -> (r: Record)
        ensures
            r@ == self@,
    {
        Record {
            key: self.key,
            revision: self.revision,
            modified_at: self.modified_at,
            writer: self.writer,
            deleted: self.deleted,
            fields: copy_bytes(&self.fields),
            created_seq: self.created_seq,
            last_seq: self.last_seq,
        }
    }
}

} // verus!
