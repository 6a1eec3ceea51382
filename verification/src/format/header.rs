//! Layout of a gapped file.
//!
//! A file is made of magic bytes, a length-prefixed header, records, an
//! end-of-records marker and a checksum of everything in front of it. A record
//! is the length of its payload, its type and the payload. In a compressed file
//! everything behind the magic bytes is one zstd stream.

use crate::bytes;
use crate::format::checksum;
use crate::model::diff::Diff;
use crate::model::snapshot::Snapshot;
use vstd::prelude::*;

verus! {

/// Number of magic bytes.
pub const MAGIC_LEN: usize = 9;

/// Magic bytes identifying a gapped file.
pub const MAGIC: [u8; 9] = [0x47, 0x41, 0x50, 0x50, 0x45, 0x44, 0x00, 0x03, 0x00];

/// Magic bytes identifying a zstd-compressed gapped file.
pub const MAGIC_COMPRESSED: [u8; 9] = [0x47, 0x41, 0x50, 0x50, 0x45, 0x44, 0x5a, 0x30, 0x33];

/// End of records marker.
pub const EOR: [u8; 9] = [0, 0, 0, 0, 0, 0, 0, 0, 0];

/// Number of bytes that hold the length of a payload.
pub const RECORD_LEN_SIZE: usize = 8;

/// Number of bytes that hold the type of a record.
pub const RECORD_TYPE_SIZE: usize = 1;

/// Number of bytes in front of a payload.
pub const RECORD_HEADER_SIZE: u64 = 9;

/// Number of bytes behind the last record: the end marker and the checksum.
pub const TRAILER_SIZE: u64 = 25;

/// Record types in the binary format.
#[derive(Clone, Copy, Debug, PartialEq, Eq, Structural)]
pub enum RecordType {
    /// An entry of a snapshot.
    SnapshotEntry,
    /// Metadata of a change in a diff.
    DiffChange,
    /// Raw file content.
    FileContent,
}

impl RecordType {
    /// The byte that stands for the type.
    pub open spec fn number(self) -> u8 {
        match self {
            RecordType::SnapshotEntry => 1,
            RecordType::DiffChange => 2,
            RecordType::FileContent => 3,
        }
    }

    /// The type that a byte stands for.
    pub open spec fn of_number(value: u8) -> Option<RecordType> {
        if value == 1 {
            Some(RecordType::SnapshotEntry)
        } else if value == 2 {
            Some(RecordType::DiffChange)
        } else if value == 3 {
            Some(RecordType::FileContent)
        } else {
            None
        }
    }

    /// The type that a byte stands for.
    pub fn from_u8(value: u8) -> (r: Option<Self>)
        ensures
            r == RecordType::of_number(value),
    {
        match value {
            1 => Some(RecordType::SnapshotEntry),
            2 => Some(RecordType::DiffChange),
            3 => Some(RecordType::FileContent),
            _ => None,
        }
    }

    /// The byte that stands for the type.
    pub fn to_u8(self) -> (r: u8)
        ensures
            r == self.number(),
    {
        match self {
            RecordType::SnapshotEntry => 1,
            RecordType::DiffChange => 2,
            RecordType::FileContent => 3,
        }
    }
}

/// A type is found again from its byte, only its byte gives it, and none has the
/// byte of the end marker.
pub proof fn law_record_types_are_told_apart(t: RecordType, value: u8)
    ensures
        RecordType::of_number(value) == Some(t) <==> value == t.number(),
        RecordType::of_number(0) is None,
{
}

/// A record: its type and its payload.
#[verifier::ext_equal]
pub struct RecordModel {
    pub record_type: RecordType,
    pub payload: Seq<u8>,
}

/// The magic bytes of a compressed or plain file.
pub open spec fn magic_of(compressed: bool) -> Seq<u8> {
    if compressed {
        MAGIC_COMPRESSED@
    } else {
        MAGIC@
    }
}

/// The length of the header as it is stored: its low four bytes.
pub open spec fn stored_header_len(n: nat) -> nat {
    n % 0x1_0000_0000
}

/// The length-prefixed header.
pub open spec fn header_block(header: Seq<u8>) -> Seq<u8> {
    bytes::le_bytes(stored_header_len(header.len()), 4) + header
}

/// Length and type in front of a payload.
pub open spec fn record_head(record_type: RecordType, len: nat) -> Seq<u8> {
    bytes::le_bytes(len, 8) + seq![record_type.number()]
}

/// A record as it is stored.
pub open spec fn record_bytes(r: RecordModel) -> Seq<u8> {
    record_head(r.record_type, r.payload.len()) + r.payload
}

/// Records one after the other.
pub open spec fn records_bytes(rs: Seq<RecordModel>) -> Seq<u8>
    decreases rs.len(),
{
    if rs.len() == 0 {
        Seq::empty()
    } else {
        records_bytes(rs.drop_last()) + record_bytes(rs.last())
    }
}

/// The end marker and the checksum of everything in front of the checksum.
pub open spec fn trailer(before: Seq<u8>) -> Seq<u8> {
    EOR@ + checksum::digest(before + EOR@)
}

/// Everything in front of the end marker, before compression.
pub open spec fn content(magic: Seq<u8>, header: Seq<u8>, rs: Seq<RecordModel>) -> Seq<u8> {
    magic + header_block(header) + records_bytes(rs)
}

/// A whole file, before compression.
pub open spec fn file_bytes(magic: Seq<u8>, header: Seq<u8>, rs: Seq<RecordModel>) -> Seq<u8> {
    content(magic, header, rs) + trailer(content(magic, header, rs))
}

/// File header stored behind the magic bytes.
#[derive(Debug, PartialEq, Eq)]
pub struct FileHeader {
    /// "snapshot" or "diff".
    pub file_type: String,
    /// Version of the format.
    pub version: u32,
    /// Seconds since 1970.
    pub created_at: i64,
    /// For diff files: hash of the source snapshot.
    pub source_snapshot_hash: Option<[u8; 16]>,
    /// For snapshots: informational root directory.
    pub root_dir: Option<String>,
    /// For split diffs: chunk number, from 1, as in the file name.
    pub chunk_index: Option<u32>,
}

impl FileHeader {
    /// Header of a snapshot of `root_dir`, made at `created_at`.
    pub fn snapshot(root_dir: &str, created_at: i64) -> (r: Self)
        ensures
            r.file_type@ == "snapshot"@,
            r.version == Snapshot::CURRENT_VERSION,
            r.created_at == created_at,
            r.source_snapshot_hash is None,
            r.root_dir matches Some(d) && d@ == root_dir@,
            r.chunk_index is None,
    {
        FileHeader {
            file_type: "snapshot".to_owned(),
            version: Snapshot::CURRENT_VERSION,
            created_at,
            source_snapshot_hash: None,
            root_dir: Some(root_dir.to_owned()),
            chunk_index: None,
        }
    }

    /// Header of a diff against the snapshot with the given hash, made at
    /// `created_at`; with its number if it is one of several chunks.
    pub fn diff(
        source_snapshot_hash: [u8; 16],
        chunk_index: Option<u32>,
        created_at: i64,
    ) -> (r: Self)
        ensures
            r.file_type@ == "diff"@,
            r.version == Diff::CURRENT_VERSION,
            r.created_at == created_at,
            r.source_snapshot_hash == Some(source_snapshot_hash),
            r.root_dir is None,
            r.chunk_index == chunk_index,
    {
        FileHeader {
            file_type: "diff".to_owned(),
            version: Diff::CURRENT_VERSION,
            created_at,
            source_snapshot_hash: Some(source_snapshot_hash),
            root_dir: None,
            chunk_index,
        }
    }
}

} // verus!
