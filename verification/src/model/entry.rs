//! Filesystem entries and their metadata.

use crate::bytes;
use crate::model::path::RelativePath;
use vstd::prelude::*;

verus! {

/// Kind of filesystem entry.
#[derive(Clone, Copy, Debug, PartialEq, Eq, Structural)]
pub enum EntryKind {
    File,
    Directory,
    Symlink,
}

impl EntryKind {
    /// The number that stands for the kind in directory hashes.
    pub open spec fn number(self) -> u8 {
        match self {
            EntryKind::File => 0,
            EntryKind::Directory => 1,
            EntryKind::Symlink => 2,
        }
    }

    /// The number that stands for the kind in directory hashes.
    pub fn code(self) -> (r: u8)
        ensures
            r == self.number(),
    {
        match self {
            EntryKind::File => 0,
            EntryKind::Directory => 1,
            EntryKind::Symlink => 2,
        }
    }
}

/// Metadata for a filesystem entry.
///
/// Equality compares `mtime_nsec` exactly. It is not meant for metadata from
/// two independent filesystem walks: nanosecond precision drifts across
/// filesystems (FAT and some NFS configurations truncate it). There, use
/// [`Metadata::matches`].
#[derive(Clone, Copy, Debug, PartialEq, Eq, Structural)]
pub struct Metadata {
    pub size: u64,
    /// Negative for times before 1970.
    pub mtime_sec: i64,
    pub mtime_nsec: u32,
    pub permissions: u32,
    pub uid: u32,
    pub gid: u32,
}

impl Metadata {
    /// Tolerance for comparing modification times across filesystems, in
    /// nanoseconds: one second, inclusive.
    pub const MTIME_TOLERANCE_NS: i128 = 1_000_000_000;

    /// The modification time in nanoseconds since 1970.
    pub open spec fn mtime_ns(self) -> int {
        self.mtime_sec * 1_000_000_000 + self.mtime_nsec
    }

    /// Whether two modification times lie within the tolerance.
    pub open spec fn mtime_close(self, other: Metadata) -> bool {
        let d = self.mtime_ns() - other.mtime_ns();
        -1_000_000_000 <= d <= 1_000_000_000
    }

    /// Whether everything but the modification time is equal, and that lies
    /// within the tolerance.
    pub open spec fn agrees(self, other: Metadata) -> bool {
        &&& self.size == other.size
        &&& self.permissions == other.permissions
        &&& self.uid == other.uid
        &&& self.gid == other.gid
        &&& self.mtime_close(other)
    }

    /// Fast check used by the hash cache: with the same size and the same
    /// second of modification a known content hash is taken over.
    pub fn size_and_mtime_match(&self, other: &Metadata) -> (r: bool)
        ensures
            r == (self.size == other.size && self.mtime_sec == other.mtime_sec),
    {
        self.size == other.size && self.mtime_sec == other.mtime_sec
    }

    /// Whether two modification times lie within
    /// [`Metadata::MTIME_TOLERANCE_NS`] of each other.
    pub fn mtime_matches(&self, other: &Metadata) -> (r: bool)
        ensures
            r == self.mtime_close(*other),
    {
        let a: i128 = self.mtime_sec as i128 * 1_000_000_000 + self.mtime_nsec as i128;
        let b: i128 = other.mtime_sec as i128 * 1_000_000_000 + other.mtime_nsec as i128;
        let d: i128 = a - b;
        -Self::MTIME_TOLERANCE_NS <= d && d <= Self::MTIME_TOLERANCE_NS
    }

    /// Semantic equality used by `diff` and `verify`: all fields must be equal
    /// except the modification time, which is compared with the tolerance.
    pub fn matches(&self, other: &Metadata) -> (r: bool)
        ensures
            r == self.agrees(*other),
    {
        self.size == other.size && self.permissions == other.permissions && self.uid == other.uid
            && self.gid == other.gid && self.mtime_matches(other)
    }
}

/// Metadata agrees with itself, and with whatever agrees with it. (It is not
/// transitive: the tolerance adds up.)
pub proof fn law_agreement_is_reflexive_and_symmetric(a: Metadata, b: Metadata)
    ensures
        a.agrees(a),
        a.agrees(b) <==> b.agrees(a),
{
}

/// A content hash as plain bytes.
pub open spec fn hash_view(h: Option<[u8; 16]>) -> Option<Seq<u8>> {
    match h {
        Some(a) => Some(a@),
        None => None,
    }
}

/// An optional byte string.
pub open spec fn target_view(t: Option<Vec<u8>>) -> Option<Seq<u8>> {
    match t {
        Some(v) => Some(v@),
        None => None,
    }
}

/// What an [`Entry`] says.
#[verifier::ext_equal]
pub struct EntryModel {
    pub path: Seq<Seq<u8>>,
    pub kind: EntryKind,
    pub metadata: Metadata,
    pub hash: Option<Seq<u8>>,
    pub symlink_target: Option<Seq<u8>>,
    pub dir_hash: Option<Seq<u8>>,
}

/// A single filesystem entry.
#[derive(Debug, PartialEq, Eq)]
pub struct Entry {
    pub path: RelativePath,
    pub kind: EntryKind,
    pub metadata: Metadata,
    /// Content hash of a file.
    pub hash: Option<[u8; 16]>,
    /// Where a symbolic link points.
    pub symlink_target: Option<Vec<u8>>,
    /// Hash over the children of a directory.
    pub dir_hash: Option<[u8; 16]>,
}

impl View for Entry {
    type V = EntryModel;

    open spec fn view(&self) -> EntryModel {
        EntryModel {
            path: self.path@,
            kind: self.kind,
            metadata: self.metadata,
            hash: hash_view(self.hash),
            symlink_target: target_view(self.symlink_target),
            dir_hash: hash_view(self.dir_hash),
        }
    }
}

/// What the entries of a list say.
pub open spec fn entry_views(v: Seq<Entry>) -> Seq<EntryModel> {
    v.map_values(|e: Entry| e@)
}

/// Whether two optional hashes are the same.
pub fn same_hash(a: &Option<[u8; 16]>, b: &Option<[u8; 16]>) -> (r: bool)
    ensures
        r == (hash_view(*a) == hash_view(*b)),
{
    match (a, b) {
        (Some(x), Some(y)) => bytes::bytes_equal(x.as_slice(), y.as_slice()),
        (None, None) => true,
        _ => false,
    }
}

/// Whether two optional byte strings are the same.
pub fn same_target(a: &Option<Vec<u8>>, b: &Option<Vec<u8>>) -> (r: bool)
    ensures
        r == (target_view(*a) == target_view(*b)),
{
    match (a, b) {
        (Some(x), Some(y)) => bytes::bytes_equal(x.as_slice(), y.as_slice()),
        (None, None) => true,
        _ => false,
    }
}

/// A copy of an optional byte string.
pub fn copy_target(t: &Option<Vec<u8>>) -> (r: Option<Vec<u8>>)
    ensures
        target_view(r) == target_view(*t),
{
    match t {
        Some(v) => {
            let c = v.clone();
            assert(c@ =~= v@);
            Some(c)
        },
        None => None,
    }
}

impl Clone for Entry {
    fn clone(&self) -> (r: Self)
        ensures
            r@ == self@,
    {
        Entry {
            path: self.path.clone(),
            kind: self.kind,
            metadata: self.metadata,
            hash: self.hash,
            symlink_target: copy_target(&self.symlink_target),
            dir_hash: self.dir_hash,
        }
    }
}

} // verus!
