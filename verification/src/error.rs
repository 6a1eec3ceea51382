//! What can go wrong in the library.

use vstd::prelude::*;

verus! {

/// What is wrong with a file that is not in the expected format.
#[derive(Debug, PartialEq, Eq)]
pub enum FormatProblem {
    /// The file does not start with the magic bytes of a gapped file.
    BadMagic([u8; 9]),
    /// A record has a type that is not known.
    UnknownRecordType(u8),
    /// A diff was made by another version of the format.
    UnsupportedDiffVersion { found: u32, supported: u32 },
    /// A diff ended before all announced file content had come.
    UnresolvedContent,
    /// A file of a split diff is missing though the next one is there; this is
    /// the name without the number, and the number that is missing.
    ChunkGap { base: Vec<u8>, missing: u32 },
}

/// An error of the library.
#[derive(Debug, PartialEq, Eq)]
pub enum GappedError {
    /// The input ended before what was being read was complete.
    UnexpectedEof,
    /// The encoder refused data.
    Compression,
    /// The decoder refused data.
    Decompression,
    /// A file content ended this many bytes before its announced size.
    ContentShort(u64),
    /// A file became shorter while it was being read.
    FileTruncated,
    /// A file is not in the expected format.
    InvalidFormat(FormatProblem),
    /// The checksum at the end of a file is not that of its bytes.
    ChecksumMismatch { expected: [u8; 16], got: [u8; 16] },
    /// A path that is not relative, or that leaves its root.
    InvalidPath(Vec<u8>),
    /// The root directory of a tree does not exist.
    RootNotFound(Vec<u8>),
    /// A simulated state differs from the expected one in this many ways.
    VerificationFailed(usize),
}

} // verus!
