//! The file format of snapshots and diffs.

pub mod checksum;
pub mod compression;
pub mod filter;
pub mod header;
pub mod reader;
pub mod roundtrip;
pub mod writer;
