//! Metadata as the operating system reports it.

use crate::model::entry::Metadata;
use vstd::prelude::*;

verus! {

/// What a node of the filesystem is.
#[derive(Clone, Copy, Debug, PartialEq, Eq, Structural)]
pub enum NodeType {
    File,
    Directory,
    Symlink,
    /// A socket, a pipe, a device.
    Other,
}

/// What the operating system says of a node, without following links.
#[derive(Clone, Copy, Debug, PartialEq, Eq, Structural)]
pub struct RawStat {
    pub node: NodeType,
    pub len: u64,
    pub mtime_sec: i64,
    pub mtime_nsec: i64,
    pub mode: u32,
    pub uid: u32,
    pub gid: u32,
}

impl RawStat {
    /// The metadata that is kept: the size of files only, and of the mode only
    /// the permission bits.
    pub open spec fn kept(self) -> Metadata {
        Metadata {
            size: if self.node == NodeType::File {
                self.len
            } else {
                0
            },
            mtime_sec: self.mtime_sec,
            mtime_nsec: self.mtime_nsec as u32,
            permissions: self.mode & 0o777,
            uid: self.uid,
            gid: self.gid,
        }
    }
}

/// The metadata that is kept of a node.
pub fn collect_metadata(stat: &RawStat) -> (r: Metadata)
    ensures
        r == stat.kept(),
{
    Metadata {
        size: if stat.node == NodeType::File {
            stat.len
        } else {
            0
        },
        mtime_sec: stat.mtime_sec,
        mtime_nsec: stat.mtime_nsec as u32,
        permissions: stat.mode & 0o777,
        uid: stat.uid,
        gid: stat.gid,
    }
}

} // verus!
