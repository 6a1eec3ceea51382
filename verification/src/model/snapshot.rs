//! The recorded state of a tree.

use crate::model::entry::Entry;
use vstd::prelude::*;

verus! {

/// The state of a tree at one point in time.
#[derive(Debug)]
pub struct Snapshot {
    pub version: u32,
    pub created_at: i64,
    pub root_dir: String,
    pub entries: Vec<Entry>,
}

impl Snapshot {
    /// Version of the snapshot format.
    pub const CURRENT_VERSION: u32 = 1;
}

} // verus!
