//! The data that snapshots and diffs are made of.

pub mod diff;
pub mod entry;
pub mod path_map;
pub mod path;
pub mod snapshot;
