//! What the operations are for, said of what goes in and what comes out.

pub mod applying;
pub mod diffs;
pub mod entries;
pub mod files;
pub mod hashes;
pub mod paths;
pub mod reading;
pub mod sizes;
pub mod splitting;
pub mod verifying;
pub mod walks;
