//! What is found on the filesystem.

pub mod hash;
pub mod metadata;
pub mod walk;
