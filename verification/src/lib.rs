//! Offline file synchronizer for air-gapped systems.

pub mod bytes;
pub mod cli;
pub mod commands;
pub mod error;
pub mod format;
pub mod fs;
pub mod laws;
pub mod model;
pub mod order;
pub mod parallel;
pub mod sort;
