//! Classifies version changes between two lock-file snapshots as breaking or not.

pub mod cli;
pub mod compare;
pub mod lockfile;
pub mod output;
pub mod version;
