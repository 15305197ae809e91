//! Content-addressed detection and removal of duplicate files.
//!
//! The library holds the decisions of the pipeline: turning a file's bytes into
//! a fingerprinted record, grouping records by fingerprint into a report, and
//! planning and tallying the removal of redundant copies. Walking directories,
//! reading files and removing them is left to the caller.

pub mod deletion;
pub mod grouping;
pub mod record;
