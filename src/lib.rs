//! Duplicate-file detection between two directory trees: records and
//! partitioning by size, name and content digest, sampling and digesting of
//! file content, work distribution for hashing workers, and the plan for
//! moving redundant files of the first tree into a `deleted` subtree.

pub mod config;
pub mod fingerprint;
pub mod laws;
pub mod partition;
pub mod quarantine;
pub mod record;
pub mod report;
pub mod schedule;
mod text;
