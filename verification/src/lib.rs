//! Clustering of findings from a Snaffler-style file-scanner triage log.
//!
//! The library has two stages: a record extractor that turns one raw log
//! line into a structured [`snaffler_record::SnafflerRecord`], and a
//! similarity clusterer that partitions the extracted records into groups
//! of textually similar match contexts.

pub mod cluster;
pub mod log;
pub mod similarity;
pub mod snaffler_record;
pub mod timer;
