//! The write-ahead log: its configuration, the manifest that tracks each
//! partition's segment files, and the framing of records in a segment.

pub mod config;
pub mod manifest;
pub mod wal;
