//! A small database engine: a write-ahead log, a paged B-tree index and the
//! manifests that describe tables and log segments.

pub mod common;
pub mod database_engine;
pub mod storage;
pub mod wal;
