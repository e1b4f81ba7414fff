//! The database engine's own log: signed records of key updates and
//! deletions, and the manifest that holds the signing key.

pub mod config;
pub mod database_engine_errors;
pub mod manifest;
pub mod wal;
