//! The storage engine: paged B-tree indexes, the table manifest, and the
//! engine's configuration, record and error types.

pub mod btree;
pub mod config;
pub mod manifest;
pub mod paging_btree;
pub mod record;
pub mod storage_error;
pub mod table;
