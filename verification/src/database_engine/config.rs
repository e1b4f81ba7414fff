//! Where the engine keeps its manifest, its log and its sorted tables.

use vstd::prelude::*;

verus! {

/// The engine's directories.
#[derive(Debug, Clone)]
pub struct StorageConfig {
    pub config_directory: String,
    pub wal_directory: String,
    pub sst_directory: String,
}

} // verus!
