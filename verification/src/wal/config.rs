//! Where the log keeps its manifest and its segment files.

use vstd::prelude::*;

verus! {

/// The log's configuration.
#[derive(Debug)]
pub struct Config {
    pub directories: DirectoriesConfig,
}

/// The directories of the manifest and of the segment files.
#[derive(Debug, Clone)]
pub struct DirectoriesConfig {
    pub config_directory: String,
    pub wal_directory: String,
}

} // verus!
