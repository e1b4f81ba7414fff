//! Where the storage engine keeps its heap files, its index files and its
//! manifest.

use vstd::prelude::*;

verus! {

/// The storage engine's configuration.
#[derive(Debug)]
pub struct Config {
    pub directories: DirectoriesConfig,
}

/// The directories of heap files, index files and the manifest.
#[derive(Debug, Clone)]
pub struct DirectoriesConfig {
    pub heap_files: String,
    pub index_files: String,
    pub manifest: String,
}

} // verus!
