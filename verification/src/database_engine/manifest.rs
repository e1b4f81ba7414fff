//! The engine manifest: the active log file and the key that signs records.

use crate::common::paths::{join_path, with_extension};
use crate::common::secret::fresh_hmac_key;
use crate::database_engine::config::StorageConfig;
use std::path::PathBuf;
use vstd::prelude::*;

verus! {

/// The engine manifest.
#[derive(Debug)]
pub struct Manifest {
    pub version: usize,
    pub wal_manifest: WalManifest,
}

/// The number of the active log file and the signing key.
#[derive(Debug)]
pub struct WalManifest {
    pub active_idx: usize,
    pub hmac_key: [u8; 32],
}

impl Manifest {
    /// The path of the manifest file: the file `manifest`, with the
    /// extension `json`, in the configuration directory.
    pub fn manifest_path(config: &StorageConfig) -> (r: PathBuf)
        ensures
            r == crate::common::paths::path_with_extension(
                crate::common::paths::path_join(config.config_directory@, "manifest"@),
                "json"@,
            ),
    {
        proof {
            reveal_strlit("json");
        }
        with_extension(join_path(config.config_directory.as_str(), "manifest"), "json")
    }

    /// A manifest at version 1 whose active log file is the first, with a
    /// fresh random signing key.
    pub fn new() -> (r: Self)
        ensures
            r.version == 1,
            r.wal_manifest.active_idx == 0,
    {
        Self::with_hmac_key(fresh_hmac_key())
    }

    /// A manifest at version 1 whose active log file is the first, with the
    /// signing key `hmac_key`.
    pub fn with_hmac_key(hmac_key: [u8; 32]) -> (r: Self)
        ensures
            r.version == 1,
            r.wal_manifest.active_idx == 0,
            r.wal_manifest.hmac_key == hmac_key,
    {
        Manifest { version: 1, wal_manifest: WalManifest { active_idx: 0, hmac_key } }
    }
}

} // verus!
