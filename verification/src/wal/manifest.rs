//! The log manifest: for each partition, how many records it has written and
//! acknowledged, and the segment file it writes to.

use crate::common::decimal::{decimal, push_decimal};
use crate::common::paths::{join_path, with_extension};
use crate::common::secret::fresh_hmac_key;
use crate::wal::config::DirectoriesConfig;
use std::collections::HashMap;
use std::path::PathBuf;
use vstd::prelude::*;

verus! {

broadcast use vstd::std_specs::hash::group_hash_axioms;

/// The manifest kept in the directory `file_path`.
#[derive(Debug)]
pub struct Manifest {
    pub version: u8,
    pub file_path: String,
    pub wal_manifest: WalManifest,
}

/// The partitions by id, the number of records per segment file and the key
/// that signs records.
#[derive(Debug)]
pub struct WalManifest {
    pub partiton: HashMap<u8, WalPartition>,
    pub max_size: u32,
    pub hmac_key: [u8; 32],
}

/// A partition's current segment file, its last written record and its last
/// acknowledged record.
#[derive(Debug, Clone, Copy)]
pub struct WalPartition {
    pub file_idx: u32,
    pub last_idx: u64,
    pub ack_idx: u64,
}

/// The name of segment file `idx` of partition `service_id`:
/// `"<service_id>_<idx>.wal"`.
pub open spec fn wal_name(service_id: u8, idx: u32) -> Seq<char> {
    decimal(service_id as nat) + seq!['_'] + decimal(idx as nat) + seq!['.', 'w', 'a', 'l']
}

/// The segment file that record `idx` of a partition goes to, with
/// `max_size` records per file, as a 32-bit file number.
pub open spec fn segment_of(idx: u64, max_size: u32) -> u32 {
    (idx / (max_size as u64)) as u32
}

/// `"<service_id>_<idx>.wal"`.
pub fn wal_file_name(service_id: u8, idx: u32) -> (r: String)
    ensures
        r@ == wal_name(service_id, idx),
{
    let mut s = String::new();
    push_decimal(&mut s, service_id as u64);
    proof {
        reveal_strlit("_");
        reveal_strlit(".wal");
    }
    s.append("_");
    push_decimal(&mut s, idx as u64);
    s.append(".wal");
    assert(s@ =~= wal_name(service_id, idx));
    s
}

impl Manifest {
    /// The segment files that hold a partition's records from its last
    /// acknowledged one to its last written one: every file number from that
    /// of `ack_idx` to that of `last_idx`.
    pub fn pending_file_location(&self, service_id: u8) -> (r: Vec<String>)
        requires
            self.wal_manifest.partiton@.contains_key(service_id),
            self.wal_manifest.max_size > 0,
        ensures
            ({
                let p = self.wal_manifest.partiton@[service_id];
                let a = segment_of(p.ack_idx, self.wal_manifest.max_size);
                let b = segment_of(p.last_idx, self.wal_manifest.max_size);
                &&& r@.len() == if a <= b { b - a + 1 } else { 0 }
                &&& forall|k: int| 0 <= k < r@.len() ==> #[trigger] r@[k]@ == wal_name(service_id, (a + k) as u32)
            }),
    {
        let partition = *self.wal_manifest.partiton.get(&service_id).unwrap();
        let max = self.wal_manifest.max_size as u64;
        let ack_file = partition.ack_idx / max;
        let last_file = partition.last_idx / max;
        let first = ack_file as u32;
        let last = last_file as u32;
        let mut result: Vec<String> = Vec::new();
        let mut idx: u64 = first as u64;
        while idx <= last as u64
            invariant
                first <= idx <= last as u64 + 1 || (first > last && idx == first),
                result@.len() == idx - first,
                forall|k: int| 0 <= k < result@.len() ==> #[trigger] result@[k]@ == wal_name(service_id, (first + k) as u32),
            decreases last as u64 + 1 - idx,
        {
            result.push(wal_file_name(service_id, idx as u32));
            idx = idx + 1;
        }
        result
    }

    /// Adds partition `service_id`, with nothing written yet, unless it is
    /// already there.
    pub fn wal_partition_init(&mut self, service_id: u8)
        ensures
            final(self).version == old(self).version,
            final(self).file_path == old(self).file_path,
            final(self).wal_manifest.max_size == old(self).wal_manifest.max_size,
            final(self).wal_manifest.hmac_key == old(self).wal_manifest.hmac_key,
            final(self).wal_manifest.partiton@ == if old(self).wal_manifest.partiton@.contains_key(service_id) {
                old(self).wal_manifest.partiton@
            } else {
                old(self).wal_manifest.partiton@.insert(service_id, WalPartition { file_idx: 0, last_idx: 0, ack_idx: 0 })
            },
    {
        if self.wal_manifest.partiton.get(&service_id).is_none() {
            self.wal_manifest.partiton.insert(service_id, WalPartition { file_idx: 0, last_idx: 0, ack_idx: 0 });
        }
    }

    /// Counts one more record written and acknowledged by partition
    /// `service_id`, moving it to its next segment file when the count of
    /// written records reaches a multiple of `max_size`.
    pub fn wal_maybe_increment(&mut self, service_id: u8)
        requires
            old(self).wal_manifest.partiton@.contains_key(service_id),
            old(self).wal_manifest.max_size > 0,
            old(self).wal_manifest.partiton@[service_id].last_idx < u64::MAX,
            old(self).wal_manifest.partiton@[service_id].ack_idx < u64::MAX,
            (old(self).wal_manifest.partiton@[service_id].last_idx + 1) % (old(self).wal_manifest.max_size as int) == 0
                ==> old(self).wal_manifest.partiton@[service_id].file_idx < u32::MAX,
        ensures
            final(self).version == old(self).version,
            final(self).file_path == old(self).file_path,
            final(self).wal_manifest.max_size == old(self).wal_manifest.max_size,
            final(self).wal_manifest.hmac_key == old(self).wal_manifest.hmac_key,
            ({
                let p = old(self).wal_manifest.partiton@[service_id];
                let last = (p.last_idx + 1) as u64;
                final(self).wal_manifest.partiton@ == old(self).wal_manifest.partiton@.insert(
                    service_id,
                    WalPartition {
                        file_idx: if last % (old(self).wal_manifest.max_size as u64) == 0 {
                            (p.file_idx + 1) as u32
                        } else {
                            p.file_idx
                        },
                        last_idx: last,
                        ack_idx: (p.ack_idx + 1) as u64,
                    },
                )
            }),
    {
        let mut partition = *self.wal_manifest.partiton.get(&service_id).unwrap();
        partition.last_idx += 1;
        partition.ack_idx += 1;
        if partition.last_idx % self.wal_manifest.max_size as u64 == 0 {
            partition.file_idx += 1;
        }
        self.wal_manifest.partiton.insert(service_id, partition);
    }

    /// The name of the segment file that partition `service_id` writes to.
    pub fn wal_filename(&mut self, service_id: u8) -> (r: String)
        requires
            old(self).wal_manifest.partiton@.contains_key(service_id),
        ensures
            r@ == wal_name(service_id, old(self).wal_manifest.partiton@[service_id].file_idx),
            *final(self) == *old(self),
    {
        let partition = self.wal_manifest.partiton.get(&service_id).unwrap();
        wal_file_name(service_id, partition.file_idx)
    }

    /// The path of the manifest file: the file `manifest`, with the
    /// extension `json`, in the configuration directory.
    pub fn manifest_path(config: &DirectoriesConfig) -> (r: PathBuf)
        ensures
            r == crate::common::paths::path_with_extension(
                crate::common::paths::path_join(config.config_directory@, "manifest"@),
                "json"@,
            ),
    {
        proof {
            reveal_strlit("json");
        }
        with_extension(join_path(config.config_directory.as_str(), "manifest"), "json")
    }

    /// A manifest kept in the directory `file_path`, with no partitions, ten
    /// records per segment file and a fresh random signing key.
    pub fn new(file_path: &str) -> (r: Self)
        ensures
            r.version == 1,
            r.file_path@ == file_path@,
            r.wal_manifest.partiton@ == Map::<u8, WalPartition>::empty(),
            r.wal_manifest.max_size == 10,
    {
        Self::with_hmac_key(file_path, fresh_hmac_key())
    }

    /// A manifest kept in the directory `file_path`, with no partitions, ten
    /// records per segment file and the signing key `hmac_key`.
    pub fn with_hmac_key(file_path: &str, hmac_key: [u8; 32]) -> (r: Self)
        ensures
            r.version == 1,
            r.file_path@ == file_path@,
            r.wal_manifest.partiton@ == Map::<u8, WalPartition>::empty(),
            r.wal_manifest.max_size == 10,
            r.wal_manifest.hmac_key == hmac_key,
    {
        Manifest {
            version: 1,
            file_path: file_path.to_owned(),
            wal_manifest: WalManifest { hmac_key, max_size: 10, partiton: HashMap::new() },
        }
    }
}

} // verus!
