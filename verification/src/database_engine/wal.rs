//! Signed log records of the engine: each record carries an HMAC-SHA256 of
//! its key, value and operation, under the manifest's signing key.

use crate::common::key_order::{bytes_eq, copy_bytes};
use crate::database_engine::database_engine_errors::DatabaseEngineError;
use vstd::prelude::*;

verus! {

/// A record as the log stores it.
pub struct WalRecord {
    pub version: u8,
    pub check_sum: [u8; 32],
    pub data: WalRecordData,
}

/// What a record does to its key.
#[derive(Debug, Clone, Copy, PartialEq, Eq, Structural)]
pub enum WalOperation {
    Update,
    Delete,
}

/// A key, its value and what is done to it.
#[derive(Debug)]
pub struct WalRecordData {
    pub key: Vec<u8>,
    pub value: Vec<u8>,
    pub operation: WalOperation,
}

/// The byte that stands for an operation: 1 for `Update`, 2 for `Delete`.
pub open spec fn op_byte(op: WalOperation) -> u8 {
    match op {
        WalOperation::Update => 1,
        WalOperation::Delete => 2,
    }
}

/// The byte that stands for `op`.
pub fn op_code(op: WalOperation) -> (r: u8)
    ensures
        r == op_byte(op),
{
    match op {
        WalOperation::Update => 1,
        WalOperation::Delete => 2,
    }
}

/// The HMAC-SHA256 of `message` under `key`.
pub uninterp spec fn hmac_sha256(message: Seq<u8>, key: Seq<u8>) -> Seq<u8>;

/// `hmac_sha256::HMAC::mac(input, k)`: the HMAC-SHA256 of `input` under key
/// `k`, a function of the two byte strings alone.
#[verifier::external_body]
pub(crate) fn hmac_sha256_mac(input: &[u8], k: &[u8]) -> (r: [u8; 32])
    ensures
        r@ == hmac_sha256(input@, k@),
{
    hmac_sha256::HMAC::mac(input, k)
}

/// The bytes a record's checksum signs: its key, its value, then its
/// operation's byte.
pub open spec fn signed_bytes(key: Seq<u8>, value: Seq<u8>, op: WalOperation) -> Seq<u8> {
    key + value + seq![op_byte(op)]
}

/// The checksum of a key, value and operation under `hmac_key`.
pub open spec fn checksum_of(key: Seq<u8>, value: Seq<u8>, op: WalOperation, hmac_key: Seq<u8>) -> Seq<u8> {
    hmac_sha256(signed_bytes(key, value, op), hmac_key)
}

impl WalRecordData {
    /// The HMAC-SHA256 of this record's key, value and operation byte, in
    /// that order, under `hmac_key`.
    pub fn generate_checksum(&self, hmac_key: &[u8]) -> (r: [u8; 32])
        ensures
            r@ == checksum_of(self.key@, self.value@, self.operation, hmac_key@),
    {
        let mut message = copy_bytes(self.key.as_slice());
        let mut i: usize = 0;
        while i < self.value.len()
            invariant
                i <= self.value@.len(),
                message@ == self.key@ + self.value@.take(i as int),
            decreases self.value@.len() - i,
        {
            message.push(self.value[i]);
            i = i + 1;
            assert(message@ =~= self.key@ + self.value@.take(i as int));
        }
        assert(self.value@.take(self.value@.len() as int) =~= self.value@);
        message.push(op_code(self.operation));
        assert(message@ =~= signed_bytes(self.key@, self.value@, self.operation));
        hmac_sha256_mac(message.as_slice(), hmac_key)
    }
}

/// The record that writing `operation` of `key` with `value` stores: version
/// 1, signed under `hmac_key`.
pub fn signed_record(operation: WalOperation, key: Vec<u8>, value: Vec<u8>, hmac_key: &[u8]) -> (r: WalRecord)
    ensures
        r.version == 1,
        r.data.key@ == key@,
        r.data.value@ == value@,
        r.data.operation == operation,
        r.check_sum@ == checksum_of(key@, value@, operation, hmac_key@),
{
    let wal_record_data = WalRecordData { operation, key, value };
    let check_sum = wal_record_data.generate_checksum(hmac_key);
    WalRecord { version: 1, check_sum, data: wal_record_data }
}

/// A record with checksum `check_sum` and contents `key`, `value`, `op`
/// passes the check under `hmac_key`: the checksum is that of the contents.
pub open spec fn passes_check(check_sum: Seq<u8>, key: Seq<u8>, value: Seq<u8>, op: WalOperation, hmac_key: Seq<u8>) -> bool {
    check_sum == checksum_of(key, value, op, hmac_key)
}

/// A record read back passes when its checksum is that of its contents under
/// `hmac_key` (see `passes_check`); its contents are then handed out, and
/// otherwise the error `"invalid check_sum"`.
pub fn check_record(record: WalRecord, hmac_key: &[u8]) -> (r: Result<WalRecordData, DatabaseEngineError>)
    ensures
        ({
            let ok = passes_check(record.check_sum@, record.data.key@, record.data.value@, record.data.operation, hmac_key@);
            match r {
                Ok(d) => ok && d.key@ == record.data.key@ && d.value@ == record.data.value@ && d.operation
                    == record.data.operation,
                Err(DatabaseEngineError::Wal(m)) => !ok && m@ == "invalid check_sum"@,
            }
        }),
{
    let computed = record.data.generate_checksum(hmac_key);
    if !bytes_eq(record.check_sum.as_slice(), computed.as_slice()) {
        return Err(DatabaseEngineError::Wal("invalid check_sum".to_owned()));
    }
    Ok(record.data)
}

/// A record signed under a key (as `signed_record` makes it) passes the check
/// under the same key, whatever its contents.
pub proof fn lemma_signed_record_checks(key: Seq<u8>, value: Seq<u8>, op: WalOperation, hmac_key: Seq<u8>)
    ensures
        passes_check(checksum_of(key, value, op, hmac_key), key, value, op, hmac_key),
{
}

} // verus!
