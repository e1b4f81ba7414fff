//! Records of the log and how a segment file holds them: each record is
//! stored as its length in eight little-endian bytes followed by its bytes.

use crate::common::key_order::bytes_eq;
use crate::database_engine::wal::hmac_sha256_mac;
use vstd::prelude::*;

verus! {

/// What reading or writing the log can fail with.
#[derive(Debug)]
pub enum WalError {
    Io(std::io::Error),
    Serialization(String),
    InvalidChecksum,
}

/// A record of the log.
#[derive(Debug)]
pub struct WalRecord {
    pub version: u8,
    pub check_sum: [u8; 32],
    pub lsn: u64,
    pub timestamp: u64,
    pub data: Vec<u8>,
}

/// The `k` little-endian bytes of `n` (its low `8 * k` bits).
pub open spec fn le_bytes(n: nat, k: nat) -> Seq<u8>
    decreases k,
{
    if k == 0 {
        Seq::empty()
    } else {
        seq![(n % 256) as u8] + le_bytes(n / 256, (k - 1) as nat)
    }
}

/// The number that the bytes `b` stand for, least significant first.
pub open spec fn le_value(b: Seq<u8>) -> nat
    decreases b.len(),
{
    if b.len() == 0 {
        0
    } else {
        b[0] as nat + 256 * le_value(b.drop_first())
    }
}

/// `256` to the power `k`.
pub open spec fn pow256(k: nat) -> nat
    decreases k,
{
    if k == 0 {
        1
    } else {
        256 * pow256((k - 1) as nat)
    }
}

/// Powers of `256` grow with the exponent.
pub proof fn lemma_pow256_mono(a: nat, b: nat)
    requires
        a <= b,
    ensures
        pow256(a) <= pow256(b),
    decreases b,
{
    if a < b {
        lemma_pow256_mono(a, (b - 1) as nat);
    }
}

/// Bytes hold the number they were made from, when it fits.
pub proof fn lemma_le_roundtrip(n: nat, k: nat)
    requires
        n < pow256(k),
    ensures
        le_bytes(n, k).len() == k,
        le_value(le_bytes(n, k)) == n,
    decreases k,
{
    if k > 0 {
        let p = pow256((k - 1) as nat);
        assert(n / 256 < p) by (nonlinear_arith)
            requires
                n < 256 * p,
        ;
        lemma_le_roundtrip(n / 256, (k - 1) as nat);
        let b = le_bytes(n, k);
        assert(b.drop_first() =~= le_bytes(n / 256, (k - 1) as nat));
        assert(n == (n % 256) + 256 * (n / 256)) by (nonlinear_arith);
    }
}

/// A record's bytes as a segment file holds them: their length in eight
/// little-endian bytes, then the bytes.
pub open spec fn framed(payload: Seq<u8>) -> Seq<u8> {
    le_bytes(payload.len(), 8) + payload
}

/// The records that the bytes `b` of a segment file hold, read in order up to
/// where fewer than eight bytes remain, and whether reading then stopped at a
/// record whose length runs past the end.
pub open spec fn frames(b: Seq<u8>) -> (Seq<Seq<u8>>, bool)
    decreases b.len(),
{
    if b.len() < 8 {
        (Seq::empty(), false)
    } else {
        let n = le_value(b.take(8));
        let rest = b.skip(8);
        if n > rest.len() {
            (Seq::empty(), true)
        } else {
            let more = frames(rest.skip(n as int));
            (seq![rest.take(n as int)] + more.0, more.1)
        }
    }
}

/// Bytes of several records, one after the other.
pub open spec fn all_framed(payloads: Seq<Seq<u8>>) -> Seq<u8>
    decreases payloads.len(),
{
    if payloads.len() == 0 {
        Seq::empty()
    } else {
        framed(payloads[0]) + all_framed(payloads.drop_first())
    }
}

/// Reading a record stored in front of other bytes gives the record back,
/// then what those bytes hold.
pub proof fn lemma_frames_of_framed(p: Seq<u8>, rest: Seq<u8>)
    requires
        p.len() <= u64::MAX,
    ensures
        frames(framed(p) + rest) == (seq![p] + frames(rest).0, frames(rest).1),
{
    assert(pow256(8) == 0x1_0000_0000_0000_0000) by {
        reveal_with_fuel(pow256, 9);
    }
    lemma_le_roundtrip(p.len(), 8);
    let b = framed(p) + rest;
    assert(b.take(8) =~= le_bytes(p.len(), 8));
    assert(b.skip(8) =~= p + rest);
    assert((p + rest).take(p.len() as int) =~= p);
    assert((p + rest).skip(p.len() as int) =~= rest);
}

/// Reading the bytes of records stored one after the other gives the records
/// back, in order, and stops cleanly at the end.
pub proof fn lemma_read_back(payloads: Seq<Seq<u8>>)
    requires
        forall|i: int| 0 <= i < payloads.len() ==> #[trigger] payloads[i].len() <= u64::MAX,
    ensures
        frames(all_framed(payloads)) == (payloads, false),
    decreases payloads.len(),
{
    if payloads.len() == 0 {
        assert(frames(Seq::<u8>::empty()) == (Seq::<Seq<u8>>::empty(), false));
        assert(all_framed(payloads) =~= Seq::<u8>::empty());
    } else {
        let tail = payloads.drop_first();
        assert(payloads[0].len() <= u64::MAX);
        lemma_read_back(tail);
        lemma_frames_of_framed(payloads[0], all_framed(tail));
        assert(seq![payloads[0]] + tail =~= payloads);
    }
}

/// The eight little-endian bytes of `n`.
pub fn u64_to_le(n: u64) -> (r: Vec<u8>)
    ensures
        r@ == le_bytes(n as nat, 8),
{
    let mut r: Vec<u8> = Vec::new();
    let mut x: u64 = n;
    let mut i: u64 = 0;
    while i < 8
        invariant
            i <= 8,
            r@ + le_bytes(x as nat, (8 - i) as nat) == le_bytes(n as nat, 8),
        decreases 8 - i,
    {
        let ghost old_r = r@;
        assert(le_bytes(x as nat, (8 - i) as nat) == seq![(x % 256) as u8] + le_bytes(
            (x / 256) as nat,
            (8 - i - 1) as nat,
        ));
        r.push((x % 256) as u8);
        x = x / 256;
        i = i + 1;
        assert(r@ + le_bytes(x as nat, (8 - i) as nat) =~= old_r + (seq![r@.last()] + le_bytes(
            x as nat,
            (8 - i) as nat,
        )));
    }
    assert(le_bytes(x as nat, 0) =~= Seq::<u8>::empty());
    assert(r@ =~= le_bytes(n as nat, 8));
    r
}

/// The number that the eight bytes `b[at..at + 8]` stand for, least
/// significant first.
pub fn le_to_u64(b: &[u8], at: usize) -> (r: u64)
    requires
        at + 8 <= b@.len(),
    ensures
        r == le_value(b@.subrange(at as int, at + 8)),
{
    let ghost w = b@.subrange(at as int, at + 8);
    proof {
        assert(pow256(7) == 0x100_0000_0000_0000) by {
            reveal_with_fuel(pow256, 8);
        }
    }
    let mut v: u64 = 0;
    let mut i: usize = 8;
    assert(w.skip(8) =~= Seq::<u8>::empty());
    while i > 0
        invariant
            i <= 8,
            at + 8 <= b@.len(),
            w == b@.subrange(at as int, at + 8),
            v == le_value(w.skip(i as int)),
            v < pow256((8 - i) as nat),
            pow256(7) == 0x100_0000_0000_0000,
        decreases i,
    {
        i = i - 1;
        let ghost s = w.skip(i as int);
        assert(s.drop_first() =~= w.skip(i + 1));
        assert(s[0] == b@[at + i]);
        proof {
            let p = pow256((8 - i - 1) as nat);
            lemma_pow256_mono((8 - i - 1) as nat, 7);
            assert(v * 256 + b@[at + i] < 256 * p) by (nonlinear_arith)
                requires
                    v < p,
                    b@[at + i] < 256,
            ;
            assert(256 * p <= 256 * 0x100_0000_0000_0000) by (nonlinear_arith)
                requires
                    p <= 0x100_0000_0000_0000,
            ;
        }
        assert(at + i < b.len());
        v = v * 256 + b[at + i] as u64;
    }
    assert(w.skip(0) =~= w);
    v
}

/// `payload` as a segment file holds it: its length in eight little-endian
/// bytes, then its bytes.
pub fn frame(payload: &[u8]) -> (r: Vec<u8>)
    ensures
        r@ == framed(payload@),
{
    let mut r = u64_to_le(payload.len() as u64);
    let mut i: usize = 0;
    while i < payload.len()
        invariant
            i <= payload@.len(),
            r@ == le_bytes(payload@.len(), 8) + payload@.take(i as int),
        decreases payload@.len() - i,
    {
        r.push(payload[i]);
        i = i + 1;
        assert(r@ =~= le_bytes(payload@.len(), 8) + payload@.take(i as int));
    }
    assert(payload@.take(payload@.len() as int) =~= payload@);
    r
}

/// The records that the bytes of a segment file hold (see `frames`), and
/// whether reading stopped at a record whose length runs past the end.
pub fn split_frames(bytes: &[u8]) -> (r: (Vec<Vec<u8>>, bool))
    ensures
        r.0@.map_values(|f: Vec<u8>| f@) == frames(bytes@).0,
        r.1 == frames(bytes@).1,
{
    let mut out: Vec<Vec<u8>> = Vec::new();
    let mut pos: usize = 0;
    let mut truncated = false;
    let mut done = false;
    assert(bytes@.skip(0) =~= bytes@);
    assert(out@.map_values(|f: Vec<u8>| f@) + frames(bytes@).0 =~= frames(bytes@).0);
    while !done
        invariant
            pos <= bytes@.len(),
            !done ==> !truncated,
            !done ==> frames(bytes@) == (out@.map_values(|f: Vec<u8>| f@) + frames(bytes@.skip(pos as int)).0, frames(
                bytes@.skip(pos as int),
            ).1),
            done ==> frames(bytes@) == (out@.map_values(|f: Vec<u8>| f@), truncated),
        decreases bytes@.len() - pos, if done { 0int } else { 1int },
    {
        let ghost b = bytes@.skip(pos as int);
        let ghost acc = out@.map_values(|f: Vec<u8>| f@);
        if bytes.len() - pos < 8 {
            proof {
                assert(acc + Seq::<Seq<u8>>::empty() =~= acc);
            }
            done = true;
        } else {
            let n = le_to_u64(bytes, pos);
            assert(b.take(8) =~= bytes@.subrange(pos as int, pos + 8));
            if n > (bytes.len() - pos - 8) as u64 {
                proof {
                    assert(acc + Seq::<Seq<u8>>::empty() =~= acc);
                }
                truncated = true;
                done = true;
            } else {
                let start = pos + 8;
                let end = start + n as usize;
                let mut payload: Vec<u8> = Vec::new();
                let mut i: usize = start;
                while i < end
                    invariant
                        start <= i <= end <= bytes@.len(),
                        payload@ == bytes@.subrange(start as int, i as int),
                    decreases end - i,
                {
                    payload.push(bytes[i]);
                    i = i + 1;
                    assert(payload@ =~= bytes@.subrange(start as int, i as int));
                }
                proof {
                    let rest = b.skip(8);
                    assert(rest.take(n as int) =~= payload@);
                    assert(rest.skip(n as int) =~= bytes@.skip(end as int));
                }
                out.push(payload);
                proof {
                    let more = frames(bytes@.skip(end as int));
                    assert(out@.map_values(|f: Vec<u8>| f@) =~= acc.push(payload@));
                    assert(acc.push(payload@) + more.0 =~= acc + (seq![payload@] + more.0));
                }
                pos = end;
            }
        }
    }
    (out, truncated)
}

/// The checksum that signs a record holding `data`: the HMAC-SHA256 of the
/// data under `hmac_key`.
pub open spec fn record_checksum(data: Seq<u8>, hmac_key: Seq<u8>) -> Seq<u8> {
    crate::database_engine::wal::hmac_sha256(data, hmac_key)
}

/// A record of the log holding `data`, as the writer makes it: version 1,
/// sequence number 1, the given time stamp, signed with the HMAC-SHA256 of
/// the data under `hmac_key`.
pub fn new_record(data: Vec<u8>, timestamp: u64, hmac_key: &[u8]) -> (r: WalRecord)
    ensures
        r.version == 1,
        r.lsn == 1,
        r.timestamp == timestamp,
        r.check_sum@ == record_checksum(data@, hmac_key@),
        r.data@ == data@,
{
    let check_sum = hmac_sha256_mac(data.as_slice(), hmac_key);
    WalRecord { version: 1, lsn: 1, timestamp, check_sum, data }
}

/// A record read back: its data when its checksum is the HMAC-SHA256 of the
/// data under `hmac_key`, and `InvalidChecksum` otherwise.
pub fn check_record(record: WalRecord, hmac_key: &[u8]) -> (r: Result<Vec<u8>, WalError>)
    ensures
        record.check_sum@ == record_checksum(record.data@, hmac_key@) ==> (r matches Ok(d) && d@ == record.data@),
        record.check_sum@ != record_checksum(record.data@, hmac_key@) ==> (r matches Err(WalError::InvalidChecksum)),
{
    let computed = hmac_sha256_mac(record.data.as_slice(), hmac_key);
    if bytes_eq(record.check_sum.as_slice(), computed.as_slice()) {
        Ok(record.data)
    } else {
        Err(WalError::InvalidChecksum)
    }
}

} // verus!
