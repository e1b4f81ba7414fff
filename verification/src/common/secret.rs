//! Fresh secret keys for signing log records.

use rand::Rng;
use vstd::prelude::*;

verus! {

/// 32 bytes from `rand::thread_rng()`, filled in by `rand::Rng::fill`; they
/// depend on the generator's state, so nothing is promised of them.
#[verifier::external_body]
pub(crate) fn fresh_hmac_key() -> [u8; 32] {
    let mut key = [0u8; 32];
    rand::thread_rng().fill(&mut key);
    key
}

} // verus!
