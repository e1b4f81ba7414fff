//! Keys and values as the engine stores them: plain byte strings.

use crate::common::key_order::copy_bytes;
use vstd::prelude::*;

verus! {

/// A key: the bytes it is made of.
#[derive(Debug, Clone, PartialEq, Eq, Hash)]
pub struct Key {
    pub bytes: Vec<u8>,
}

/// A value: the bytes it is made of.
#[derive(Debug, Clone, PartialEq, Eq)]
pub struct Value {
    pub bytes: Vec<u8>,
}

impl Key {
    /// The key made of `bytes`.
    pub fn new(bytes: Vec<u8>) -> (r: Self)
        ensures
            r.bytes@ == bytes@,
    {
        Self { bytes }
    }

    /// The key made of a copy of `slice`.
    pub fn from_slice(slice: &[u8]) -> (r: Self)
        ensures
            r.bytes@ == slice@,
    {
        Self { bytes: copy_bytes(slice) }
    }
}

impl From<Vec<u8>> for Key {
    fn from(bytes: Vec<u8>) -> (r: Self) {
        Self { bytes }
    }
}

impl vstd::std_specs::convert::FromSpecImpl<Vec<u8>> for Key {
    open spec fn obeys_from_spec() -> bool {
        true
    }

    open spec fn from_spec(bytes: Vec<u8>) -> Key {
        Key { bytes }
    }
}

impl AsRef<[u8]> for Key {
    fn as_ref(&self) -> (r: &[u8])
        ensures
            r@ == self.bytes@,
    {
        self.bytes.as_slice()
    }
}

impl Value {
    /// The value made of `bytes`.
    pub fn new(bytes: Vec<u8>) -> (r: Self)
        ensures
            r.bytes@ == bytes@,
    {
        Self { bytes }
    }

    /// The value made of a copy of `slice`.
    pub fn from_slice(slice: &[u8]) -> (r: Self)
        ensures
            r.bytes@ == slice@,
    {
        Self { bytes: copy_bytes(slice) }
    }
}

impl From<Vec<u8>> for Value {
    fn from(bytes: Vec<u8>) -> (r: Self) {
        Self { bytes }
    }
}

impl vstd::std_specs::convert::FromSpecImpl<Vec<u8>> for Value {
    open spec fn obeys_from_spec() -> bool {
        true
    }

    open spec fn from_spec(bytes: Vec<u8>) -> Value {
        Value { bytes }
    }
}

impl AsRef<[u8]> for Value {
    fn as_ref(&self) -> (r: &[u8])
        ensures
            r@ == self.bytes@,
    {
        self.bytes.as_slice()
    }
}

} // verus!
