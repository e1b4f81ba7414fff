//! The error kinds shared by the engine's layers.

use vstd::prelude::*;

verus! {

/// What reading, decoding or checking stored data can fail with.
#[derive(Debug)]
pub enum Error {
    Io(std::io::Error),
    Serialization(String),
    Deserialization(String),
    InvalidChecksum,
}

} // verus!
