//! Where a row lives in a heap file, as an index entry records it.

use vstd::prelude::*;

verus! {

/// A versioned pointer to a row.
#[derive(Debug, Clone, Copy)]
pub struct EngineRecord {
    pub version: u8,
    pub data: EngineHeader,
}

/// The start and length of a row in its heap file.
#[derive(Debug, Clone, Copy)]
pub struct EngineHeader {
    pub start_offset: u64,
    pub size: usize,
}

} // verus!
