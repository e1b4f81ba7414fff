//! Errors of the database engine.

use vstd::prelude::*;

verus! {

/// What the engine can fail with.
#[derive(Debug)]
pub enum DatabaseEngineError {
    Wal(String),
}

} // verus!
