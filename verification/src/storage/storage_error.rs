//! Errors of the storage engine.

use vstd::prelude::*;

verus! {

/// An I/O error of the standard library, carried through unopened.
#[verifier::external_type_specification]
#[verifier::external_body]
pub struct ExIoError(std::io::Error);

/// What a storage operation can fail with.
#[derive(Debug)]
pub enum StorageError {
    Io(std::io::Error),
    IndexNotFound(String),
    IndexKeyNotFound(),
    TableNotFound(String),
    IndexAlreadyExists(String),
    TableAlreadyExists(String),
    WalServiceNotAvailable(),
    WalWriteFailed(),
}

} // verus!
