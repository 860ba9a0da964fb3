use vstd::prelude::*;

pub mod engine;
pub mod payload;
pub mod store;
pub mod timekey;

verus! {

/// The error kinds of the store: a missing record on an exact lookup, bytes
/// that do not parse back into a key or a payload, and an operational failure
/// of the storage layer (here: any use of a store that was already destroyed).
#[derive(Clone, Copy, Debug, PartialEq, Eq, Structural)]
pub enum TsError {
    NotFound,
    DecodeError,
    StorageError,
}

} // verus!
