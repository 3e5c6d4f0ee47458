//! Error values surfaced by the store. No panics escape the library's
//! verified functions; every failure is one of these variants.

use vstd::prelude::*;

verus! {

/// The error surface of the store.
#[derive(Debug, Clone)]
pub enum LeftRightTrieError {
    /// The key has no value at the requested version.
    NotFound,
    /// A mutation was requested at a version at or below the latest one.
    VersionNotMonotone,
    /// A read was requested below the oldest retained version.
    StaleRead,
    /// Proof verification failed.
    ProofMismatch,
    /// A persisted node could not be decoded.
    CorruptNode,
    /// The underlying storage reported an error.
    Backend(String),
    /// A user-type encode or decode failed.
    Codec(String),
    /// Catch-all for wrapper adapters.
    Other(String),
}

} // verus!
