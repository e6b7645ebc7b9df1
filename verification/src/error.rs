//! The error kinds that the replica engine and its capabilities report.

use vstd::prelude::*;

verus! {

/// One error kind for every failure class the engine distinguishes.
///
/// Not-found on optional reads and removes is normalized to success by the
/// storage capability and never surfaces here.
#[derive(Debug, Clone)]
pub enum Error {
    /// A parsed blob's version tag is outside the supported set.
    VersionMismatch { expected: Vec<u128>, got: u128 },
    /// A buffer was shorter than the 16-byte version prefix, or an inner
    /// structure was malformed.
    FramingInvalid,
    /// A message-pack encode or decode failure.
    Serialization,
    /// An invalid key length, an AEAD authentication failure, or an
    /// unavailable random source.
    CryptoFailure,
    /// An I/O failure inside the blob store capability.
    StorageFailure,
    /// A non-contiguous op run, or a duplicate `(actor, version)` write.
    Integrity,
    /// A precondition violation: opening without `create` and without local
    /// meta, a missing latest key, or local meta not loaded.
    Precondition,
}

} // verus!
