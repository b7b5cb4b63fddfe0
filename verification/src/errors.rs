//! The error kinds that store operations report.

use vstd::prelude::*;

verus! {

/// Everything that can go wrong inside the storage engine.
///
/// `IOError`, `Utf8Error`, `FSExtraError` and `RWLockPoisonError` are never
/// produced by the engine itself; a host that mirrors the volume onto real
/// files maps its own failures onto them.
#[derive(Debug, Clone, Copy, PartialEq, Eq, Structural)]
pub enum NotusError {
    /// An underlying file or directory operation failed.
    IOError,
    /// A path or name was not valid UTF-8.
    Utf8Error,
    /// A directory-level helper of the host failed.
    FSExtraError,
    /// A data record failed its CRC check, or a hint pointed past the end of
    /// the data it was read against.
    CorruptValue,
    /// Compaction could not complete.
    MergeError,
    /// The directory is already locked by an open store.
    LockFailed,
    /// A concurrency primitive of the host was poisoned.
    RWLockPoisonError,
    /// A record header could not be decoded from the bytes at hand.
    DecodeFailure,
    /// Any other failure.
    Unknown,
}

} // verus!
