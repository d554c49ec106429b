//! Error kinds of the store and of the chunk codec.

use vstd::prelude::*;

verus! {

/// Failure kinds reported by store operations.
#[derive(Clone, Copy, Debug, PartialEq, Eq, Structural)]
pub enum StoreError {
    /// A chunk, index, snapshot or group is missing.
    NotFound,
    /// A snapshot directory was already present on creation.
    AlreadyExists,
    /// Owner mismatch, a held lock, or a collector already running.
    Conflict,
    /// A checksum, digest, size or count did not match.
    Integrity,
    /// Removal was refused because the snapshot is protected.
    Protected,
    /// A malformed request: unknown writer, unknown chunk, bad name.
    Protocol,
    /// The operation was aborted.
    Cancelled,
    /// A lock could not be taken within its budget.
    TimedOut,
    /// A routine of the underlying libraries could not be set up.
    Unavailable,
}

/// Failure kinds of decoding one chunk blob.
#[derive(Clone, Copy, Debug, PartialEq, Eq, Structural)]
pub enum BlobError {
    /// The leading four bytes name no known format.
    BadMagic,
    /// The stored checksum does not cover the body.
    BadCrc,
    /// An encrypted body failed authentication.
    AuthFailed,
    /// The compressed body cannot be expanded.
    DecompressError,
    /// The plaintext hashes to a different digest than expected.
    DigestMismatch,
}

impl StoreError {
    /// A short name of the error kind, for reports.
    pub fn message(&self) -> (r: &'static str)
    {
        match self {
            StoreError::NotFound => "not found",
            StoreError::AlreadyExists => "already exists",
            StoreError::Conflict => "conflict",
            StoreError::Integrity => "integrity check failed",
            StoreError::Protected => "snapshot is protected",
            StoreError::Protocol => "protocol violation",
            StoreError::Cancelled => "cancelled",
            StoreError::TimedOut => "timed out",
            StoreError::Unavailable => "routine unavailable",
        }
    }
}

impl BlobError {
    /// A short name of the error kind, for reports.
    pub fn message(&self) -> (r: &'static str)
    {
        match self {
            BlobError::BadMagic => "bad magic number",
            BlobError::BadCrc => "crc mismatch",
            BlobError::AuthFailed => "authentication failed",
            BlobError::DecompressError => "decompression failed",
            BlobError::DigestMismatch => "digest mismatch",
        }
    }
}

} // verus!
