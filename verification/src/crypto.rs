//! Trusted bindings for the digest, checksum and compression routines
//! that the chunk codec builds on.
//!
//! Each binding names the outside function it relies on; the names
//! `sha256_of`, `crc32_of`, `zstd_of` and `unzstd_of` stand for the results
//! of those calls, which depend on the input bytes alone.

use vstd::prelude::*;

verus! {

/// The SHA-256 digest of a byte sequence.
pub uninterp spec fn sha256_of(data: Seq<u8>) -> Seq<u8>;

/// The CRC-32 checksum of a byte sequence.
pub uninterp spec fn crc32_of(data: Seq<u8>) -> u32;

/// The zstd-compressed form of a byte sequence, at the level the store uses.
pub uninterp spec fn zstd_of(data: Seq<u8>) -> Seq<u8>;

/// The zstd expansion of a byte sequence, `None` where the bytes are no
/// valid compressed frame.
pub uninterp spec fn unzstd_of(data: Seq<u8>) -> Option<Seq<u8>>;

/// The Blake2b-512 digest of a byte sequence.
pub uninterp spec fn blake2b_of(data: Seq<u8>) -> Seq<u8>;

/// Relies on `openssl::hash::hash` with the Blake2b-512 digest: 64 bytes
/// that depend on the input alone; `None` when the library could not set
/// up the hash context.
#[verifier::external_body]
pub fn blake2b(data: &[u8]) -> (r: Option<Vec<u8>>)
    ensures
        r matches Some(v) ==> v@ == blake2b_of(data@) && v@.len() == 64,
{
    let md = match openssl::hash::MessageDigest::from_name("BLAKE2b512") {
        Some(md) => md,
        None => return None,
    };
    match openssl::hash::hash(md, data) {
        Ok(d) => Some(d.to_vec()),
        Err(_) => None,
    }
}

/// Relies on `openssl::sha::sha256`: the 32-byte SHA-256 digest of the
/// input, a function of the input bytes alone.
#[verifier::external_body]
pub fn sha256(data: &[u8]) -> (r: [u8; 32])
    ensures
        r@ == sha256_of(data@),
{
    openssl::sha::sha256(data)
}

/// Relies on `crc32fast::hash`: the CRC-32 (IEEE) checksum of the input,
/// a function of the input bytes alone.
#[verifier::external_body]
pub fn crc32(data: &[u8]) -> (r: u32)
    ensures
        r == crc32_of(data@),
{
    crc32fast::hash(data)
}

/// Relies on `zstd::bulk::compress` at a fixed level: a lossless frame
/// that `zstd::bulk::decompress` expands back to the input.
#[verifier::external_body]
pub fn zstd_compress(data: &[u8]) -> (r: Option<Vec<u8>>)
    ensures
        r matches Some(v) ==> v@ == zstd_of(data@) && unzstd_of(zstd_of(data@)) == Some(data@),
{
    match zstd::bulk::compress(data, 1) {
        Ok(v) => Some(v),
        Err(_) => None,
    }
}

/// Relies on `zstd::stream::decode_all`: expands a compressed frame, and
/// fails on bytes that are no valid frame; deterministic in the input.
#[verifier::external_body]
pub fn zstd_decompress(data: &[u8]) -> (r: Option<Vec<u8>>)
    ensures
        r matches Some(v) ==> unzstd_of(data@) == Some(v@),
        r is None ==> unzstd_of(data@) is None,
{
    match zstd::stream::decode_all(data) {
        Ok(v) => Some(v),
        Err(_) => None,
    }
}

} // verus!
