//! The framed on-disk format of one chunk.
//!
//! A blob is `MAGIC(4) | CRC32(4) | payload`. The magic selects the plain
//! or the compressed variant; the checksum covers everything after the
//! checksum field. `blob_decodes_to` is the exact meaning of a byte
//! sequence under this format, and `encode` / `decode` are proved against
//! it.

use vstd::prelude::*;
use vstd::bytes::{spec_u32_from_le_bytes, spec_u32_to_le_bytes, u32_from_le_bytes, u32_to_le_bytes};
use vstd::slice::slice_to_vec;

use crate::crypto::{crc32, crc32_of, sha256, sha256_of, unzstd_of, zstd_compress, zstd_decompress, zstd_of};
use crate::error::BlobError;

verus! {

/// Leading bytes of a blob that stores its payload as plaintext.
pub open spec fn magic_plain() -> Seq<u8> {
    seq![0x50u8, 0x42u8, 0x53u8, 0x55u8]
}

/// Leading bytes of a blob that stores its payload zstd-compressed.
pub open spec fn magic_compressed() -> Seq<u8> {
    seq![0x50u8, 0x42u8, 0x53u8, 0x43u8]
}

/// The magic field of a framed byte sequence.
pub open spec fn blob_magic(raw: Seq<u8>) -> Seq<u8> {
    raw.subrange(0, 4)
}

/// The checksum field of a framed byte sequence.
pub open spec fn blob_crc(raw: Seq<u8>) -> u32 {
    spec_u32_from_le_bytes(raw.subrange(4, 8))
}

/// The payload of a framed byte sequence.
pub open spec fn blob_payload(raw: Seq<u8>) -> Seq<u8> {
    raw.skip(8)
}

/// Whether the frame begins with a known magic.
pub open spec fn blob_magic_known(raw: Seq<u8>) -> bool {
    raw.len() >= 8 && (blob_magic(raw) == magic_plain() || blob_magic(raw) == magic_compressed())
}

/// Whether the stored checksum covers the payload.
pub open spec fn blob_crc_ok(raw: Seq<u8>) -> bool {
    blob_crc(raw) == crc32_of(blob_payload(raw))
}

/// The plaintext a framed byte sequence decodes to, or `None` where the
/// frame is rejected.
pub open spec fn blob_decodes_to(raw: Seq<u8>) -> Option<Seq<u8>> {
    if !blob_magic_known(raw) {
        Option::None
    } else if !blob_crc_ok(raw) {
        Option::None
    } else if blob_magic(raw) == magic_plain() {
        Option::Some(blob_payload(raw))
    } else {
        unzstd_of(blob_payload(raw))
    }
}

/// The error decode reports for a rejected frame.
pub open spec fn blob_decode_err(raw: Seq<u8>) -> BlobError {
    if !blob_magic_known(raw) {
        BlobError::BadMagic
    } else if !blob_crc_ok(raw) {
        BlobError::BadCrc
    } else {
        BlobError::DecompressError
    }
}

/// The magic comparison is decided by the first four bytes.
proof fn lemma_magic_decided(raw: Seq<u8>)
    requires
        raw.len() >= 8,
    ensures
        (blob_magic(raw) == magic_plain()) <==> (raw[0] == 0x50 && raw[1] == 0x42 && raw[2] == 0x53
            && raw[3] == 0x55),
        (blob_magic(raw) == magic_compressed()) <==> (raw[0] == 0x50 && raw[1] == 0x42 && raw[2]
            == 0x53 && raw[3] == 0x43),
{
    assert(blob_magic(raw)[0] == raw[0]);
    assert(blob_magic(raw)[1] == raw[1]);
    assert(blob_magic(raw)[2] == raw[2]);
    assert(blob_magic(raw)[3] == raw[3]);
    assert(magic_plain()[0] == 0x50 && magic_plain()[1] == 0x42 && magic_plain()[2] == 0x53
        && magic_plain()[3] == 0x55);
    assert(magic_compressed()[0] == 0x50 && magic_compressed()[1] == 0x42 && magic_compressed()[2]
        == 0x53 && magic_compressed()[3] == 0x43);
    if raw[0] == 0x50 && raw[1] == 0x42 && raw[2] == 0x53 && raw[3] == 0x55 {
        assert(blob_magic(raw) =~= magic_plain());
    }
    if raw[0] == 0x50 && raw[1] == 0x42 && raw[2] == 0x53 && raw[3] == 0x43 {
        assert(blob_magic(raw) =~= magic_compressed());
    }
}

/// One chunk in its on-disk framing.
pub struct DataBlob {
    raw: Vec<u8>,
}

impl View for DataBlob {
    type V = Seq<u8>;

    closed spec fn view(&self) -> Seq<u8> {
        self.raw@
    }
}

impl DataBlob {
    /// A blob always carries a known magic; the payload may still fail
    /// its checks.
    pub open spec fn wf(&self) -> bool {
        blob_magic_known(self@)
    }

    /// Size of the framed bytes as stored.
    pub fn raw_size(&self) -> (r: u64)
        requires
            self@.len() <= u64::MAX,
        ensures
            r == self@.len(),
    {
        self.raw.len() as u64
    }

    /// The framed bytes as stored.
    pub fn raw_data(&self) -> (r: &Vec<u8>)
        ensures
            r@ == self@,
    {
        &self.raw
    }

    /// Hand the framed bytes over.
    pub fn into_raw(self) -> (r: Vec<u8>)
        ensures
            r@ == self@,
    {
        self.raw
    }

    /// An identical copy of the blob.
    pub fn clone_blob(&self) -> (r: DataBlob)
        ensures
            r@ == self@,
    {
        DataBlob { raw: slice_to_vec(self.raw.as_slice()) }
    }

    /// Accept framed bytes as a blob if they begin with a known magic.
    pub fn from_raw(raw: Vec<u8>) -> (r: Result<DataBlob, BlobError>)
        ensures
            r matches Ok(b) ==> b@ == raw@ && b.wf(),
            r matches Err(e) ==> e == BlobError::BadMagic && !blob_magic_known(raw@),
    {
        if raw.len() < 8 {
            return Err(BlobError::BadMagic);
        }
        proof {
            lemma_magic_decided(raw@);
        }
        let m3 = raw[3];
        if raw[0] == 0x50 && raw[1] == 0x42 && raw[2] == 0x53 && (m3 == 0x55 || m3 == 0x43) {
            Ok(DataBlob { raw })
        } else {
            Err(BlobError::BadMagic)
        }
    }

    /// Frame a plaintext, compressing where asked and worthwhile.
    ///
    /// The result always decodes back to the plaintext. When compression
    /// is off, or would not shrink the payload, the plain variant is
    /// stored.
    pub fn encode(plain: &[u8], compress: bool) -> (r: DataBlob)
        requires
            plain@.len() + 8 <= usize::MAX,
        ensures
            r.wf(),
            blob_decodes_to(r@) == Some(plain@),
            !compress ==> blob_magic(r@) == magic_plain(),
            blob_magic(r@) == magic_plain() ==> blob_payload(r@) == plain@,
            blob_magic(r@) == magic_compressed() ==> blob_payload(r@) == zstd_of(plain@)
                && zstd_of(plain@).len() < plain@.len(),
            compress && zstd_of(plain@).len() >= plain@.len() ==> blob_magic(r@) == magic_plain(),
    {
        let mut payload: Vec<u8>;
        let compressed: bool;
        if compress {
            match zstd_compress(plain) {
                Some(c) => {
                    if c.len() < plain.len() {
                        payload = c;
                        compressed = true;
                    } else {
                        payload = slice_to_vec(plain);
                        compressed = false;
                    }
                }
                None => {
                    payload = slice_to_vec(plain);
                    compressed = false;
                }
            }
        } else {
            payload = slice_to_vec(plain);
            compressed = false;
        }
        let ghost payload_view = payload@;
        let crc = crc32(payload.as_slice());
        let mut raw: Vec<u8> = Vec::new();
        raw.push(0x50);
        raw.push(0x42);
        raw.push(0x53);
        if compressed {
            raw.push(0x43);
        } else {
            raw.push(0x55);
        }
        let mut crc_bytes = u32_to_le_bytes(crc);
        raw.append(&mut crc_bytes);
        raw.append(&mut payload);
        proof {
            vstd::bytes::lemma_auto_spec_u32_to_from_le_bytes();
            lemma_magic_decided(raw@);
            assert(raw@.subrange(4, 8) =~= spec_u32_to_le_bytes(crc));
            assert(blob_payload(raw@) =~= payload_view);
        }
        DataBlob { raw }
    }

    /// Expand the blob back to its plaintext: verify the checksum, then
    /// expand a compressed payload.
    pub fn decode(&self) -> (r: Result<Vec<u8>, BlobError>)
        ensures
            r matches Ok(v) ==> blob_decodes_to(self@) == Some(v@),
            r matches Err(e) ==> blob_decodes_to(self@) is None && e == blob_decode_err(self@),
    {
        if self.raw.len() < 8 {
            return Err(BlobError::BadMagic);
        }
        proof {
            lemma_magic_decided(self@);
        }
        let m3 = self.raw[3];
        if !(self.raw[0] == 0x50 && self.raw[1] == 0x42 && self.raw[2] == 0x53 && (m3 == 0x55 || m3
            == 0x43)) {
            return Err(BlobError::BadMagic);
        }
        let plain_magic = m3 == 0x55;
        let stored_crc = u32_from_le_bytes(&self.raw[4..8]);
        let end = self.raw.len();
        let payload = &self.raw[8..end];
        assert(payload@ =~= blob_payload(self@));
        let computed = crc32(payload);
        if stored_crc != computed {
            return Err(BlobError::BadCrc);
        }
        if plain_magic {
            Ok(slice_to_vec(payload))
        } else {
            match zstd_decompress(payload) {
                Some(v) => Ok(v),
                None => Err(BlobError::DecompressError),
            }
        }
    }

    /// Expand the blob and require the plaintext to hash to the given
    /// digest.
    pub fn decode_checked(&self, expected_digest: &[u8; 32]) -> (r: Result<Vec<u8>, BlobError>)
        ensures
            r matches Ok(v) ==> blob_decodes_to(self@) == Some(v@) && sha256_of(v@)
                == expected_digest@,
            r matches Err(e) ==> {
                if blob_decodes_to(self@) is None {
                    e == blob_decode_err(self@)
                } else {
                    e == BlobError::DigestMismatch && sha256_of(blob_decodes_to(self@)->Some_0)
                        != expected_digest@
                }
            },
    {
        let plain = match self.decode() {
            Ok(v) => v,
            Err(e) => {
                return Err(e);
            }
        };
        let digest = sha256(plain.as_slice());
        if crate::digest::digest_eq(&digest, expected_digest) {
            Ok(plain)
        } else {
            Err(BlobError::DigestMismatch)
        }
    }

    /// The digest of the blob's plaintext.
    pub fn compute_digest(&self) -> (r: Result<[u8; 32], BlobError>)
        ensures
            r matches Ok(d) ==> blob_decodes_to(self@) matches Some(p) && d@ == sha256_of(p),
            r is Err ==> blob_decodes_to(self@) is None,
    {
        match self.decode() {
            Ok(v) => Ok(sha256(v.as_slice())),
            Err(e) => Err(e),
        }
    }
}

} // verus!
