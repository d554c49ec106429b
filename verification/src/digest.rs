//! Chunk digests and their hexadecimal representation.
//!
//! A digest is the 32-byte fingerprint of a chunk's plaintext; chunks are
//! stored and compared by it. On disk a digest appears as 64 lower-case
//! hexadecimal characters.

use vstd::prelude::*;

verus! {

/// Length in bytes of a chunk digest.
pub const DIGEST_LEN: usize = 32;

/// The ASCII byte of the lower-case hexadecimal digit for a value below 16.
pub open spec fn hex_digit(v: u8) -> u8
    recommends
        v < 16,
{
    if v < 10 {
        (v + 0x30) as u8
    } else {
        (v + 0x57) as u8
    }
}

/// Lower-case hexadecimal encoding of a byte sequence, as ASCII bytes.
pub open spec fn hex_bytes_of(s: Seq<u8>) -> Seq<u8> {
    Seq::new(
        2 * s.len(),
        |i: int|
            if i % 2 == 0 {
                hex_digit(s[i / 2] / 16)
            } else {
                hex_digit(s[i / 2] % 16)
            },
    )
}

/// Lower-case hexadecimal encoding of a byte sequence, as characters.
pub open spec fn hex_str_of(s: Seq<u8>) -> Seq<char> {
    hex_bytes_of(s).map_values(|b: u8| b as char)
}

/// The value of an ASCII hexadecimal digit, or 16 if the byte is no such digit.
pub open spec fn hex_value(b: u8) -> u8 {
    if 0x30 <= b <= 0x39 {
        (b - 0x30) as u8
    } else if 0x61 <= b <= 0x66 {
        (b - 0x57) as u8
    } else if 0x41 <= b <= 0x46 {
        (b - 0x37) as u8
    } else {
        16
    }
}

/// Whether a byte sequence is a well-formed hexadecimal spelling of `n` bytes.
pub open spec fn is_hex_bytes(s: Seq<u8>, n: nat) -> bool {
    &&& s.len() == 2 * n
    &&& forall|i: int| 0 <= i < s.len() ==> hex_value(#[trigger] s[i]) < 16
}

/// The bytes spelled by a well-formed hexadecimal byte sequence.
pub open spec fn hex_bytes_value(s: Seq<u8>) -> Seq<u8> {
    Seq::new(s.len() / 2, |i: int| (hex_value(s[2 * i]) * 16 + hex_value(s[2 * i + 1])) as u8)
}

fn hex_digit_byte(v: u8) -> (r: u8)
    requires
        v < 16,
    ensures
        r == hex_digit(v),
{
    if v < 10 {
        v + 0x30
    } else {
        v + 0x57
    }
}

/// Encode bytes as lower-case hexadecimal ASCII bytes.
pub fn bytes_to_hex(bytes: &[u8]) -> (r: Vec<u8>)
    requires
        2 * bytes@.len() <= usize::MAX,
    ensures
        r@ == hex_bytes_of(bytes@),
{
    let mut r: Vec<u8> = Vec::new();
    let n = bytes.len();
    let mut i: usize = 0;
    while i < n
        invariant
            n == bytes@.len(),
            2 * n <= usize::MAX,
            i <= n,
            r@.len() == 2 * i,
            forall|j: int| 0 <= j < 2 * i ==> r@[j] == hex_bytes_of(bytes@)[j],
        decreases n - i,
    {
        let b = bytes[i];
        r.push(hex_digit_byte(b / 16));
        r.push(hex_digit_byte(b % 16));
        i = i + 1;
    }
    assert(r@ =~= hex_bytes_of(bytes@));
    r
}

/// Relies on `str`'s equality: two string slices are equal exactly when
/// they spell the same characters.
pub assume_specification[ <str as PartialEq>::eq ](a: &str, b: &str) -> (r: bool)
    ensures
        r == (a@ == b@),
;

/// Relies on `String::from_utf8`: bytes below 128 decode to exactly one
/// character each, with the same code points.
#[verifier::external_body]
pub(crate) fn string_from_ascii(bytes: Vec<u8>) -> (r: String)
    requires
        forall|i: int| 0 <= i < bytes@.len() ==> bytes@[i] < 128,
    ensures
        r@.len() == bytes@.len(),
        forall|i: int| 0 <= i < bytes@.len() ==> r@[i] == bytes@[i] as char,
{
    match String::from_utf8(bytes) {
        Ok(s) => s,
        Err(_) => String::new(),
    }
}

/// Encode bytes as a lower-case hexadecimal string.
pub fn bytes_to_hex_string(bytes: &[u8]) -> (r: String)
    requires
        2 * bytes@.len() <= usize::MAX,
    ensures
        r@ == hex_str_of(bytes@),
{
    let h = bytes_to_hex(bytes);
    assert forall|i: int| 0 <= i < h@.len() implies h@[i] < 128 by {
        assert(h@[i] == hex_bytes_of(bytes@)[i]);
    }
    let s = string_from_ascii(h);
    assert(s@ =~= hex_str_of(bytes@));
    s
}

/// Hexadecimal spelling of a digest, 64 characters.
pub fn digest_to_hex(digest: &[u8; 32]) -> (r: String)
    ensures
        r@ == hex_str_of(digest@),
        r@.len() == 64,
{
    let r = bytes_to_hex_string(digest.as_slice());
    assert(digest@.len() == 32);
    r
}

fn hex_value_byte(b: u8) -> (r: u8)
    ensures
        r == hex_value(b),
{
    if 0x30 <= b && b <= 0x39 {
        b - 0x30
    } else if 0x61 <= b && b <= 0x66 {
        b - 0x57
    } else if 0x41 <= b && b <= 0x46 {
        b - 0x37
    } else {
        16
    }
}

/// Decode a hexadecimal ASCII spelling of exactly 32 bytes into a digest.
///
/// Returns `None` when the input has the wrong length or holds a byte that
/// is no hexadecimal digit.
pub fn hex_to_digest(hex: &[u8]) -> (r: Option<[u8; 32]>)
    ensures
        r is Some <==> is_hex_bytes(hex@, 32),
        r is Some ==> r->Some_0@ == hex_bytes_value(hex@),
{
    if hex.len() != 64 {
        assert(!is_hex_bytes(hex@, 32));
        return None;
    }
    let mut out: [u8; 32] = [0u8; 32];
    let mut i: usize = 0;
    while i < 32
        invariant
            hex@.len() == 64,
            i <= 32,
            forall|j: int| 0 <= j < 2 * i ==> hex_value(#[trigger] hex@[j]) < 16,
            forall|j: int|
                0 <= j < i ==> out@[j] == (hex_value(hex@[2 * j]) * 16 + hex_value(
                    hex@[2 * j + 1],
                )) as u8,
        decreases 32 - i,
    {
        let hi = hex_value_byte(hex[2 * i]);
        let lo = hex_value_byte(hex[2 * i + 1]);
        if hi >= 16 || lo >= 16 {
            assert(!is_hex_bytes(hex@, 32));
            return None;
        }
        out[i] = hi * 16 + lo;
        i = i + 1;
    }
    assert(is_hex_bytes(hex@, 32)) by {
        assert forall|j: int| 0 <= j < 64 implies hex_value(#[trigger] hex@[j]) < 16 by {
            if j % 2 == 0 {
                assert(hex@[j] == hex@[2 * (j / 2)]);
            } else {
                assert(hex@[j] == hex@[2 * (j / 2) + 1]);
            }
        }
    }
    assert(out@ =~= hex_bytes_value(hex@));
    Some(out)
}

/// Hexadecimal spellings hold ASCII characters only.
pub proof fn lemma_hex_str_ascii(s: Seq<u8>)
    ensures
        vstd::utf8::is_ascii_chars(hex_str_of(s)),
{
    assert forall|i: int|
        0 <= i < hex_str_of(s).len() implies '\0' <= #[trigger] hex_str_of(s)[i]
        <= '\u{7f}' by {
        let b = hex_bytes_of(s)[i];
        assert(hex_str_of(s)[i] == b as char);
        assert(b <= 0x66);
    }
}

/// Compare two digests byte for byte.
pub fn digest_eq(a: &[u8; 32], b: &[u8; 32]) -> (r: bool)
    ensures
        r <==> a@ == b@,
{
    let mut i: usize = 0;
    while i < 32
        invariant
            i <= 32,
            forall|j: int| 0 <= j < i ==> a@[j] == b@[j],
        decreases 32 - i,
    {
        if a[i] != b[i] {
            return false;
        }
        i = i + 1;
    }
    assert(a@ =~= b@);
    true
}

} // verus!
