//! Chunk framing, digests, timestamps and the two index formats.

use proxmox_backup::blob::DataBlob;
use proxmox_backup::crypto::{blake2b, crc32, sha256};
use proxmox_backup::digest::{bytes_to_hex_string, digest_to_hex, hex_to_digest};
use proxmox_backup::dynamic_index::{DynamicEntry, DynamicIndexReader, DynamicIndexWriter, pack_entries};
use proxmox_backup::error::{BlobError, StoreError};
use proxmox_backup::fixed_index::{index_csum, FixedIndexReader, FixedIndexWriter};
use proxmox_backup::time::epoch_to_rfc3339;

fn hex_of(bytes: &[u8]) -> String {
    bytes_to_hex_string(bytes)
}

#[test]
fn sha256_known_value() {
    let d = sha256(b"abc");
    assert_eq!(
        hex_of(&d),
        "ba7816bf8f01cfea414140de5dae2223b00361a396177a9cb410ff61f20015ad"
    );
}

#[test]
fn crc32_known_value() {
    assert_eq!(crc32(b"123456789"), 0xcbf43926);
}

#[test]
fn blake2b_known_value() {
    let h = blake2b(b"").expect("hash context");
    assert_eq!(h.len(), 64);
    assert_eq!(
        hex_of(&h[..32]),
        "786a02f742015903c6c6fd852552d272912f4740e15847618a86e217f71f5419"
    );
}

#[test]
fn hex_round_trip() {
    let d = sha256(b"round trip");
    let s = digest_to_hex(&d);
    assert_eq!(s.len(), 64);
    let back = hex_to_digest(s.as_bytes()).expect("valid hex");
    assert_eq!(back, d);
    assert!(hex_to_digest(b"zz").is_none());
    let mut bad = s.into_bytes();
    bad[3] = b'g';
    assert!(hex_to_digest(&bad).is_none());
}

#[test]
fn blob_round_trip_plain() {
    let data = b"some chunk payload".to_vec();
    let blob = DataBlob::encode(&data, false);
    assert_eq!(blob.decode().expect("decodes"), data);
}

#[test]
fn blob_round_trip_compressed() {
    let mut data = Vec::new();
    for _ in 0..1000 {
        data.extend_from_slice(b"abcabcabcabc");
    }
    let blob = DataBlob::encode(&data, true);
    assert!(blob.raw_data().len() < data.len());
    assert_eq!(blob.decode().expect("decodes"), data);
}

#[test]
fn blob_incompressible_stays_plain() {
    // A short pseudo-random buffer: compression cannot shrink it.
    let mut data = Vec::new();
    let mut x: u64 = 0x12345678;
    for _ in 0..64 {
        x = x.wrapping_mul(6364136223846793005).wrapping_add(1442695040888963407);
        data.push((x >> 56) as u8);
    }
    let blob = DataBlob::encode(&data, true);
    // The plain magic is the `U` variant.
    assert_eq!(blob.raw_data()[3], 0x55);
    assert_eq!(blob.decode().expect("decodes"), data);
}

#[test]
fn blob_rejects_bad_magic_and_crc() {
    let data = b"payload".to_vec();
    let blob = DataBlob::encode(&data, false);
    let mut raw = blob.raw_data().clone();
    raw[0] = 0xff;
    assert!(matches!(DataBlob::from_raw(raw), Err(BlobError::BadMagic)));

    let mut raw2 = blob.raw_data().clone();
    raw2[4] ^= 0xff;
    let tampered = DataBlob::from_raw(raw2).expect("magic still fine");
    assert!(matches!(tampered.decode(), Err(BlobError::BadCrc)));
}

#[test]
fn blob_digest_check() {
    let data = b"check me".to_vec();
    let digest = sha256(&data);
    let blob = DataBlob::encode(&data, true);
    assert_eq!(blob.decode_checked(&digest).expect("digest matches"), data);
    let other = sha256(b"something else");
    assert!(matches!(
        blob.decode_checked(&other),
        Err(BlobError::DigestMismatch)
    ));
}

#[test]
fn rfc3339_rendering() {
    assert_eq!(epoch_to_rfc3339(0).unwrap(), "1970-01-01T00:00:00Z");
    assert_eq!(epoch_to_rfc3339(951782400).unwrap(), "2000-02-29T00:00:00Z");
    assert_eq!(epoch_to_rfc3339(1700000000).unwrap(), "2023-11-14T22:13:20Z");
    assert_eq!(epoch_to_rfc3339(253402300799).unwrap(), "9999-12-31T23:59:59Z");
    assert!(epoch_to_rfc3339(i64::MAX).is_err());
}

#[test]
fn empty_fixed_image() {
    let writer = FixedIndexWriter::create(0, 4096, [7u8; 16], 1000).expect("create");
    assert_eq!(writer.index_count(), 0);
    let csum = index_csum(&[]).expect("hash context");
    let reader = writer.close(0, 0, &csum).expect("close succeeds");
    assert_eq!(reader.index_count(), 0);
    assert_eq!(reader.index_bytes(), 0);
    assert!(reader.chunk_info(0).is_none());
}

#[test]
fn fixed_index_file_round_trip() {
    let mut writer = FixedIndexWriter::create(10000, 4096, [1u8; 16], 77).expect("create");
    assert_eq!(writer.index_count(), 3);
    let d0 = sha256(b"chunk zero");
    let d1 = sha256(b"chunk one");
    let d2 = sha256(b"chunk two");
    writer.add_digest(0, &d0).unwrap();
    writer.add_digest(1, &d1).unwrap();
    writer.add_digest(2, &d2).unwrap();
    let mut body = Vec::new();
    body.extend_from_slice(&d0);
    body.extend_from_slice(&d1);
    body.extend_from_slice(&d2);
    let csum = index_csum(&body).expect("hash context");
    // Wrong totals are refused.
    assert!(matches!(
        writer.close(2, 10000, &csum),
        Err(StoreError::Integrity)
    ));
    assert!(matches!(
        writer.close(3, 9999, &csum),
        Err(StoreError::Integrity)
    ));
    let reader = writer.close(3, 10000, &csum).expect("close");
    let (s0, e0, cd0) = reader.chunk_info(0).unwrap();
    assert_eq!((s0, e0), (0, 4096));
    assert_eq!(cd0, d0);
    let (s2, e2, cd2) = reader.chunk_info(2).unwrap();
    assert_eq!((s2, e2), (8192, 10000));
    assert_eq!(cd2, d2);

    let bytes = reader.to_bytes();
    assert_eq!(bytes.len(), 4096 + 3 * 32);
    let parsed = FixedIndexReader::from_bytes(&bytes).expect("parses");
    assert_eq!(parsed.index_count(), 3);
    assert_eq!(parsed.index_bytes(), 10000);
    assert_eq!(parsed.chunk_size(), 4096);
    assert_eq!(parsed.index_digest(1).unwrap(), &d1);

    let mut broken = bytes.clone();
    broken[0] = 0;
    assert!(FixedIndexReader::from_bytes(&broken).is_err());
}

#[test]
fn dynamic_index_one_chunk_lookup() {
    let mut writer = DynamicIndexWriter::create([2u8; 16], 55).expect("create");
    let d = sha256(b"only chunk");
    let size: u64 = 1234;
    writer.add_chunk(size, &d).unwrap();
    let entries = vec![DynamicEntry { end_offset: size, digest: d }];
    let csum = index_csum(&pack_entries(&entries)).expect("hash context");
    let reader = writer.close(1, size, &csum).expect("close");
    assert_eq!(reader.index_bytes(), size);
    assert_eq!(reader.lookup(0), Some(0));
    assert_eq!(reader.lookup(size - 1), Some(0));
    assert_eq!(reader.lookup(size), None);
    let (s, e, cd) = reader.chunk_info(0).unwrap();
    assert_eq!((s, e), (0, size));
    assert_eq!(cd, d);
}

#[test]
fn dynamic_index_monotonic_offsets() {
    let mut writer = DynamicIndexWriter::create([3u8; 16], 55).expect("create");
    let d = sha256(b"x");
    writer.add_chunk(100, &d).unwrap();
    assert!(matches!(writer.add_chunk(100, &d), Err(StoreError::Protocol)));
    assert!(matches!(writer.add_chunk(50, &d), Err(StoreError::Protocol)));
    writer.add_chunk(150, &d).unwrap();
    assert_eq!(writer.index_count(), 2);
}

#[test]
fn dynamic_index_file_round_trip() {
    let mut writer = DynamicIndexWriter::create([4u8; 16], 99).expect("create");
    let d0 = sha256(b"first");
    let d1 = sha256(b"second");
    writer.add_chunk(500, &d0).unwrap();
    writer.add_chunk(800, &d1).unwrap();
    let entries = vec![
        DynamicEntry { end_offset: 500, digest: d0 },
        DynamicEntry { end_offset: 800, digest: d1 },
    ];
    let csum = index_csum(&pack_entries(&entries)).expect("hash context");
    assert!(matches!(
        writer.close(2, 799, &csum),
        Err(StoreError::Integrity)
    ));
    let reader = writer.close(2, 800, &csum).expect("close");
    let bytes = reader.to_bytes();
    assert_eq!(bytes.len(), 4096 + 2 * 40);
    let parsed = DynamicIndexReader::from_bytes(&bytes).expect("parses");
    assert_eq!(parsed.index_count(), 2);
    assert_eq!(parsed.lookup(500), Some(1));
    assert_eq!(parsed.lookup(499), Some(0));
    assert_eq!(parsed.index_digest(1).unwrap(), &d1);

    // Offsets out of order are refused by the parser.
    let mut broken = bytes.clone();
    for k in 0..8 {
        broken[4096 + k] = 0xff;
    }
    assert!(DynamicIndexReader::from_bytes(&broken).is_err());
}
