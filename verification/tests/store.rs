//! The datastore tree, backup sessions and the collector.

use proxmox_backup::backup_info::{check_backup_owner, Authid, BackupDir, BackupGroup};
use proxmox_backup::blob::DataBlob;
use proxmox_backup::crypto::sha256;
use proxmox_backup::datastore::{ChunkOrder, DataStore, FileData};
use proxmox_backup::dynamic_index::{pack_entries, DynamicEntry, DynamicIndexWriter};
use proxmox_backup::error::StoreError;
use proxmox_backup::fixed_index::index_csum;
use proxmox_backup::manifest::{BackupManifest, CryptMode};
use proxmox_backup::session::{BackupSession, SessionPhase, WriterIndex};

fn new_store() -> DataStore {
    DataStore::create(
        String::from("teststore"),
        String::from("/srv/teststore"),
        false,
        ChunkOrder::Unordered,
    )
}

fn alice() -> Authid {
    Authid::new(String::from("alice@pbs"), None)
}

fn bob() -> Authid {
    Authid::new(String::from("bob@pbs"), None)
}

fn vm_group() -> BackupGroup {
    BackupGroup::new(String::from("vm"), String::from("100"))
}

/// Run one whole dynamic-index backup of the given chunks and return the
/// number of chunks newly written to the store.
fn backup_stream(
    store: &mut DataStore,
    group: &BackupGroup,
    backup_time: i64,
    chunks: &[Vec<u8>],
    archive: &str,
) -> usize {
    let mut session =
        BackupSession::start(store, group, &alice(), backup_time, backup_time).expect("start");
    let writer = DynamicIndexWriter::create([9u8; 16], backup_time).expect("writer");
    let wid = session
        .register_writer(WriterIndex::Dynamic(writer), String::from(archive))
        .expect("register");
    let mut fresh = 0;
    let mut offset: u64 = 0;
    let mut entries = Vec::new();
    for data in chunks {
        let digest = sha256(data);
        let (existed, _) = session
            .upload_chunk(store, data, &digest, true, backup_time)
            .expect("upload");
        if !existed {
            fresh += 1;
        }
        session
            .dynamic_writer_append_chunk(wid, offset, data.len() as u32, &digest)
            .expect("append");
        offset += data.len() as u64;
        entries.push(DynamicEntry { end_offset: offset, digest });
    }
    let csum = index_csum(&pack_entries(&entries)).expect("hash");
    session
        .writer_close(store, wid, chunks.len() as u64, offset, &csum)
        .expect("close");
    let mut manifest = BackupManifest::new(
        String::from(group.backup_type()),
        String::from(group.backup_id()),
        backup_time,
    );
    manifest
        .add_file(String::from(archive), offset, csum, CryptMode::Plain)
        .expect("manifest entry");
    session.finish_backup(store, manifest).expect("finish");
    assert_eq!(session.phase(), SessionPhase::Finished);
    fresh
}

#[test]
fn owner_check_rules() {
    let alice_token = Authid::new(String::from("alice@pbs"), Some(String::from("t1")));
    assert!(check_backup_owner(&alice(), &alice()).is_ok());
    assert!(check_backup_owner(&alice(), &bob()).is_err());
    // A token owner is usable by its user, but not the other way round.
    assert!(check_backup_owner(&alice_token, &alice()).is_ok());
    assert!(check_backup_owner(&alice(), &alice_token).is_err());
}

#[test]
fn chunk_insert_is_idempotent() {
    let mut store = new_store();
    let data = b"idempotent chunk".to_vec();
    let digest = sha256(&data);
    let blob = DataBlob::encode(&data, true);
    let (existed1, size1) = store.insert_chunk(&blob, &digest, 100).expect("insert");
    assert!(!existed1);
    let blob2 = DataBlob::encode(&data, true);
    let (existed2, size2) = store.insert_chunk(&blob2, &digest, 200).expect("insert again");
    assert!(existed2);
    assert_eq!(size1, size2);
    let loaded = store.load_chunk(&digest).expect("load");
    assert_eq!(loaded.decode_checked(&digest).expect("decode"), data);
}

#[test]
fn chunk_paths_are_sharded() {
    let store = new_store();
    let digest = [0xabu8; 32];
    let (path, name) = store.chunk_path(&digest);
    assert_eq!(name.len(), 64);
    assert!(name.chars().all(|c| c == 'a' || c == 'b'));
    assert_eq!(
        path,
        format!("/srv/teststore/.chunks/abab/{}", name)
    );
}

#[test]
fn corrupt_chunk_is_detected() {
    let mut store = new_store();
    let data = b"integrity matters".to_vec();
    let digest = sha256(&data);
    let blob = DataBlob::encode(&data, false);
    store.insert_chunk(&blob, &digest, 1).expect("insert");
    // Flip one payload byte behind the store's back.
    let mut raw = blob.raw_data().clone();
    let last = raw.len() - 1;
    raw[last] ^= 0x01;
    assert!(store.corrupt_chunk_file(&digest, raw));
    let loaded = store.load_chunk(&digest).expect("load still succeeds");
    assert!(loaded.decode_checked(&digest).is_err());
}

#[test]
fn owner_is_written_once() {
    let mut store = new_store();
    let group = vm_group();
    let t = backup_stream(&mut store, &group, 1000, &[b"c1".to_vec()], "a.didx");
    assert_eq!(t, 1);
    let owner = store.get_owner(&group).expect("owner recorded");
    assert!(owner.same_as(&alice()));
    // A second session by the same user leaves the owner file alone.
    backup_stream(&mut store, &group, 2000, &[b"c2".to_vec()], "a.didx");
    let owner2 = store.get_owner(&group).expect("owner still there");
    assert!(owner2.same_as(&alice()));
}

#[test]
fn owner_conflict_rejected() {
    let mut store = new_store();
    let group = vm_group();
    backup_stream(&mut store, &group, 1000, &[b"c1".to_vec()], "a.didx");
    let r = BackupSession::start(&mut store, &group, &bob(), 2000, 2000);
    assert!(matches!(r, Err(StoreError::Conflict)));
    let owner = store.get_owner(&group).expect("owner untouched");
    assert!(owner.same_as(&alice()));
}

#[test]
fn backup_time_must_grow() {
    let mut store = new_store();
    let group = vm_group();
    backup_stream(&mut store, &group, 1000, &[b"c1".to_vec()], "a.didx");
    let r = BackupSession::start(&mut store, &group, &alice(), 1000, 1000);
    assert!(matches!(r, Err(StoreError::Protocol)));
    let r2 = BackupSession::start(&mut store, &group, &alice(), 500, 500);
    assert!(matches!(r2, Err(StoreError::Protocol)));
    let mut s3 = BackupSession::start(&mut store, &group, &alice(), 3000, 3000).expect("newer");
    s3.remove_backup(&mut store).expect("abort");
}

#[test]
fn session_rejects_unknown_chunks_and_bad_offsets() {
    let mut store = new_store();
    let group = vm_group();
    let mut session = BackupSession::start(&mut store, &group, &alice(), 1000, 1000).expect("s");
    let writer = DynamicIndexWriter::create([1u8; 16], 1000).expect("w");
    let wid = session
        .register_writer(WriterIndex::Dynamic(writer), String::from("a.didx"))
        .expect("register");
    let data = b"chunk".to_vec();
    let digest = sha256(&data);
    // Appending before the digest is registered is a protocol violation.
    assert!(matches!(
        session.dynamic_writer_append_chunk(wid, 0, 5, &digest),
        Err(StoreError::Protocol)
    ));
    session.upload_chunk(&mut store, &data, &digest, true, 1000).expect("upload");
    // Wrong start offset.
    assert!(matches!(
        session.dynamic_writer_append_chunk(wid, 7, 5, &digest),
        Err(StoreError::Protocol)
    ));
    session.dynamic_writer_append_chunk(wid, 0, 5, &digest).expect("append");
    // A close with the wrong totals is an integrity failure.
    let entries = vec![DynamicEntry { end_offset: 5, digest }];
    let csum = index_csum(&pack_entries(&entries)).expect("hash");
    assert!(matches!(
        session.writer_close(&mut store, wid, 2, 5, &csum),
        Err(StoreError::Integrity)
    ));
    session.writer_close(&mut store, wid, 1, 5, &csum).expect("close");
    session.remove_backup(&mut store).expect("abort");
}

#[test]
fn upload_checks_digest() {
    let mut store = new_store();
    let group = vm_group();
    let mut session = BackupSession::start(&mut store, &group, &alice(), 1000, 1000).expect("s");
    let wrong = sha256(b"not the data");
    assert!(matches!(
        session.upload_chunk(&mut store, b"the data", &wrong, true, 1000),
        Err(StoreError::Integrity)
    ));
    session.remove_backup(&mut store).expect("abort");
}

#[test]
fn stream_round_trip() {
    let mut store = new_store();
    let group = vm_group();
    let chunks = vec![
        b"first part of the stream ".to_vec(),
        b"second part ".to_vec(),
        b"and the tail".to_vec(),
    ];
    backup_stream(&mut store, &group, 1000, &chunks, "data.didx");
    let dir = BackupDir::new_with_group(vm_group(), 1000);
    let reader = store.open_dynamic_reader(&dir, "data.didx").expect("open");
    let mut restored = Vec::new();
    for pos in 0..reader.index_count() {
        let (_, _, digest) = reader.chunk_info(pos).expect("info");
        let blob = store.load_chunk(&digest).expect("load");
        restored.extend_from_slice(&blob.decode_checked(&digest).expect("decode"));
    }
    let mut expected = Vec::new();
    for c in &chunks {
        expected.extend_from_slice(c);
    }
    assert_eq!(restored, expected);
    // Random access: the byte at offset 26 lies in the second chunk.
    assert_eq!(reader.lookup(24), Some(0));
    assert_eq!(reader.lookup(25), Some(1));
    assert_eq!(reader.lookup(expected.len() as u64), None);
}

#[test]
fn dedup_between_backups() {
    let mut store = new_store();
    let group = vm_group();
    let a = vec![b"shared one".to_vec(), b"changed part A".to_vec(), b"shared two".to_vec()];
    let fresh_a = backup_stream(&mut store, &group, 1000, &a, "a.didx");
    assert_eq!(fresh_a, 3);
    // The second stream differs in a single chunk.
    let b = vec![b"shared one".to_vec(), b"changed part B".to_vec(), b"shared two".to_vec()];
    let fresh_b = backup_stream(&mut store, &group, 2000, &b, "a.didx");
    assert_eq!(fresh_b, 1);
}

#[test]
fn warmup_allows_append_without_upload() {
    let mut store = new_store();
    let group = vm_group();
    let chunks = vec![b"warm chunk one".to_vec(), b"warm chunk two".to_vec()];
    backup_stream(&mut store, &group, 1000, &chunks, "a.didx");
    // The next session reads the previous index and registers its chunks;
    // appends then work without any upload.
    let mut session = BackupSession::start(&mut store, &group, &alice(), 2000, 2000).expect("s");
    let dir = BackupDir::new_with_group(vm_group(), 1000);
    {
        let previous = store.open_dynamic_reader(&dir, "a.didx").expect("previous");
        session.register_known_chunks_dynamic(previous).expect("warmup");
    }
    let d0 = sha256(&chunks[0]);
    assert_eq!(session.lookup_chunk(&d0), Some(chunks[0].len() as u32));
    let writer = DynamicIndexWriter::create([7u8; 16], 2000).expect("w");
    let wid = session
        .register_writer(WriterIndex::Dynamic(writer), String::from("a.didx"))
        .expect("register");
    session
        .dynamic_writer_append_chunk(wid, 0, chunks[0].len() as u32, &d0)
        .expect("append without upload");
    session.remove_backup(&mut store).expect("abort");
}

#[test]
fn unfinished_backup_leaves_no_index() {
    let mut store = new_store();
    let group = vm_group();
    let mut session = BackupSession::start(&mut store, &group, &alice(), 1000, 1000).expect("s");
    let writer = DynamicIndexWriter::create([5u8; 16], 1000).expect("w");
    let wid = session
        .register_writer(WriterIndex::Dynamic(writer), String::from("a.didx"))
        .expect("register");
    let data = b"never committed".to_vec();
    let digest = sha256(&data);
    session.upload_chunk(&mut store, &data, &digest, true, 1000).expect("upload");
    session.dynamic_writer_append_chunk(wid, 0, data.len() as u32, &digest).expect("append");
    // The session ends without closing the writer: the snapshot vanishes.
    session.remove_backup(&mut store).expect("abort");
    assert_eq!(session.phase(), SessionPhase::Aborted);
    let dir = BackupDir::new_with_group(vm_group(), 1000);
    assert!(matches!(
        store.open_index(&dir, "a.didx"),
        Err(StoreError::NotFound)
    ));
    // The uploaded chunk stays: aborts never delete shared chunks.
    assert!(store.stat_chunk(&digest).is_ok());
}

#[test]
fn protected_snapshot_stays() {
    let mut store = new_store();
    let group = vm_group();
    backup_stream(&mut store, &group, 1000, &[b"keep me".to_vec()], "a.didx");
    let dir = BackupDir::new_with_group(vm_group(), 1000);
    store.update_protection(&dir, true).expect("protect");
    assert!(matches!(
        store.remove_backup_dir(&dir, false),
        Err(StoreError::Protected)
    ));
    assert!(matches!(
        store.remove_backup_dir(&dir, true),
        Err(StoreError::Protected)
    ));
    assert_eq!(store.remove_backup_group(&group).expect("group removal"), false);
    store.update_protection(&dir, false).expect("unprotect");
    store.remove_backup_dir(&dir, false).expect("now removable");
    assert!(store.load_manifest(&dir).is_err());
}

#[test]
fn manifest_lists_files_once() {
    let mut manifest = BackupManifest::new(String::from("vm"), String::from("100"), 1000);
    let csum = sha256(b"csum source");
    manifest
        .add_file(String::from("a.didx"), 10, csum, CryptMode::Plain)
        .expect("first");
    assert!(matches!(
        manifest.add_file(String::from("a.didx"), 10, csum, CryptMode::Plain),
        Err(StoreError::AlreadyExists)
    ));
    assert!(manifest.verify_file("a.didx", &csum, 10).is_ok());
    assert!(matches!(
        manifest.verify_file("a.didx", &csum, 11),
        Err(StoreError::Integrity)
    ));
    assert!(matches!(
        manifest.verify_file("b.didx", &csum, 10),
        Err(StoreError::NotFound)
    ));
}

#[test]
fn gc_sweeps_only_orphans() {
    let mut store = new_store();
    let group = vm_group();
    // One referenced chunk, committed long ago.
    backup_stream(&mut store, &group, 1000, &[b"referenced".to_vec()], "a.didx");
    let referenced = sha256(b"referenced");
    // One orphan, inserted long ago and never referenced.
    let orphan_data = b"orphan".to_vec();
    let orphan = sha256(&orphan_data);
    let blob = DataBlob::encode(&orphan_data, true);
    let orphan_size = blob.raw_size();
    store.insert_chunk(&blob, &orphan, 1000).expect("insert orphan");
    // Collect far in the future: both chunks rested past the margin.
    let now = 10_000_000;
    store.garbage_collection(None, now).expect("gc");
    assert!(store.stat_chunk(&referenced).is_ok());
    assert!(matches!(store.stat_chunk(&orphan), Err(StoreError::NotFound)));
    let status = store.last_gc_status();
    assert_eq!(status.removed_chunks, 1);
    assert_eq!(status.removed_bytes, orphan_size);
    assert_eq!(status.disk_chunks, 1);
    assert_eq!(status.index_file_count, 1);
    assert_eq!(status.index_data_bytes, b"referenced".len() as u64);
    assert!(!store.garbage_collection_running());
}

#[test]
fn gc_spares_running_session() {
    let mut store = new_store();
    let group = vm_group();
    let now = 5_000_000;
    let mut session = BackupSession::start(&mut store, &group, &alice(), now, now).expect("s");
    let data = b"in flight".to_vec();
    let digest = sha256(&data);
    session.upload_chunk(&mut store, &data, &digest, true, now).expect("upload");
    // The collector runs while the session holds its shared lock.
    store.garbage_collection(None, now + 1).expect("gc");
    assert!(store.stat_chunk(&digest).is_ok());
    // The session still finishes and its data reads back.
    let writer = DynamicIndexWriter::create([8u8; 16], now).expect("w");
    let wid = session
        .register_writer(WriterIndex::Dynamic(writer), String::from("a.didx"))
        .expect("register");
    session
        .dynamic_writer_append_chunk(wid, 0, data.len() as u32, &digest)
        .expect("append");
    let entries = vec![DynamicEntry { end_offset: data.len() as u64, digest }];
    let csum = index_csum(&pack_entries(&entries)).expect("hash");
    session
        .writer_close(&mut store, wid, 1, data.len() as u64, &csum)
        .expect("close");
    let mut manifest = BackupManifest::new(String::from("vm"), String::from("100"), now);
    manifest
        .add_file(String::from("a.didx"), data.len() as u64, csum, CryptMode::Plain)
        .expect("entry");
    session.finish_backup(&mut store, manifest).expect("finish");
    let loaded = store.load_chunk(&digest).expect("load");
    assert_eq!(loaded.decode_checked(&digest).expect("decode"), data);
}

#[test]
fn gc_refuses_second_run() {
    let mut store = new_store();
    store.garbage_collection(None, 10_000_000).expect("first run");
    // A second run is fine once the first finished.
    store.garbage_collection(None, 10_000_001).expect("second run");
}

#[test]
fn fixed_index_backup() {
    let mut store = new_store();
    let group = BackupGroup::new(String::from("vm"), String::from("101"));
    let now = 1000;
    let mut session = BackupSession::start(&mut store, &group, &alice(), now, now).expect("s");
    let chunk_size: u64 = 8;
    let c0 = b"01234567".to_vec();
    let c1 = b"89ab".to_vec();
    let size = (c0.len() + c1.len()) as u64;
    let writer = store
        .create_fixed_writer(size, chunk_size, [6u8; 16], now)
        .expect("writer");
    let wid = session
        .register_writer(WriterIndex::Fixed(writer), String::from("disk.fidx"))
        .expect("register");
    let d0 = sha256(&c0);
    let d1 = sha256(&c1);
    session.upload_chunk(&mut store, &c0, &d0, true, now).expect("u0");
    session.upload_chunk(&mut store, &c1, &d1, true, now).expect("u1");
    session.fixed_writer_append_chunk(wid, 0, c0.len() as u32, &d0).expect("a0");
    session.fixed_writer_append_chunk(wid, 8, c1.len() as u32, &d1).expect("a1");
    let mut body = Vec::new();
    body.extend_from_slice(&d0);
    body.extend_from_slice(&d1);
    let csum = index_csum(&body).expect("hash");
    session.writer_close(&mut store, wid, 2, size, &csum).expect("close");
    let mut manifest = BackupManifest::new(String::from("vm"), String::from("101"), now);
    manifest.add_file(String::from("disk.fidx"), size, csum, CryptMode::Plain).expect("entry");
    session.finish_backup(&mut store, manifest).expect("finish");

    let dir = BackupDir::new_with_group(group, now);
    let reader = store.open_fixed_reader(&dir, "disk.fidx").expect("open");
    assert_eq!(reader.index_count(), 2);
    let (s1, e1, rd1) = reader.chunk_info(1).unwrap();
    assert_eq!((s1, e1), (8, 12));
    assert_eq!(rd1, d1);
    let manifest = store.load_manifest(&dir).expect("manifest");
    assert!(manifest.verify_file("disk.fidx", &csum, size).is_ok());
    assert_eq!(
        store.last_successful_backup(&BackupGroup::new(String::from("vm"), String::from("101")))
            .expect("time"),
        Some(now)
    );
}
