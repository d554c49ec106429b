//! The server side of one backup upload.
//!
//! A session owns one new snapshot: it holds the group, snapshot and
//! chunk-store locks, keeps the registry of chunks the client may
//! reference, and runs up to 256 index writers. Indexes reach the
//! snapshot only through `close`, and the snapshot becomes readable only
//! when `finish` seals its manifest; an abort removes the unfinished
//! snapshot but never a shared chunk. The waiting-for-upgrade phase and
//! the transport live in the shell; the state machine starts active.

use vstd::prelude::*;

use crate::backup_info::{owner_allows, spec_ends_with, str_ends_with, Authid, BackupDir, BackupGroup};
use crate::blob::{blob_decodes_to, DataBlob};
use crate::chunk_store::{chunk_data, has_chunk, spec_insert_chunk, store_consistent};
use crate::crypto::{sha256, sha256_of};
use crate::datastore::{
    group_idx, has_file, has_group, has_snapshot, snapshot_idx, DataStore, DataStoreView,
    FileData, FileDataView, FileView, GroupEntryView, SnapshotView,
};
use crate::digest::digest_eq;
use crate::dynamic_index::{DynamicIndexWriter, DynamicWriterView, DynEntryView, entries_size};
use crate::error::StoreError;
use crate::fixed_index::{FixedIndexWriter, FixedWriterView, index_count};
use crate::manifest::BackupManifest;

verus! {

/// Where a session stands.
#[derive(Clone, Copy, Debug, PartialEq, Eq, Structural)]
pub enum SessionPhase {
    /// Taking uploads and appends.
    Active,
    /// Sealed by its manifest.
    Finished,
    /// Abandoned; the snapshot was removed.
    Aborted,
}

/// One chunk the client may reference: its digest and plaintext size.
pub struct KnownChunk {
    pub digest: [u8; 32],
    pub size: u32,
}

/// Ghost image of one known chunk.
pub struct KnownChunkView {
    pub digest: Seq<u8>,
    pub size: int,
}

impl View for KnownChunk {
    type V = KnownChunkView;

    open spec fn view(&self) -> KnownChunkView {
        KnownChunkView { digest: self.digest@, size: self.size as int }
    }
}

/// The index a writer builds.
pub enum WriterIndex {
    Fixed(FixedIndexWriter),
    Dynamic(DynamicIndexWriter),
}

/// Ghost image of a writer's index.
pub enum WriterIndexView {
    Fixed(FixedWriterView),
    Dynamic(DynamicWriterView),
}

impl View for WriterIndex {
    type V = WriterIndexView;

    open spec fn view(&self) -> WriterIndexView {
        match self {
            WriterIndex::Fixed(w) => WriterIndexView::Fixed(w@),
            WriterIndex::Dynamic(w) => WriterIndexView::Dynamic(w@),
        }
    }
}

/// One registered writer: its server-assigned id, its archive name, and
/// the index under construction.
pub struct RegisteredWriter {
    wid: usize,
    name: String,
    index: WriterIndex,
    closed: bool,
}

/// Ghost image of one registered writer.
pub struct WriterView {
    pub wid: int,
    pub name: Seq<char>,
    pub index: WriterIndexView,
    pub closed: bool,
}

impl View for RegisteredWriter {
    type V = WriterView;

    closed spec fn view(&self) -> WriterView {
        WriterView { wid: self.wid as int, name: self.name@, index: self.index@, closed: self.closed }
    }
}

/// Ghost image of a session.
pub struct SessionView {
    pub dir: crate::backup_info::BackupDirView,
    pub lock_token: u64,
    pub known: Seq<KnownChunkView>,
    pub writers: Seq<WriterView>,
    pub next_wid: int,
    pub phase: SessionPhase,
}

/// Whether a digest is registered.
pub open spec fn knows_chunk(ks: Seq<KnownChunkView>, d: Seq<u8>) -> bool {
    exists|i: int| 0 <= i < ks.len() && ks[i].digest == d
}

/// The position of a registered digest.
pub open spec fn known_idx(ks: Seq<KnownChunkView>, d: Seq<u8>) -> int {
    choose|i: int| 0 <= i < ks.len() && ks[i].digest == d
}

/// Whether a writer id is registered.
pub open spec fn has_writer(ws: Seq<WriterView>, wid: int) -> bool {
    exists|i: int| 0 <= i < ws.len() && ws[i].wid == wid
}

/// The position of a registered writer id.
pub open spec fn writer_idx(ws: Seq<WriterView>, wid: int) -> int {
    choose|i: int| 0 <= i < ws.len() && ws[i].wid == wid
}

/// Whether an archive name is taken.
pub open spec fn has_writer_name(ws: Seq<WriterView>, name: Seq<char>) -> bool {
    exists|i: int| 0 <= i < ws.len() && ws[i].name == name
}

/// Whether a known-chunk entry records the digest and byte span of some
/// entry of a dynamic index.
pub open spec fn dynamic_warmup_origin(
    ks: Seq<KnownChunkView>,
    k: int,
    es: Seq<DynEntryView>,
) -> bool {
    exists|j: int|
        0 <= j < es.len() && ks[k].digest == (#[trigger] es[j]).digest && ks[k].size == es[j].end
            - crate::dynamic_index::chunk_start(es, j)
}

/// Whether a known-chunk entry records the digest and byte span of some
/// slot of a fixed index.
pub open spec fn fixed_warmup_origin(
    ks: Seq<KnownChunkView>,
    k: int,
    v: crate::fixed_index::FixedIndexView,
) -> bool {
    exists|j: int|
        0 <= j < v.digests.len() && ks[k].digest == (#[trigger] v.digests[j]) && ks[k].size
            == fixed_slot_span(v, j)
}

/// The bytes slot `i` of a fixed index covers: a whole chunk, or what is
/// left of the image in the last slot.
pub open spec fn fixed_slot_span(v: crate::fixed_index::FixedIndexView, i: int) -> int {
    (if (i + 1) * v.chunk_size <= v.size {
        (i + 1) * v.chunk_size
    } else {
        v.size
    }) - i * v.chunk_size
}

/// The server side of one backup upload.
pub struct BackupSession {
    backup_dir: BackupDir,
    lock_token: u64,
    known_chunks: Vec<KnownChunk>,
    writers: Vec<RegisteredWriter>,
    next_wid: usize,
    phase: SessionPhase,
}

impl View for BackupSession {
    type V = SessionView;

    closed spec fn view(&self) -> SessionView {
        SessionView {
            dir: self.backup_dir@,
            lock_token: self.lock_token,
            known: self.known_chunks@.map_values(|k: KnownChunk| k@),
            writers: self.writers@.map_values(|w: RegisteredWriter| w@),
            next_wid: self.next_wid as int,
            phase: self.phase,
        }
    }
}

impl BackupSession {
    /// Registered digests are unique, writer ids and names are unique,
    /// writer ids stay below the assignment counter, and every open
    /// index is well formed.
    pub open spec fn wf(&self) -> bool {
        &&& 1 <= self@.next_wid
        &&& forall|i: int| 0 <= i < self@.writers.len() ==> (#[trigger] self@.writers[i]).wid
            < self@.next_wid
        &&& forall|i: int, j: int|
            0 <= i < j < self@.known.len() ==> self@.known[i].digest != self@.known[j].digest
        &&& forall|i: int, j: int|
            0 <= i < j < self@.writers.len() ==> self@.writers[i].wid != self@.writers[j].wid
                && self@.writers[i].name != self@.writers[j].name
        &&& forall|i: int|
            0 <= i < self@.writers.len() ==> match (#[trigger] self@.writers[i]).index {
                WriterIndexView::Fixed(w) => {
                    &&& w.uuid.len() == 16
                    &&& 0 <= w.ctime <= i64::MAX
                    &&& 0 < w.chunk_size
                    &&& 0 <= w.size
                    &&& w.size + w.chunk_size <= u64::MAX
                    &&& w.digests.len() == index_count(w.size, w.chunk_size)
                    &&& w.written.len() == w.digests.len()
                    &&& forall|k: int|
                        0 <= k < w.digests.len() ==> (#[trigger] w.digests[k]).len() == 32
                    &&& spec_ends_with(self@.writers[i].name, ".fidx"@)
                },
                WriterIndexView::Dynamic(w) => {
                    &&& w.uuid.len() == 16
                    &&& 0 <= w.ctime <= i64::MAX
                    &&& crate::dynamic_index::entries_wf(w.entries)
                    &&& spec_ends_with(self@.writers[i].name, ".didx"@)
                },
            }
    }

    /// Which snapshot the session writes.
    pub fn backup_dir(&self) -> (r: &BackupDir)
        ensures
            r@ == self@.dir,
    {
        &self.backup_dir
    }

    /// The session's shared chunk-store lock token.
    pub fn lock_token(&self) -> (r: u64)
        ensures
            r == self@.lock_token,
    {
        self.lock_token
    }

    /// Where the session stands.
    pub fn phase(&self) -> (r: SessionPhase)
        ensures
            r == self@.phase,
    {
        self.phase
    }

    /// Open a session: create or enter the group as its owner, demand a
    /// backup time past every existing snapshot, create and lock the new
    /// snapshot directory, and pin the collector with a shared lock.
    pub fn start(
        store: &mut DataStore,
        backup_group: &BackupGroup,
        auth_id: &Authid,
        backup_time: i64,
        now: i64,
    ) -> (r: Result<BackupSession, StoreError>)
        requires
            old(store).wf(),
        ensures
            final(store).wf(),
            final(store).spec_name() == old(store).spec_name(),
            final(store).spec_path() == old(store).spec_path(),
            ({
                let gs = old(store)@.groups;
                let ty = backup_group@.ty;
                let id = backup_group@.id;
                let gi = group_idx(gs, ty, id);
                &&& (r matches Ok(s) ==> {
                    &&& s.wf()
                    &&& s@.phase == SessionPhase::Active
                    &&& s@.known == Seq::<KnownChunkView>::empty()
                    &&& s@.writers == Seq::<WriterView>::empty()
                    &&& s@.dir.group == backup_group@
                    &&& s@.dir.time == backup_time
                    &&& has_group(gs, ty, id) ==> forall|k: int|
                        0 <= k < gs[gi].snapshots.len()
                            ==> (#[trigger] gs[gi].snapshots[k]).time < backup_time
                })
                &&& (has_group(gs, ty, id) && gs[gi].owner is Some && !owner_allows(
                    gs[gi].owner->Some_0,
                    auth_id@,
                ) && !gs[gi].locked ==> r is Err && r->Err_0 == StoreError::Conflict
                    && final(store)@ == old(store)@)
                &&& (r matches Ok(s) ==> has_group(final(store)@.groups, ty, id) && has_snapshot(
                    final(store)@.groups[group_idx(final(store)@.groups, ty, id)].snapshots,
                    backup_time as int,
                ))
                &&& (has_group(gs, ty, id) && !gs[gi].locked && gs[gi].owner is Some
                    && owner_allows(gs[gi].owner->Some_0, auth_id@) && (exists|k: int|
                    0 <= k < gs[gi].snapshots.len() && (#[trigger] gs[gi].snapshots[k]).time
                        >= backup_time) ==> r == Err::<BackupSession, StoreError>(
                    StoreError::Protocol,
                ))
                &&& ({
                    let group_ok = !has_group(gs, ty, id) || (!gs[gi].locked
                        && gs[gi].owner is Some && owner_allows(gs[gi].owner->Some_0, auth_id@));
                    let time_ok = has_group(gs, ty, id) ==> forall|k: int|
                        0 <= k < gs[gi].snapshots.len()
                            ==> (#[trigger] gs[gi].snapshots[k]).time < backup_time;
                    let fmt_ok = 0 <= backup_time && crate::time::year_of_epoch(backup_time as int)
                        <= 9999;
                    let store_ok = !old(store)@.store.exclusive && old(store)@.store.next_token
                        < u64::MAX;
                    group_ok && time_ok && fmt_ok && store_ok ==> r is Ok
                })
            }),
    {
        let ghost pre = store@;
        let ghost ty = backup_group@.ty;
        let ghost id = backup_group@.id;
        let ghost gi0 = group_idx(pre.groups, ty, id);
        let owner = match store.create_locked_backup_group(backup_group, auth_id) {
            Ok(o) => o,
            Err(e) => {
                return Err(e);
            }
        };
        let ghost after_group = store@;
        proof {
            if has_group(pre.groups, ty, id) {
                assert(after_group.groups[gi0].ty == ty && after_group.groups[gi0].id == id);
                crate::datastore::lemma_group_idx_unique(after_group.groups, ty, id, gi0);
            } else {
                assert(after_group.groups[after_group.groups.len() - 1].ty == ty);
                crate::datastore::lemma_group_idx_unique(
                    after_group.groups,
                    ty,
                    id,
                    after_group.groups.len() - 1,
                );
            }
        }
        let ghost gi1 = group_idx(after_group.groups, ty, id);
        match crate::backup_info::check_backup_owner(&owner, auth_id) {
            Ok(_) => {}
            Err(_) => {
                store.release_group_lock(backup_group);
                proof {
                    assert(has_group(pre.groups, ty, id)) by {
                        if !has_group(pre.groups, ty, id) {
                            assert(owner@ == auth_id@);
                            assert(owner_allows(owner@, auth_id@));
                        }
                    }
                    assert(Some(owner@) == pre.groups[gi0].owner);
                    assert(store@.groups =~= pre.groups);
                    assert(store@ == pre);
                }
                return Err(StoreError::Conflict);
            }
        }
        let last = match store.newest_backup_time(backup_group) {
            Ok(t) => t,
            Err(_) => {
                store.release_group_lock(backup_group);
                return Err(StoreError::Protocol);
            }
        };
        match last {
            Some(t) => {
                if backup_time <= t {
                    store.release_group_lock(backup_group);
                    return Err(StoreError::Protocol);
                }
            }
            None => {
                proof {
                    if has_group(pre.groups, ty, id) {
                        assert(after_group.groups[gi1].snapshots == pre.groups[gi0].snapshots);
                        assert(pre.groups[gi0].snapshots.len() == 0);
                    }
                }
            }
        }
        proof {
            if has_group(pre.groups, ty, id) && (exists|k: int|
                0 <= k < pre.groups[gi0].snapshots.len()
                    && (#[trigger] pre.groups[gi0].snapshots[k]).time >= backup_time) {
                let k = choose|k: int|
                    0 <= k < pre.groups[gi0].snapshots.len()
                        && (#[trigger] pre.groups[gi0].snapshots[k]).time >= backup_time;
                assert(after_group.groups[gi1].snapshots[k].time <= last->Some_0);
                assert(false);
            }
        }
        proof {
            if has_group(pre.groups, ty, id) {
                assert(after_group.groups[gi1].snapshots == pre.groups[gi0].snapshots);
                assert forall|k: int|
                    0 <= k < pre.groups[gi0].snapshots.len() implies (#[trigger] pre.groups[
                    gi0].snapshots[k]).time < backup_time by {
                    assert(after_group.groups[gi1].snapshots[k].time <= last->Some_0);
                }
            }
        }
        let backup_dir = BackupDir::new_with_group(backup_group.clone_group(), backup_time);
        proof {
            assert(!has_snapshot(after_group.groups[gi1].snapshots, backup_time as int)) by {
                if has_snapshot(after_group.groups[gi1].snapshots, backup_time as int) {
                    let k = crate::datastore::snapshot_idx(
                        after_group.groups[gi1].snapshots,
                        backup_time as int,
                    );
                    assert(after_group.groups[gi1].snapshots[k].time == backup_time);
                    assert(after_group.groups[gi1].snapshots[k].time <= last->Some_0);
                }
            }
        }
        let created = match store.create_locked_backup_dir(&backup_dir) {
            Ok(p) => p,
            Err(e) => {
                store.release_group_lock(backup_group);
                return Err(e);
            }
        };
        if !created.1 {
            store.release_snapshot_lock(&backup_dir);
            store.release_group_lock(backup_group);
            return Err(StoreError::AlreadyExists);
        }
        let ghost after_dir = store@;
        proof {
            assert(!has_snapshot(after_group.groups[gi1].snapshots, backup_time as int));
            assert(after_dir.groups[gi1].ty == ty && after_dir.groups[gi1].id == id);
            crate::datastore::lemma_group_idx_unique(after_dir.groups, ty, id, gi1);
            let ss = after_dir.groups[gi1].snapshots;
            assert(ss[ss.len() - 1].time == backup_time);
            assert(has_snapshot(ss, backup_time as int));
        }
        let token = match store.try_shared_chunk_store_lock(now) {
            Ok(t) => t,
            Err(e) => {
                let _ = store.remove_backup_dir(&backup_dir, true);
                store.release_group_lock(backup_group);
                return Err(e);
            }
        };
        proof {
            assert(store@.groups == after_dir.groups);
        }
        let session = BackupSession {
            backup_dir,
            lock_token: token,
            known_chunks: Vec::new(),
            writers: Vec::new(),
            next_wid: 1,
            phase: SessionPhase::Active,
        };
        proof {
            assert(session@.known =~= Seq::<KnownChunkView>::empty());
            assert(session@.writers =~= Seq::<WriterView>::empty());
        }
        Ok(session)
    }

    /// Register every chunk of a previous snapshot's dynamic index, as
    /// the warmup download of the last backup does: the client may then
    /// reference those chunks without uploading them again. A digest not
    /// yet registered is recorded with the byte span its entry covers.
    #[verifier::rlimit(50)]
    pub fn register_known_chunks_dynamic(
        &mut self,
        reader: &crate::dynamic_index::DynamicIndexReader,
    ) -> (r: Result<(), StoreError>)
        requires
            old(self).wf(),
            reader.wf(),
        ensures
            final(self).wf(),
            r is Ok <==> forall|i: int|
                0 <= i < reader@.entries.len() ==> (#[trigger] reader@.entries[i]).end
                    - crate::dynamic_index::chunk_start(reader@.entries, i) <= u32::MAX,
            r matches Err(e) ==> e == StoreError::Protocol,
            old(self)@.known.len() <= final(self)@.known.len(),
            forall|k: int|
                0 <= k < old(self)@.known.len() ==> final(self)@.known[k] == old(self)@.known[k],
            forall|k: int|
                old(self)@.known.len() <= k < final(self)@.known.len()
                    ==> #[trigger] dynamic_warmup_origin(final(self)@.known, k, reader@.entries),
            r is Ok ==> forall|i: int|
                0 <= i < reader@.entries.len() ==> knows_chunk(
                    final(self)@.known,
                    (#[trigger] reader@.entries[i]).digest,
                ),
    {
        let ghost old_known = self@.known;
        let ghost es = reader@.entries;
        let n = reader.index_count();
        let mut i: usize = 0;
        while i < n
            invariant
                self.wf(),
                reader.wf(),
                old_known == old(self)@.known,
                es == reader@.entries,
                n == es.len(),
                i <= n,
                old_known.len() <= self@.known.len(),
                forall|k: int| 0 <= k < old_known.len() ==> self@.known[k] == old_known[k],
                forall|k: int|
                    old_known.len() <= k < self@.known.len()
                        ==> #[trigger] dynamic_warmup_origin(self@.known, k, es),
                forall|j: int|
                    0 <= j < i ==> knows_chunk(self@.known, (#[trigger] es[j]).digest),
                forall|j: int|
                    0 <= j < i ==> (#[trigger] es[j]).end - crate::dynamic_index::chunk_start(
                        es,
                        j,
                    ) <= u32::MAX,
            decreases n - i,
        {
            let info = match reader.chunk_info(i) {
                Some(info) => info,
                None => {
                    return Err(StoreError::Protocol);
                }
            };
            let (start, end, digest) = info;
            if end - start > u32::MAX as u64 {
                proof {
                    assert(es[i as int].end - crate::dynamic_index::chunk_start(es, i as int)
                        > u32::MAX);
                }
                return Err(StoreError::Protocol);
            }
            let ghost pre = self@.known;
            self.register_chunk(digest, (end - start) as u32);
            proof {
                if knows_chunk(pre, digest@) {
                    assert(self@.known == pre);
                } else {
                    assert(self@.known =~= pre.push(
                        KnownChunkView {
                            digest: digest@,
                            size: es[i as int].end - crate::dynamic_index::chunk_start(
                                es,
                                i as int,
                            ),
                        },
                    ));
                    assert(self@.known[self@.known.len() - 1].digest == digest@);
                    assert(dynamic_warmup_origin(self@.known, self@.known.len() - 1, es)) by {
                        assert(self@.known[self@.known.len() - 1].size == es[i as int].end
                            - crate::dynamic_index::chunk_start(es, i as int));
                    }
                    assert forall|k: int|
                        old_known.len() <= k < self@.known.len()
                            implies #[trigger] dynamic_warmup_origin(self@.known, k, es) by {
                        if k < self@.known.len() - 1 {
                            assert(dynamic_warmup_origin(pre, k, es));
                            let j0 = choose|j: int|
                                0 <= j < es.len() && pre[k].digest == (#[trigger] es[j]).digest
                                    && pre[k].size == es[j].end
                                    - crate::dynamic_index::chunk_start(es, j);
                            assert(self@.known[k] == pre[k]);
                            assert(self@.known[k].digest == es[j0].digest && self@.known[k].size
                                == es[j0].end - crate::dynamic_index::chunk_start(es, j0));
                        }
                    }
                }
                assert(knows_chunk(self@.known, digest@));
                assert forall|j: int|
                    0 <= j < i + 1 implies knows_chunk(
                    self@.known,
                    (#[trigger] es[j]).digest,
                ) by {
                    if j < i as int {
                        let k = choose|k: int|
                            0 <= k < pre.len() && pre[k].digest == es[j].digest;
                        if !knows_chunk(pre, digest@) {
                            assert(self@.known[k] == pre[k]);
                        } else {
                            assert(self@.known == pre);
                        }
                    } else {
                        assert(es[j].digest == digest@);
                    }
                }
            }
            i = i + 1;
        }
        Ok(())
    }

    /// Register every chunk of a previous snapshot's fixed index, as the
    /// warmup download of the last backup does. A digest not yet
    /// registered is recorded with its slot's byte span: the chunk size,
    /// or what is left of the image in the last slot.
    #[verifier::rlimit(50)]
    pub fn register_known_chunks_fixed(
        &mut self,
        reader: &crate::fixed_index::FixedIndexReader,
    ) -> (r: Result<(), StoreError>)
        requires
            old(self).wf(),
            reader.wf(),
        ensures
            final(self).wf(),
            r is Ok <==> forall|i: int|
                0 <= i < reader@.digests.len() ==> fixed_slot_span(reader@, i) <= u32::MAX,
            r matches Err(e) ==> e == StoreError::Protocol,
            old(self)@.known.len() <= final(self)@.known.len(),
            forall|k: int|
                0 <= k < old(self)@.known.len() ==> final(self)@.known[k] == old(self)@.known[k],
            forall|k: int|
                old(self)@.known.len() <= k < final(self)@.known.len()
                    ==> #[trigger] fixed_warmup_origin(final(self)@.known, k, reader@),
            r is Ok ==> forall|i: int|
                0 <= i < reader@.digests.len() ==> knows_chunk(
                    final(self)@.known,
                    #[trigger] reader@.digests[i],
                ),
    {
        let ghost old_known = self@.known;
        let ghost rv = reader@;
        let n = reader.index_count();
        let mut i: usize = 0;
        while i < n
            invariant
                self.wf(),
                reader.wf(),
                old_known == old(self)@.known,
                rv == reader@,
                n == rv.digests.len(),
                i <= n,
                old_known.len() <= self@.known.len(),
                forall|k: int| 0 <= k < old_known.len() ==> self@.known[k] == old_known[k],
                forall|k: int|
                    old_known.len() <= k < self@.known.len()
                        ==> #[trigger] fixed_warmup_origin(self@.known, k, rv),
                forall|j: int|
                    0 <= j < i ==> knows_chunk(self@.known, #[trigger] rv.digests[j]),
                forall|j: int| 0 <= j < i ==> #[trigger] fixed_slot_span(rv, j) <= u32::MAX,
            decreases n - i,
        {
            let info = match reader.chunk_info(i) {
                Some(info) => info,
                None => {
                    return Err(StoreError::Protocol);
                }
            };
            let (start, end, digest) = info;
            proof {
                assert(end - start == fixed_slot_span(rv, i as int));
            }
            if end - start > u32::MAX as u64 {
                proof {
                    assert(fixed_slot_span(rv, i as int) > u32::MAX);
                }
                return Err(StoreError::Protocol);
            }
            let ghost pre = self@.known;
            self.register_chunk(digest, (end - start) as u32);
            proof {
                if knows_chunk(pre, digest@) {
                    assert(self@.known == pre);
                } else {
                    assert(self@.known =~= pre.push(
                        KnownChunkView { digest: digest@, size: fixed_slot_span(rv, i as int) },
                    ));
                    assert(self@.known[self@.known.len() - 1].digest == digest@);
                    assert(fixed_warmup_origin(self@.known, self@.known.len() - 1, rv)) by {
                        assert(self@.known[self@.known.len() - 1].digest == rv.digests[i as int]);
                        assert(self@.known[self@.known.len() - 1].size == fixed_slot_span(
                            rv,
                            i as int,
                        ));
                    }
                    assert forall|k: int|
                        old_known.len() <= k < self@.known.len()
                            implies #[trigger] fixed_warmup_origin(self@.known, k, rv) by {
                        if k < self@.known.len() - 1 {
                            assert(fixed_warmup_origin(pre, k, rv));
                            let j0 = choose|j: int|
                                0 <= j < rv.digests.len() && pre[k].digest
                                    == (#[trigger] rv.digests[j]) && pre[k].size
                                    == fixed_slot_span(rv, j);
                            assert(self@.known[k] == pre[k]);
                            assert(self@.known[k].digest == rv.digests[j0] && self@.known[k].size
                                == fixed_slot_span(rv, j0));
                        }
                    }
                }
                assert(knows_chunk(self@.known, digest@));
                assert forall|j: int|
                    0 <= j < i + 1 implies knows_chunk(
                    self@.known,
                    #[trigger] rv.digests[j],
                ) by {
                    if j < i as int {
                        let k = choose|k: int|
                            0 <= k < pre.len() && pre[k].digest == rv.digests[j];
                        if !knows_chunk(pre, digest@) {
                            assert(self@.known[k] == pre[k]);
                        } else {
                            assert(self@.known == pre);
                        }
                    } else {
                        assert(rv.digests[j] == digest@);
                    }
                }
            }
            i = i + 1;
        }
        Ok(())
    }

    /// Position of a registered digest.
    fn find_known(&self, digest: &[u8; 32]) -> (r: Option<usize>)
        ensures
            r matches Some(i) ==> i < self@.known.len() && self@.known[i as int].digest == digest@,
            r is None <==> !knows_chunk(self@.known, digest@),
    {
        let n = self.known_chunks.len();
        let mut i: usize = 0;
        while i < n
            invariant
                n == self@.known.len(),
                i <= n,
                forall|j: int| 0 <= j < i ==> (#[trigger] self@.known[j]).digest != digest@,
            decreases n - i,
        {
            if digest_eq(&self.known_chunks[i].digest, digest) {
                proof {
                    assert(self@.known[i as int].digest == digest@);
                }
                return Some(i);
            }
            i = i + 1;
        }
        None
    }

    /// Record that the client may reference a digest of this plaintext
    /// size, as after an upload or from the previous snapshot's index.
    pub fn register_chunk(&mut self, digest: [u8; 32], size: u32)
        requires
            old(self).wf(),
        ensures
            final(self).wf(),
            knows_chunk(old(self)@.known, digest@) ==> final(self)@ == old(self)@,
            !knows_chunk(old(self)@.known, digest@) ==> final(self)@ == (SessionView {
                known: old(self)@.known.push(
                    KnownChunkView { digest: digest@, size: size as int },
                ),
                ..old(self)@
            }),
    {
        let ghost old_view = self@;
        match self.find_known(&digest) {
            Some(_) => {}
            None => {
                self.known_chunks.push(KnownChunk { digest, size });
                proof {
                    assert(self@.known =~= old_view.known.push(
                        KnownChunkView { digest: digest@, size: size as int },
                    ));
                    assert(self@ == (SessionView { known: self@.known, ..old_view }));
                    assert forall|a: int, b: int|
                        0 <= a < b < self@.known.len() implies self@.known[a].digest
                        != self@.known[b].digest by {
                        assert(self@.known[a] == old_view.known[a]);
                        if b < self@.known.len() - 1 {
                            assert(self@.known[b] == old_view.known[b]);
                        }
                    }
                }
            }
        }
    }

    /// The registered size of a digest, if the client may use it.
    pub fn lookup_chunk(&self, digest: &[u8; 32]) -> (r: Option<u32>)
        requires
            self.wf(),
        ensures
            r is Some <==> knows_chunk(self@.known, digest@),
            r matches Some(s) ==> s == self@.known[known_idx(self@.known, digest@)].size,
    {
        match self.find_known(digest) {
            Some(i) => {
                proof {
                    lemma_known_idx_unique(self@.known, digest@, i as int);
                }
                Some(self.known_chunks[i].size)
            }
            None => None,
        }
    }

    /// Take one uploaded chunk: demand that the data hashes to the named
    /// digest, frame it, place it in the store, and register it for
    /// appends. Returns whether it was already stored, and its stored
    /// size.
    pub fn upload_chunk(
        &mut self,
        store: &mut DataStore,
        data: &[u8],
        digest: &[u8; 32],
        compress: bool,
        now: i64,
    ) -> (r: Result<(bool, u64), StoreError>)
        requires
            old(self).wf(),
            old(store).wf(),
            data@.len() + 8 <= usize::MAX,
            data@.len() <= u32::MAX,
        ensures
            final(self).wf(),
            final(store).wf(),
            final(store).spec_name() == old(store).spec_name(),
            final(store).spec_path() == old(store).spec_path(),
            old(self)@.phase != SessionPhase::Active ==> r is Err && r->Err_0
                == StoreError::Protocol && final(self)@ == old(self)@ && final(store)@ == old(store)@,
            sha256_of(data@) != digest@ && old(self)@.phase == SessionPhase::Active ==> r is Err
                && r->Err_0 == StoreError::Integrity && final(self)@ == old(self)@ && final(store)@ == old(store)@,
            sha256_of(data@) == digest@ && old(self)@.phase == SessionPhase::Active ==> {
                &&& r is Ok
                &&& has_chunk(final(store)@.store.chunks, digest@)
                &&& knows_chunk(final(self)@.known, digest@)
                &&& final(store)@.groups == old(store)@.groups
                &&& r->Ok_0.0 == has_chunk(old(store)@.store.chunks, digest@)
                &&& (!has_chunk(old(store)@.store.chunks, digest@) ==> blob_decodes_to(
                    chunk_data(final(store)@.store.chunks, digest@),
                ) == Some(data@))
                &&& (has_chunk(old(store)@.store.chunks, digest@) ==> chunk_data(
                    final(store)@.store.chunks,
                    digest@,
                ) == chunk_data(old(store)@.store.chunks, digest@))
            },
            store_consistent(old(store)@.store.chunks) ==> store_consistent(
                final(store)@.store.chunks,
            ),
    {
        if !matches!(self.phase, SessionPhase::Active) {
            return Err(StoreError::Protocol);
        }
        let computed = sha256(data);
        if !digest_eq(&computed, digest) {
            return Err(StoreError::Integrity);
        }
        let blob = DataBlob::encode(data, compress);
        let ghost pre_store = store@;
        let r = store.insert_chunk(&blob, digest, now);
        let (existed, size) = match r {
            Ok(p) => p,
            Err(_) => {
                proof {
                    assert(false);
                }
                return Err(StoreError::Protocol);
            }
        };
        proof {
            let (sp_existed, sp_chunks) = spec_insert_chunk(
                pre_store.store.chunks,
                digest@,
                blob@,
                now as int,
            );
            if sp_existed {
                let i = crate::chunk_store::chunk_idx(pre_store.store.chunks, digest@);
                crate::chunk_store::lemma_chunk_idx_unique(sp_chunks, digest@, i);
            } else {
                crate::chunk_store::lemma_chunk_idx_unique(
                    sp_chunks,
                    digest@,
                    sp_chunks.len() - 1,
                );
            }
        }
        self.register_chunk(*digest, data.len() as u32);
        proof {
            if !knows_chunk(old(self)@.known, digest@) {
                assert(self@.known[self@.known.len() - 1].digest == digest@);
            }
        }
        Ok((existed, size))
    }

    /// Position of a registered writer id.
    fn find_writer(&self, wid: usize) -> (r: Option<usize>)
        ensures
            r matches Some(i) ==> i < self@.writers.len() && self@.writers[i as int].wid == wid,
            r is None <==> !has_writer(self@.writers, wid as int),
    {
        let n = self.writers.len();
        let mut i: usize = 0;
        while i < n
            invariant
                n == self@.writers.len(),
                i <= n,
                forall|j: int| 0 <= j < i ==> (#[trigger] self@.writers[j]).wid != wid,
            decreases n - i,
        {
            if self.writers[i].wid == wid {
                proof {
                    assert(self@.writers[i as int].wid == wid);
                }
                return Some(i);
            }
            i = i + 1;
        }
        None
    }

    /// Whether an archive name is already registered.
    fn name_taken(&self, name: &str) -> (r: bool)
        ensures
            r == has_writer_name(self@.writers, name@),
    {
        let n = self.writers.len();
        let mut i: usize = 0;
        while i < n
            invariant
                n == self@.writers.len(),
                i <= n,
                forall|j: int| 0 <= j < i ==> (#[trigger] self@.writers[j]).name != name@,
            decreases n - i,
        {
            if self.writers[i].name.as_str().eq(name) {
                proof {
                    assert(self@.writers[i as int].name == name@);
                }
                return true;
            }
            i = i + 1;
        }
        false
    }

    /// Register an index writer under a fresh id: up to 256 writers, each
    /// with a distinct archive name whose extension names the index kind.
    pub fn register_writer(&mut self, index: WriterIndex, name: String) -> (r: Result<
        usize,
        StoreError,
    >)
        requires
            old(self).wf(),
            match index@ {
                WriterIndexView::Fixed(w) => {
                    &&& w.uuid.len() == 16
                    &&& 0 <= w.ctime <= i64::MAX
                    &&& 0 < w.chunk_size
                    &&& 0 <= w.size
                    &&& w.size + w.chunk_size <= u64::MAX
                    &&& w.digests.len() == index_count(w.size, w.chunk_size)
                    &&& w.written.len() == w.digests.len()
                    &&& forall|k: int|
                        0 <= k < w.digests.len() ==> (#[trigger] w.digests[k]).len() == 32
                },
                WriterIndexView::Dynamic(w) => {
                    &&& w.uuid.len() == 16
                    &&& 0 <= w.ctime <= i64::MAX
                    &&& crate::dynamic_index::entries_wf(w.entries)
                },
            },
        ensures
            final(self).wf(),
            old(self)@.phase != SessionPhase::Active ==> r is Err && final(self)@ == old(self)@,
            has_writer_name(old(self)@.writers, name@) ==> r is Err && final(self)@ == old(self)@,
            index@ is Fixed && !spec_ends_with(name@, ".fidx"@) ==> r is Err,
            index@ is Dynamic && !spec_ends_with(name@, ".didx"@) ==> r is Err,
            old(self)@.phase == SessionPhase::Active && !has_writer_name(
                old(self)@.writers,
                name@,
            ) && old(self)@.next_wid <= 256 && (index@ is Fixed ==> spec_ends_with(
                name@,
                ".fidx"@,
            )) && (index@ is Dynamic ==> spec_ends_with(name@, ".didx"@)) ==> r is Ok,
            r matches Err(e) ==> e == StoreError::Protocol && final(self)@ == old(self)@,
            r matches Ok(wid) ==> 1 <= wid <= 256 && !has_writer(old(self)@.writers, wid as int)
                && final(self)@ == (SessionView {
                writers: old(self)@.writers.push(
                    WriterView { wid: wid as int, name: name@, index: index@, closed: false },
                ),
                next_wid: old(self)@.next_wid + 1,
                ..old(self)@
            }),
    {
        let ghost old_view = self@;
        if !matches!(self.phase, SessionPhase::Active) {
            return Err(StoreError::Protocol);
        }
        if self.next_wid > 256 {
            return Err(StoreError::Protocol);
        }
        let extension_fits = match &index {
            WriterIndex::Fixed(_) => str_ends_with(name.as_str(), ".fidx"),
            WriterIndex::Dynamic(_) => str_ends_with(name.as_str(), ".didx"),
        };
        if !extension_fits {
            return Err(StoreError::Protocol);
        }
        if self.name_taken(name.as_str()) {
            return Err(StoreError::Protocol);
        }
        let fresh = self.wid_free(self.next_wid);
        proof {
            if has_writer(self@.writers, self@.next_wid) {
                let k = choose|k: int|
                    0 <= k < self@.writers.len() && self@.writers[k].wid == self@.next_wid;
                assert(self@.writers[k].wid < self@.next_wid);
            }
        }
        if !fresh {
            return Err(StoreError::Protocol);
        }
        let wid = self.next_wid;
        self.next_wid = self.next_wid + 1;
        let ghost nview = name@;
        let ghost iview = index@;
        self.writers.push(RegisteredWriter { wid, name, index, closed: false });
        proof {
            assert(self@.writers =~= old_view.writers.push(
                WriterView { wid: wid as int, name: nview, index: iview, closed: false },
            ));
            assert(self@ == (SessionView {
                writers: self@.writers,
                next_wid: old_view.next_wid + 1,
                ..old_view
            }));
            assert forall|a: int, b: int|
                0 <= a < b < self@.writers.len() implies self@.writers[a].wid
                != self@.writers[b].wid && self@.writers[a].name != self@.writers[b].name by {
                assert(self@.writers[a] == old_view.writers[a]);
                if b < self@.writers.len() - 1 {
                    assert(self@.writers[b] == old_view.writers[b]);
                } else {
                    assert(!has_writer(old_view.writers, wid as int));
                    assert(!has_writer_name(old_view.writers, nview));
                }
            }
            assert forall|a: int|
                0 <= a < self@.writers.len() implies (#[trigger] self@.writers[a]).wid
                < self@.next_wid by {
                if a < self@.writers.len() - 1 {
                    assert(self@.writers[a] == old_view.writers[a]);
                }
            }
        }
        Ok(wid)
    }

    /// Whether no registered writer carries the id.
    fn wid_free(&self, wid: usize) -> (r: bool)
        ensures
            r == !has_writer(self@.writers, wid as int),
    {
        match self.find_writer(wid) {
            Some(_) => false,
            None => true,
        }
    }

    /// Append one chunk reference to a dynamic index: the offset must be
    /// exactly where the index ends, and the digest registered.
    pub fn dynamic_writer_append_chunk(
        &mut self,
        wid: usize,
        offset: u64,
        size: u32,
        digest: &[u8; 32],
    ) -> (r: Result<(), StoreError>)
        requires
            old(self).wf(),
        ensures
            final(self).wf(),
            ({
                let ws = old(self)@.writers;
                let wi = writer_idx(ws, wid as int);
                let ok_target = old(self)@.phase == SessionPhase::Active && knows_chunk(
                    old(self)@.known,
                    digest@,
                ) && has_writer(ws, wid as int) && !ws[wi].closed && (ws[wi].index matches
                    WriterIndexView::Dynamic(w) && offset == entries_size(w.entries) && offset
                    + size <= u64::MAX && size > 0);
                &&& (r is Ok <==> ok_target)
                &&& (r matches Err(e) ==> e == StoreError::Protocol && final(self)@ == old(self)@)
                &&& (r is Ok ==> (ws[wi].index matches WriterIndexView::Dynamic(w) && final(self)@ == (SessionView {
                    writers: ws.update(
                        wi,
                        WriterView {
                            index: WriterIndexView::Dynamic(
                                DynamicWriterView {
                                    entries: w.entries.push(
                                        DynEntryView {
                                            end: offset + size,
                                            digest: digest@,
                                        },
                                    ),
                                    ..w
                                },
                            ),
                            ..ws[wi]
                        },
                    ),
                    ..old(self)@
                })))
            }),
    {
        let ghost old_view = self@;
        if !matches!(self.phase, SessionPhase::Active) {
            return Err(StoreError::Protocol);
        }
        match self.find_known(digest) {
            Some(_) => {}
            None => {
                return Err(StoreError::Protocol);
            }
        }
        let i = match self.find_writer(wid) {
            Some(i) => i,
            None => {
                return Err(StoreError::Protocol);
            }
        };
        proof {
            lemma_writer_idx_unique(self@.writers, wid as int, i as int);
        }
        if self.writers[i].closed {
            return Err(StoreError::Protocol);
        }
        if size == 0 || offset > u64::MAX - size as u64 {
            return Err(StoreError::Protocol);
        }
        let end = offset + size as u64;
        let w = vstd::std_specs::vec::vec_index_mut(&mut self.writers, i);
        match &mut w.index {
            WriterIndex::Dynamic(dyn_writer) => {
                let current = dyn_writer.current_size();
                if offset != current {
                    proof {
                        assert(self@.writers =~= old_view.writers);
                        assert(self@ == old_view);
                    }
                    return Err(StoreError::Protocol);
                }
                match dyn_writer.add_chunk(end, digest) {
                    Ok(_) => {}
                    Err(_) => {
                        proof {
                            assert(false);
                        }
                        return Err(StoreError::Protocol);
                    }
                }
                proof {
                    let wv = old_view.writers[i as int];
                    let wnew = WriterView {
                        index: WriterIndexView::Dynamic(
                            DynamicWriterView {
                                entries: wv.index->Dynamic_0.entries.push(
                                    DynEntryView { end: offset + size, digest: digest@ },
                                ),
                                ..wv.index->Dynamic_0
                            },
                        ),
                        ..wv
                    };
                    assert(self@.writers =~= old_view.writers.update(i as int, wnew));
                    assert(self@ == (SessionView { writers: self@.writers, ..old_view }));
                    assert forall|a: int, b: int|
                        0 <= a < b < self@.writers.len() implies self@.writers[a].wid
                        != self@.writers[b].wid && self@.writers[a].name
                        != self@.writers[b].name by {
                        assert(self@.writers[a].wid == old_view.writers[a].wid);
                        assert(self@.writers[b].wid == old_view.writers[b].wid);
                        assert(self@.writers[a].name == old_view.writers[a].name);
                        assert(self@.writers[b].name == old_view.writers[b].name);
                    }
                }
                Ok(())
            }
            WriterIndex::Fixed(_) => {
                proof {
                    assert(self@.writers =~= old_view.writers);
                    assert(self@ == old_view);
                }
                Err(StoreError::Protocol)
            }
        }
    }

    /// Write one digest into its slot of a fixed index: the offset must
    /// sit on a chunk boundary inside the image, end within it, and the
    /// digest must be registered.
    pub fn fixed_writer_append_chunk(
        &mut self,
        wid: usize,
        offset: u64,
        size: u32,
        digest: &[u8; 32],
    ) -> (r: Result<(), StoreError>)
        requires
            old(self).wf(),
        ensures
            final(self).wf(),
            r matches Err(e) ==> e == StoreError::Protocol && final(self)@ == old(self)@,
            ({
                let ws = old(self)@.writers;
                let wi = writer_idx(ws, wid as int);
                let ok_target = old(self)@.phase == SessionPhase::Active && knows_chunk(
                    old(self)@.known,
                    digest@,
                ) && has_writer(ws, wid as int) && !ws[wi].closed && (ws[wi].index matches
                    WriterIndexView::Fixed(w) && offset as int % w.chunk_size == 0 && offset as int
                    / w.chunk_size < w.digests.len() && offset + size <= w.size);
                &&& (r is Ok <==> ok_target)
                &&& (r is Ok ==> (ws[wi].index matches WriterIndexView::Fixed(w) && {
                    let idx = offset as int / w.chunk_size;
                    final(self)@ == (SessionView {
                        writers: ws.update(
                            wi,
                            WriterView {
                                index: WriterIndexView::Fixed(
                                    FixedWriterView {
                                        digests: w.digests.update(idx, digest@),
                                        written: w.written.update(idx, true),
                                        ..w
                                    },
                                ),
                                ..ws[wi]
                            },
                        ),
                        ..old(self)@
                    })
                }))
            }),
    {
        let ghost old_view = self@;
        if !matches!(self.phase, SessionPhase::Active) {
            return Err(StoreError::Protocol);
        }
        match self.find_known(digest) {
            Some(_) => {}
            None => {
                return Err(StoreError::Protocol);
            }
        }
        let i = match self.find_writer(wid) {
            Some(i) => i,
            None => {
                return Err(StoreError::Protocol);
            }
        };
        proof {
            lemma_writer_idx_unique(self@.writers, wid as int, i as int);
        }
        if self.writers[i].closed {
            return Err(StoreError::Protocol);
        }
        let w = vstd::std_specs::vec::vec_index_mut(&mut self.writers, i);
        match &mut w.index {
            WriterIndex::Fixed(fixed_writer) => {
                let chunk_size = fixed_writer.chunk_size();
                let image_size = fixed_writer.index_bytes();
                let count = fixed_writer.index_count();
                if offset % chunk_size != 0 {
                    proof {
                        assert(self@.writers =~= old_view.writers);
                        assert(self@ == old_view);
                    }
                    return Err(StoreError::Protocol);
                }
                let idx64 = offset / chunk_size;
                if idx64 >= count as u64 || size as u64 > image_size || offset > image_size - (
                size as u64) {
                    proof {
                        assert(self@.writers =~= old_view.writers);
                        assert(self@ == old_view);
                    }
                    return Err(StoreError::Protocol);
                }
                let idx = idx64 as usize;
                match fixed_writer.add_digest(idx, digest) {
                    Ok(_) => {}
                    Err(_) => {
                        proof {
                            assert(false);
                        }
                        return Err(StoreError::Protocol);
                    }
                }
                proof {
                    let wv = old_view.writers[i as int];
                    let wnew = WriterView {
                        index: WriterIndexView::Fixed(
                            FixedWriterView {
                                digests: wv.index->Fixed_0.digests.update(idx as int, digest@),
                                written: wv.index->Fixed_0.written.update(idx as int, true),
                                ..wv.index->Fixed_0
                            },
                        ),
                        ..wv
                    };
                    assert(self@.writers =~= old_view.writers.update(i as int, wnew));
                    assert(self@ == (SessionView { writers: self@.writers, ..old_view }));
                    assert forall|a: int, b: int|
                        0 <= a < b < self@.writers.len() implies self@.writers[a].wid
                        != self@.writers[b].wid && self@.writers[a].name
                        != self@.writers[b].name by {
                        assert(self@.writers[a].wid == old_view.writers[a].wid);
                        assert(self@.writers[b].wid == old_view.writers[b].wid);
                        assert(self@.writers[a].name == old_view.writers[a].name);
                        assert(self@.writers[b].name == old_view.writers[b].name);
                    }
                }
                Ok(())
            }
            WriterIndex::Dynamic(_) => {
                proof {
                    assert(self@.writers =~= old_view.writers);
                    assert(self@ == old_view);
                }
                Err(StoreError::Protocol)
            }
        }
    }

    /// Close one writer: the expected chunk count, size and checksum must
    /// match what accumulated; the sealed index becomes a snapshot file.
    ///
    /// On matching totals the close succeeds — unless the checksum
    /// routine is unavailable — and nothing is committed on any failure.
    pub fn writer_close(
        &mut self,
        store: &mut DataStore,
        wid: usize,
        chunk_count: u64,
        size: u64,
        csum: &[u8; 32],
    ) -> (r: Result<(), StoreError>)
        requires
            old(self).wf(),
            old(store).wf(),
        ensures
            final(self).wf(),
            final(store).wf(),
            final(store).spec_name() == old(store).spec_name(),
            final(store).spec_path() == old(store).spec_path(),
            final(store)@.store == old(store)@.store,
            r is Err ==> final(self)@ == old(self)@ && final(store)@ == old(store)@,
            old(self)@.phase != SessionPhase::Active ==> r == Err::<(), StoreError>(
                StoreError::Protocol,
            ),
            old(self)@.phase == SessionPhase::Active && !has_writer(
                old(self)@.writers,
                wid as int,
            ) ==> r == Err::<(), StoreError>(StoreError::Protocol),
            ({
                let ws = old(self)@.writers;
                let wi = writer_idx(ws, wid as int);
                let gate = old(self)@.phase == SessionPhase::Active && has_writer(ws, wid as int)
                    && !ws[wi].closed;
                let sealable = has_writer(ws, wid as int) && match ws[wi].index {
                    WriterIndexView::Fixed(w) => (forall|k: int|
                        0 <= k < w.written.len() ==> w.written[k]) && chunk_count
                        == w.digests.len() && size == w.size && csum@ == crate::crypto::blake2b_of(
                        crate::fixed_index::digest_list_bytes(w.digests),
                    ).take(32) && w.digests.len() <= usize::MAX / 32,
                    WriterIndexView::Dynamic(w) => chunk_count == w.entries.len() && size
                        == entries_size(w.entries) && csum@ == crate::crypto::blake2b_of(
                        crate::dynamic_index::entry_list_bytes(w.entries),
                    ).take(32) && w.entries.len() <= usize::MAX / 40,
                };
                let sealed = if has_writer(ws, wid as int) {
                    match ws[wi].index {
                        WriterIndexView::Fixed(w) => FileDataView::Fixed(
                            crate::fixed_index::FixedIndexView {
                                uuid: w.uuid,
                                ctime: w.ctime,
                                csum: csum@,
                                size: w.size,
                                chunk_size: w.chunk_size,
                                digests: w.digests,
                            },
                        ),
                        WriterIndexView::Dynamic(w) => FileDataView::Dynamic(
                            crate::dynamic_index::DynamicIndexView {
                                uuid: w.uuid,
                                ctime: w.ctime,
                                csum: csum@,
                                entries: w.entries,
                            },
                        ),
                    }
                } else {
                    FileDataView::Blob(Seq::empty())
                };
                let gs = old(store)@.groups;
                let gi = group_idx(gs, old(self)@.dir.group.ty, old(self)@.dir.group.id);
                let ss = gs[gi].snapshots;
                let si = snapshot_idx(ss, old(self)@.dir.time);
                let present = has_group(gs, old(self)@.dir.group.ty, old(self)@.dir.group.id)
                    && has_snapshot(ss, old(self)@.dir.time);
                &&& (old(self)@.phase == SessionPhase::Active && has_writer(ws, wid as int)
                    && ws[wi].closed ==> r == Err::<(), StoreError>(StoreError::Protocol))
                &&& (gate && sealable && present && !has_file(ss[si].files, ws[wi].name) ==> (
                r is Ok || r == Err::<(), StoreError>(StoreError::Unavailable)))
                &&& (r is Ok ==> gate && sealable && present && final(self)@ == (SessionView {
                    writers: ws.update(wi, WriterView { closed: true, ..ws[wi] }),
                    ..old(self)@
                }) && final(store)@ == (DataStoreView {
                    groups: gs.update(
                        gi,
                        GroupEntryView {
                            snapshots: ss.update(
                                si,
                                SnapshotView {
                                    files: ss[si].files.push(
                                        FileView { name: ws[wi].name, data: sealed },
                                    ),
                                    ..ss[si]
                                },
                            ),
                            ..gs[gi]
                        },
                    ),
                    ..old(store)@
                }))
                &&& (r matches Err(e) ==> e == StoreError::Protocol || e == StoreError::Integrity
                    || e == StoreError::NotFound || e == StoreError::AlreadyExists || e
                    == StoreError::Unavailable)
            }),
    {
        let ghost old_view = self@;
        if !matches!(self.phase, SessionPhase::Active) {
            return Err(StoreError::Protocol);
        }
        let i = match self.find_writer(wid) {
            Some(i) => i,
            None => {
                return Err(StoreError::Protocol);
            }
        };
        proof {
            lemma_writer_idx_unique(self@.writers, wid as int, i as int);
        }
        if self.writers[i].closed {
            return Err(StoreError::Protocol);
        }
        let file_data = match &self.writers[i].index {
            WriterIndex::Fixed(w) => {
                if w.index_count() > usize::MAX / 32 {
                    return Err(StoreError::Protocol);
                }
                proof {
                    vstd::arithmetic::div_mod::lemma_fundamental_div_mod(usize::MAX as int, 32);
                    vstd::arithmetic::div_mod::lemma_mod_bound(usize::MAX as int, 32);
                    let c = old_view.writers[i as int].index->Fixed_0.digests.len() as int;
                    vstd::arithmetic::mul::lemma_mul_inequality(c, (usize::MAX / 32) as int, 32);
                    vstd::arithmetic::mul::lemma_mul_is_commutative(c, 32);
                    vstd::arithmetic::mul::lemma_mul_is_commutative((usize::MAX / 32) as int, 32);
                }
                match w.close(chunk_count, size, csum) {
                    Ok(idx) => FileData::Fixed(idx),
                    Err(e) => {
                        return Err(e);
                    }
                }
            }
            WriterIndex::Dynamic(w) => {
                if w.index_count() > usize::MAX / 40 {
                    return Err(StoreError::Protocol);
                }
                proof {
                    vstd::arithmetic::div_mod::lemma_fundamental_div_mod(usize::MAX as int, 40);
                    vstd::arithmetic::div_mod::lemma_mod_bound(usize::MAX as int, 40);
                    let c = old_view.writers[i as int].index->Dynamic_0.entries.len() as int;
                    vstd::arithmetic::mul::lemma_mul_inequality(c, (usize::MAX / 40) as int, 40);
                    vstd::arithmetic::mul::lemma_mul_is_commutative(c, 40);
                    vstd::arithmetic::mul::lemma_mul_is_commutative((usize::MAX / 40) as int, 40);
                }
                match w.close(chunk_count, size, csum) {
                    Ok(idx) => FileData::Dynamic(idx),
                    Err(e) => {
                        return Err(e);
                    }
                }
            }
        };
        let name = self.writers[i].name.clone();
        match store.add_snapshot_file(&self.backup_dir, name, file_data) {
            Ok(_) => {}
            Err(e) => {
                return Err(e);
            }
        }
        let w = vstd::std_specs::vec::vec_index_mut(&mut self.writers, i);
        w.closed = true;
        proof {
            assert(self@.writers =~= old_view.writers.update(
                i as int,
                WriterView { closed: true, ..old_view.writers[i as int] },
            ));
            assert(self@ == (SessionView { writers: self@.writers, ..old_view }));
            assert forall|a: int, b: int|
                0 <= a < b < self@.writers.len() implies self@.writers[a].wid
                != self@.writers[b].wid && self@.writers[a].name != self@.writers[b].name by {
                assert(self@.writers[a].wid == old_view.writers[a].wid);
                assert(self@.writers[b].wid == old_view.writers[b].wid);
                assert(self@.writers[a].name == old_view.writers[a].name);
                assert(self@.writers[b].name == old_view.writers[b].name);
            }
        }
        Ok(())
    }

    /// Whether every registered writer was closed.
    pub fn all_writers_closed(&self) -> (r: bool)
        ensures
            r <==> forall|i: int|
                0 <= i < self@.writers.len() ==> (#[trigger] self@.writers[i]).closed,
    {
        let n = self.writers.len();
        let mut i: usize = 0;
        while i < n
            invariant
                n == self@.writers.len(),
                i <= n,
                forall|j: int| 0 <= j < i ==> (#[trigger] self@.writers[j]).closed,
            decreases n - i,
        {
            if !self.writers[i].closed {
                proof {
                    assert(!self@.writers[i as int].closed);
                }
                return false;
            }
            i = i + 1;
        }
        true
    }

    /// Seal the snapshot: demand every writer closed and every manifest
    /// entry supplied by the snapshot, write the manifest, and give every
    /// lock back. Only now do readers see the snapshot.
    pub fn finish_backup(&mut self, store: &mut DataStore, manifest: BackupManifest) -> (r: Result<
        (),
        StoreError,
    >)
        requires
            old(self).wf(),
            old(store).wf(),
            manifest.wf(),
        ensures
            final(self).wf(),
            final(store).wf(),
            final(store).spec_name() == old(store).spec_name(),
            final(store).spec_path() == old(store).spec_path(),
            r is Err ==> final(self)@ == old(self)@ && final(store)@ == old(store)@,
            old(self)@.phase != SessionPhase::Active ==> r is Err && r->Err_0
                == StoreError::Protocol,
            old(self)@.phase == SessionPhase::Active && !(forall|i: int|
                0 <= i < old(self)@.writers.len() ==> (#[trigger] old(self)@.writers[i]).closed)
                ==> r is Err && r->Err_0 == StoreError::Protocol,
            ({
                let gs = old(store)@.groups;
                let gi = group_idx(gs, old(self)@.dir.group.ty, old(self)@.dir.group.id);
                let ss = gs[gi].snapshots;
                let si = snapshot_idx(ss, old(self)@.dir.time);
                let present = has_group(gs, old(self)@.dir.group.ty, old(self)@.dir.group.id)
                    && has_snapshot(ss, old(self)@.dir.time);
                let gate = old(self)@.phase == SessionPhase::Active && (forall|i: int|
                    0 <= i < old(self)@.writers.len()
                        ==> (#[trigger] old(self)@.writers[i]).closed);
                &&& (gate && present && crate::datastore::manifest_matches(
                    ss[si].files,
                    manifest@.files,
                ) ==> r is Ok)
                &&& (gate && present && !crate::datastore::manifest_matches(
                    ss[si].files,
                    manifest@.files,
                ) ==> r == Err::<(), StoreError>(StoreError::Integrity))
                &&& (gate && !present ==> r == Err::<(), StoreError>(StoreError::NotFound))
            }),
            r is Ok ==> {
                &&& final(self)@ == (SessionView { phase: SessionPhase::Finished, ..old(self)@ })
                &&& ({
                    let gs = final(store)@.groups;
                    let gi = group_idx(gs, old(self)@.dir.group.ty, old(self)@.dir.group.id);
                    let ss = gs[gi].snapshots;
                    let si = snapshot_idx(ss, old(self)@.dir.time);
                    &&& has_group(gs, old(self)@.dir.group.ty, old(self)@.dir.group.id)
                    &&& has_snapshot(ss, old(self)@.dir.time)
                    &&& ss[si].manifest == Some(manifest@)
                })
            },
    {
        if !matches!(self.phase, SessionPhase::Active) {
            return Err(StoreError::Protocol);
        }
        if !self.all_writers_closed() {
            return Err(StoreError::Protocol);
        }
        match store.manifest_files_present(&self.backup_dir, &manifest) {
            Ok(_) => {}
            Err(e) => {
                return Err(e);
            }
        }
        let ghost old_view = self@;
        let ghost pre_store = store@;
        match store.update_manifest(&self.backup_dir, manifest) {
            Ok(_) => {}
            Err(e) => {
                return Err(e);
            }
        }
        proof {
            let gs = pre_store.groups;
            let gi = group_idx(gs, old_view.dir.group.ty, old_view.dir.group.id);
            let ss = gs[gi].snapshots;
            let si = snapshot_idx(ss, old_view.dir.time);
            crate::datastore::lemma_group_idx_unique(
                store@.groups,
                old_view.dir.group.ty,
                old_view.dir.group.id,
                gi,
            );
            crate::datastore::lemma_snapshot_idx_unique(
                store@.groups[gi].snapshots,
                old_view.dir.time,
                si,
            );
        }
        let ghost sealed_store = store@;
        store.release_snapshot_lock(&self.backup_dir);
        store.release_group_lock(self.backup_dir.group());
        store.release_shared_chunk_store_lock(self.lock_token);
        self.phase = SessionPhase::Finished;
        proof {
            assert(self@ == (SessionView { phase: SessionPhase::Finished, ..old_view }));
            let gs = store@.groups;
            let gi = group_idx(gs, old_view.dir.group.ty, old_view.dir.group.id);
            lemma_seal_survives_unlock(
                sealed_store,
                store@,
                old_view.dir.group.ty,
                old_view.dir.group.id,
                old_view.dir.time,
            );
        }
        Ok(())
    }

    /// Abandon the session: remove the unfinished snapshot — never a
    /// shared chunk — and give every lock back. Only a protected snapshot
    /// stays in place.
    pub fn remove_backup(&mut self, store: &mut DataStore) -> (r: Result<(), StoreError>)
        requires
            old(self).wf(),
            old(store).wf(),
        ensures
            final(self).wf(),
            final(store).wf(),
            final(store).spec_name() == old(store).spec_name(),
            final(store).spec_path() == old(store).spec_path(),
            final(store)@.store.chunks == old(store)@.store.chunks,
            r is Err ==> final(self)@ == old(self)@,
            ({
                let gs = old(store)@.groups;
                let ty = old(self)@.dir.group.ty;
                let id = old(self)@.dir.group.id;
                let gi = group_idx(gs, ty, id);
                let ss = gs[gi].snapshots;
                let si = snapshot_idx(ss, old(self)@.dir.time);
                let present = has_group(gs, ty, id) && has_snapshot(ss, old(self)@.dir.time);
                &&& (present && !ss[si].protected ==> r is Ok)
                &&& (r == Err::<(), StoreError>(StoreError::NotFound) <==> !present)
                &&& (r == Err::<(), StoreError>(StoreError::Protected) <==> present
                    && ss[si].protected)
                &&& (r is Ok ==> {
                    &&& final(self)@ == (SessionView {
                        phase: SessionPhase::Aborted,
                        ..old(self)@
                    })
                    &&& final(store)@ == (DataStoreView {
                        groups: gs.update(
                            gi,
                            GroupEntryView {
                                snapshots: ss.remove(si),
                                locked: false,
                                ..gs[gi]
                            },
                        ),
                        store: (crate::chunk_store::ChunkStoreView {
                            writers: old(store)@.store.writers.filter(
                                |g: crate::chunk_store::GuardView|
                                    g.token != old(self)@.lock_token,
                            ),
                            ..old(store)@.store
                        }),
                        ..old(store)@
                    })
                    &&& !has_snapshot(
                        final(store)@.groups[group_idx(final(store)@.groups, ty, id)].snapshots,
                        old(self)@.dir.time,
                    )
                })
            }),
    {
        let ghost old_view = self@;
        let ghost pre = store@;
        let ghost ty = self@.dir.group.ty;
        let ghost id = self@.dir.group.id;
        let ghost gi = group_idx(pre.groups, ty, id);
        let r = store.remove_backup_dir(&self.backup_dir, true);
        let ghost after_rm = store@;
        store.release_group_lock(self.backup_dir.group());
        let ghost after_gl = store@;
        store.release_shared_chunk_store_lock(self.lock_token);
        match r {
            Ok(_) => {
                self.phase = SessionPhase::Aborted;
                proof {
                    assert(self@ == (SessionView { phase: SessionPhase::Aborted, ..old_view }));
                    let ss = pre.groups[gi].snapshots;
                    let si = snapshot_idx(ss, old_view.dir.time);
                    assert(after_rm.groups == pre.groups.update(
                        gi,
                        GroupEntryView { snapshots: ss.remove(si), ..pre.groups[gi] },
                    ));
                    assert(after_rm.groups[gi].ty == ty && after_rm.groups[gi].id == id);
                    crate::datastore::lemma_group_idx_unique(after_rm.groups, ty, id, gi);
                    assert(after_gl.groups =~= pre.groups.update(
                        gi,
                        GroupEntryView {
                            snapshots: ss.remove(si),
                            locked: false,
                            ..pre.groups[gi]
                        },
                    ));
                    assert(store@.groups == after_gl.groups);
                    assert(store@ == (DataStoreView {
                        groups: after_gl.groups,
                        store: store@.store,
                        ..pre
                    }));
                    assert(store@.groups[gi].ty == ty && store@.groups[gi].id == id);
                    crate::datastore::lemma_group_idx_unique(store@.groups, ty, id, gi);
                    assert(!has_snapshot(store@.groups[gi].snapshots, old_view.dir.time)) by {
                        let kept = ss.remove(si);
                        assert forall|k: int|
                            0 <= k < kept.len() implies (#[trigger] kept[k]).time
                            != old_view.dir.time by {
                            let ok = if k < si {
                                k
                            } else {
                                k + 1
                            };
                            assert(kept[k] == ss[ok]);
                            if ss[ok].time == old_view.dir.time {
                                assert(ss[si].time == old_view.dir.time);
                            }
                        }
                    }
                }
                Ok(())
            }
            Err(e) => Err(e),
        }
    }
}

/// With unique digests, a matching position is the chosen one.
proof fn lemma_known_idx_unique(ks: Seq<KnownChunkView>, d: Seq<u8>, i: int)
    requires
        forall|a: int, b: int| 0 <= a < b < ks.len() ==> ks[a].digest != ks[b].digest,
        0 <= i < ks.len(),
        ks[i].digest == d,
    ensures
        knows_chunk(ks, d),
        known_idx(ks, d) == i,
{
    assert(knows_chunk(ks, d));
    let j = known_idx(ks, d);
    if j != i {
        if j < i {
            assert(ks[j].digest != ks[i].digest);
        } else {
            assert(ks[i].digest != ks[j].digest);
        }
    }
}

/// With unique ids, a matching position is the chosen one.
proof fn lemma_writer_idx_unique(ws: Seq<WriterView>, wid: int, i: int)
    requires
        forall|a: int, b: int|
            0 <= a < b < ws.len() ==> ws[a].wid != ws[b].wid && ws[a].name != ws[b].name,
        0 <= i < ws.len(),
        ws[i].wid == wid,
    ensures
        has_writer(ws, wid),
        writer_idx(ws, wid) == i,
{
    assert(has_writer(ws, wid));
    let j = writer_idx(ws, wid);
    if j != i {
        if j < i {
            assert(ws[j].wid != ws[i].wid);
        } else {
            assert(ws[i].wid != ws[j].wid);
        }
    }
}

/// Releasing the snapshot and group locks keeps the sealed manifest in
/// place.
proof fn lemma_seal_survives_unlock(
    sealed: DataStoreView,
    unlocked: DataStoreView,
    ty: Seq<char>,
    id: Seq<char>,
    t: int,
)
    requires
        crate::datastore::groups_wf(sealed.groups),
        crate::datastore::groups_wf(unlocked.groups),
        has_group(sealed.groups, ty, id),
        has_snapshot(sealed.groups[group_idx(sealed.groups, ty, id)].snapshots, t),
        unlocked.groups.len() == sealed.groups.len(),
        forall|g: int|
            0 <= g < sealed.groups.len() ==> (#[trigger] unlocked.groups[g]).ty
                == sealed.groups[g].ty && unlocked.groups[g].id == sealed.groups[g].id
                && unlocked.groups[g].snapshots.len() == sealed.groups[g].snapshots.len(),
        forall|g: int, s: int|
            0 <= g < sealed.groups.len() && 0 <= s < sealed.groups[g].snapshots.len()
                ==> (#[trigger] unlocked.groups[g].snapshots[s]).time
                == sealed.groups[g].snapshots[s].time && unlocked.groups[g].snapshots[s].manifest
                == sealed.groups[g].snapshots[s].manifest,
    ensures
        has_group(unlocked.groups, ty, id),
        has_snapshot(unlocked.groups[group_idx(unlocked.groups, ty, id)].snapshots, t),
        unlocked.groups[group_idx(unlocked.groups, ty, id)].snapshots[snapshot_idx(
            unlocked.groups[group_idx(unlocked.groups, ty, id)].snapshots,
            t,
        )].manifest == sealed.groups[group_idx(sealed.groups, ty, id)].snapshots[snapshot_idx(
            sealed.groups[group_idx(sealed.groups, ty, id)].snapshots,
            t,
        )].manifest,
{
    let gi = group_idx(sealed.groups, ty, id);
    assert(0 <= gi < sealed.groups.len() && sealed.groups[gi].ty == ty && sealed.groups[gi].id
        == id);
    crate::datastore::lemma_group_idx_unique(unlocked.groups, ty, id, gi);
    let si = snapshot_idx(sealed.groups[gi].snapshots, t);
    assert(0 <= si < sealed.groups[gi].snapshots.len() && sealed.groups[gi].snapshots[si].time
        == t);
    assert(unlocked.groups[gi].snapshots[si].time == t);
    crate::datastore::lemma_snapshot_idx_unique(unlocked.groups[gi].snapshots, t, si);
}

} // verus!
