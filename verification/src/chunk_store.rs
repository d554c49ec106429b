//! The sharded content-addressed chunk repository.
//!
//! The store keeps one immutable file per chunk, named by the digest of
//! its plaintext, together with an access time used by the collector.
//! This module carries the store's state and every transition on it:
//! idempotent insert, access-time touching, the sweep of the collector,
//! and the shared/exclusive process lock that pins the sweep cutoff.
//! Reading and writing the backing directory is the shell's work; the
//! state and its laws live here.

use vstd::prelude::*;
use vstd::slice::slice_to_vec;

use crate::blob::{blob_decodes_to, DataBlob};
use crate::crypto::sha256_of;
use crate::digest::{digest_eq, digest_to_hex, hex_str_of};
use crate::error::StoreError;
use crate::gc::GarbageCollectionStatus;

verus! {

/// Safety margin of the sweep cutoff below the oldest writer: a day and
/// five minutes, longer than any in-flight upload window.
pub const GC_SAFE_MARGIN: i64 = 86700;

/// One stored chunk file: its digest, its framed bytes, and the time it
/// was last inserted or touched.
pub struct ChunkEntry {
    pub digest: [u8; 32],
    pub data: Vec<u8>,
    pub atime: i64,
}

/// Ghost image of one stored chunk.
pub struct ChunkView {
    pub digest: Seq<u8>,
    pub data: Seq<u8>,
    pub atime: int,
}

impl View for ChunkEntry {
    type V = ChunkView;

    open spec fn view(&self) -> ChunkView {
        ChunkView { digest: self.digest@, data: self.data@, atime: self.atime as int }
    }
}

/// A corrupt chunk file set aside under a `.bad` name.
pub struct BadEntry {
    pub digest: [u8; 32],
    pub atime: i64,
}

/// Ghost image of one bad chunk file.
pub struct BadView {
    pub digest: Seq<u8>,
    pub atime: int,
}

impl View for BadEntry {
    type V = BadView;

    open spec fn view(&self) -> BadView {
        BadView { digest: self.digest@, atime: self.atime as int }
    }
}

/// One live shared-lock holder.
pub struct SharedGuard {
    pub token: u64,
    pub lock_time: i64,
}

/// Ghost image of one shared-lock holder.
pub struct GuardView {
    pub token: u64,
    pub lock_time: int,
}

impl View for SharedGuard {
    type V = GuardView;

    open spec fn view(&self) -> GuardView {
        GuardView { token: self.token, lock_time: self.lock_time as int }
    }
}

/// Ghost image of a whole chunk store.
pub struct ChunkStoreView {
    pub chunks: Seq<ChunkView>,
    pub bad: Seq<BadView>,
    pub writers: Seq<GuardView>,
    pub next_token: u64,
    pub exclusive: bool,
}

/// Whether some stored chunk carries the digest.
pub open spec fn has_chunk(s: Seq<ChunkView>, d: Seq<u8>) -> bool {
    exists|i: int| 0 <= i < s.len() && s[i].digest == d
}

/// The position of the chunk with the digest.
pub open spec fn chunk_idx(s: Seq<ChunkView>, d: Seq<u8>) -> int {
    choose|i: int| 0 <= i < s.len() && s[i].digest == d
}

/// The framed bytes of the chunk with the digest.
pub open spec fn chunk_data(s: Seq<ChunkView>, d: Seq<u8>) -> Seq<u8> {
    s[chunk_idx(s, d)].data
}

/// The access time of the chunk with the digest.
pub open spec fn chunk_atime(s: Seq<ChunkView>, d: Seq<u8>) -> int {
    s[chunk_idx(s, d)].atime
}

/// No two stored chunks share a digest.
pub open spec fn unique_digests(s: Seq<ChunkView>) -> bool {
    forall|i: int, j: int| 0 <= i < j < s.len() ==> s[i].digest != s[j].digest
}

/// Every stored chunk fits the size counters.
pub open spec fn bounded_entries(s: Seq<ChunkView>) -> bool {
    forall|i: int| 0 <= i < s.len() ==> (#[trigger] s[i]).data.len() <= u64::MAX
}

/// Content addressing: every stored chunk decodes to a plaintext whose
/// digest is its name.
pub open spec fn store_consistent(s: Seq<ChunkView>) -> bool {
    forall|i: int|
        0 <= i < s.len() ==> {
            &&& blob_decodes_to((#[trigger] s[i]).data) is Some
            &&& sha256_of(blob_decodes_to(s[i].data)->Some_0) == s[i].digest
        }
}

/// The store after inserting a chunk: a present digest is only touched,
/// a new one is appended.
pub open spec fn spec_insert_chunk(s: Seq<ChunkView>, d: Seq<u8>, data: Seq<u8>, now: int) -> (
    bool,
    Seq<ChunkView>,
) {
    if has_chunk(s, d) {
        (true, s.update(chunk_idx(s, d), ChunkView { atime: now, ..s[chunk_idx(s, d)] }))
    } else {
        (false, s.push(ChunkView { digest: d, data: data, atime: now }))
    }
}

/// The sweep cutoff: the safety margin below the older of the oldest
/// writer and the start of the mark phase.
pub open spec fn sweep_cutoff(oldest_writer: int, phase1_start: int) -> int {
    (if oldest_writer <= phase1_start {
        oldest_writer
    } else {
        phase1_start
    }) - GC_SAFE_MARGIN
}

/// The chunks that a sweep with the given cutoff keeps.
pub open spec fn swept_chunks(s: Seq<ChunkView>, cutoff: int) -> Seq<ChunkView> {
    s.filter(|e: ChunkView| e.atime >= cutoff)
}

/// The chunks that a sweep with the given cutoff removes.
pub open spec fn removed_chunks_of(s: Seq<ChunkView>, cutoff: int) -> Seq<ChunkView> {
    s.filter(|e: ChunkView| e.atime < cutoff)
}

/// The kept chunks inside the safety window, reported as pending.
pub open spec fn pending_chunks_of(s: Seq<ChunkView>, cutoff: int, floor: int) -> Seq<ChunkView> {
    s.filter(|e: ChunkView| cutoff <= e.atime < floor)
}

/// The kept chunks past the safety window, reported as on disk.
pub open spec fn disk_chunks_of(s: Seq<ChunkView>, floor: int) -> Seq<ChunkView> {
    s.filter(|e: ChunkView| e.atime >= floor)
}

/// The bad chunk files that a sweep keeps: those still recent and not
/// replaced by a good chunk.
pub open spec fn swept_bad(b: Seq<BadView>, kept: Seq<ChunkView>, cutoff: int) -> Seq<BadView> {
    b.filter(|e: BadView| e.atime >= cutoff && !has_chunk(kept, e.digest))
}

/// Total framed bytes of a set of chunks.
pub open spec fn chunk_bytes(s: Seq<ChunkView>) -> int
    decreases s.len(),
{
    if s.len() == 0 {
        0
    } else {
        chunk_bytes(s.drop_last()) + s.last().data.len()
    }
}

/// The sharded content-addressed chunk repository of one store.
pub struct ChunkStore {
    name: String,
    path: String,
    chunks: Vec<ChunkEntry>,
    bad: Vec<BadEntry>,
    writers: Vec<SharedGuard>,
    next_token: u64,
    exclusive: bool,
}

impl View for ChunkStore {
    type V = ChunkStoreView;

    closed spec fn view(&self) -> ChunkStoreView {
        ChunkStoreView {
            chunks: self.chunks@.map_values(|e: ChunkEntry| e@),
            bad: self.bad@.map_values(|e: BadEntry| e@),
            writers: self.writers@.map_values(|e: SharedGuard| e@),
            next_token: self.next_token,
            exclusive: self.exclusive,
        }
    }
}

/// Digests unique, sizes bounded, and live lock tokens below the issue
/// counter.
pub open spec fn store_wf(v: ChunkStoreView) -> bool {
    &&& unique_digests(v.chunks)
    &&& bounded_entries(v.chunks)
    &&& forall|i: int|
        0 <= i < v.writers.len() ==> (#[trigger] v.writers[i]).token < v.next_token
}

impl ChunkStore {
    /// The store's configured name.
    pub closed spec fn spec_name(&self) -> Seq<char> {
        self.name@
    }

    /// The store's base directory.
    pub closed spec fn spec_path(&self) -> Seq<char> {
        self.path@
    }

    /// The store's state is well formed.
    pub open spec fn wf(&self) -> bool {
        store_wf(self@)
    }

    /// A new store with no chunks and no lock holders.
    pub fn create(name: String, path: String) -> (r: ChunkStore)
        ensures
            r.wf(),
            r.spec_name() == name@,
            r.spec_path() == path@,
            r@.chunks == Seq::<ChunkView>::empty(),
            r@.bad == Seq::<BadView>::empty(),
            r@.writers == Seq::<GuardView>::empty(),
            r@.next_token == 0,
            !r@.exclusive,
            store_consistent(r@.chunks),
    {
        let r = ChunkStore {
            name,
            path,
            chunks: Vec::new(),
            bad: Vec::new(),
            writers: Vec::new(),
            next_token: 0,
            exclusive: false,
        };
        assert(r@.chunks =~= Seq::<ChunkView>::empty());
        assert(r@.bad =~= Seq::<BadView>::empty());
        assert(r@.writers =~= Seq::<GuardView>::empty());
        r
    }

    /// The store's configured name.
    pub fn name(&self) -> (r: &str)
        ensures
            r@ == self.spec_name(),
    {
        self.name.as_str()
    }

    /// The store's base directory.
    pub fn base_path(&self) -> (r: String)
        ensures
            r@ == self.spec_path(),
    {
        self.path.clone()
    }

    /// The path of a file directly under the store's base directory.
    pub fn relative_path(&self, filename: &str) -> (r: String)
        ensures
            r@ == self.spec_path() + "/"@ + filename@,
    {
        let mut r = self.path.clone();
        r.append("/");
        r.append(filename);
        r
    }

    /// Where the chunk with this digest lives: its full path under the
    /// shard tree, and its digest spelled in hexadecimal.
    pub fn chunk_path(&self, digest: &[u8; 32]) -> (r: (String, String))
        ensures
            r.1@ == hex_str_of(digest@),
            r.0@ == self.spec_path() + "/.chunks/"@ + hex_str_of(digest@).take(4) + "/"@
                + hex_str_of(digest@),
    {
        let digest_str = digest_to_hex(digest);
        proof {
            crate::digest::lemma_hex_str_ascii(digest@);
        }
        let prefix = digest_str.as_str().substring_ascii(0, 4);
        let mut full = self.path.clone();
        full.append("/.chunks/");
        full.append(prefix);
        full.append("/");
        full.append(digest_str.as_str());
        proof {
            assert(hex_str_of(digest@).subrange(0, 4) =~= hex_str_of(digest@).take(4));
        }
        (full, digest_str)
    }

    /// Position of the chunk with the digest, if any.
    fn find_chunk(&self, digest: &[u8; 32]) -> (r: Option<usize>)
        ensures
            r matches Some(i) ==> i < self@.chunks.len() && self@.chunks[i as int].digest
                == digest@,
            r is None ==> !has_chunk(self@.chunks, digest@),
    {
        let n = self.chunks.len();
        let mut i: usize = 0;
        while i < n
            invariant
                n == self.chunks.len(),
                i <= n,
                forall|j: int| 0 <= j < i ==> self@.chunks[j].digest != digest@,
            decreases n - i,
        {
            if digest_eq(&self.chunks[i].digest, digest) {
                return Some(i);
            }
            i = i + 1;
        }
        None
    }

    /// Whether a chunk with this digest is stored, and its size.
    pub fn stat_chunk(&self, digest: &[u8; 32]) -> (r: Result<u64, StoreError>)
        requires
            self.wf(),
        ensures
            r matches Ok(n) ==> has_chunk(self@.chunks, digest@) && n == chunk_data(
                self@.chunks,
                digest@,
            ).len(),
            r is Err ==> !has_chunk(self@.chunks, digest@) && r->Err_0 == StoreError::NotFound,
    {
        match self.find_chunk(digest) {
            Some(i) => {
                proof {
                    lemma_chunk_idx_unique(self@.chunks, digest@, i as int);
                }
                Ok(self.chunks[i].data.len() as u64)
            }
            None => Err(StoreError::NotFound),
        }
    }

    /// The framed bytes of the stored chunk, as a fresh blob: fails
    /// exactly when the chunk is missing or its frame has lost its magic.
    pub fn load_chunk(&self, digest: &[u8; 32]) -> (r: Result<DataBlob, StoreError>)
        requires
            self.wf(),
        ensures
            r matches Ok(b) ==> b@ == chunk_data(self@.chunks, digest@),
            r is Ok <==> has_chunk(self@.chunks, digest@) && crate::blob::blob_magic_known(
                chunk_data(self@.chunks, digest@),
            ),
            r == Err::<DataBlob, StoreError>(StoreError::NotFound) <==> !has_chunk(
                self@.chunks,
                digest@,
            ),
            r == Err::<DataBlob, StoreError>(StoreError::Integrity) <==> has_chunk(
                self@.chunks,
                digest@,
            ) && !crate::blob::blob_magic_known(chunk_data(self@.chunks, digest@)),
    {
        match self.find_chunk(digest) {
            Some(i) => {
                proof {
                    lemma_chunk_idx_unique(self@.chunks, digest@, i as int);
                }
                let raw = slice_to_vec(self.chunks[i].data.as_slice());
                match DataBlob::from_raw(raw) {
                    Ok(b) => Ok(b),
                    Err(_) => Err(StoreError::Integrity),
                }
            }
            None => Err(StoreError::NotFound),
        }
    }

    /// Place a chunk: a stored digest is only touched and reports
    /// `existed`; a new one is appended with the given time. Returns the
    /// stored size.
    pub fn insert_chunk(&mut self, chunk: &DataBlob, digest: &[u8; 32], now: i64) -> (r: Result<
        (bool, u64),
        StoreError,
    >)
        requires
            old(self).wf(),
            blob_decodes_to(chunk@) is Some,
            sha256_of(blob_decodes_to(chunk@)->Some_0) == digest@,
            chunk@.len() <= u64::MAX,
        ensures
            final(self).wf(),
            final(self).spec_name() == old(self).spec_name(),
            final(self).spec_path() == old(self).spec_path(),
            r is Ok,
            ({
                let (existed, new_chunks) = spec_insert_chunk(
                    old(self)@.chunks,
                    digest@,
                    chunk@,
                    now as int,
                );
                &&& final(self)@ == (ChunkStoreView { chunks: new_chunks, ..old(self)@ })
                &&& r->Ok_0.0 == existed
                &&& r->Ok_0.1 == chunk_data(final(self)@.chunks, digest@).len()
                &&& (!existed ==> r->Ok_0.1 == chunk@.len())
            }),
            store_consistent(old(self)@.chunks) ==> store_consistent(final(self)@.chunks),
    {
        let ghost old_view = self@;
        match self.find_chunk(digest) {
            Some(i) => {
                proof {
                    lemma_chunk_idx_unique(self@.chunks, digest@, i as int);
                }
                let size = self.chunks[i].data.len() as u64;
                let e = vstd::std_specs::vec::vec_index_mut(&mut self.chunks, i);
                e.atime = now;
                proof {
                    assert(self@.chunks =~= old_view.chunks.update(
                        i as int,
                        ChunkView { atime: now as int, ..old_view.chunks[i as int] },
                    ));
                    assert(self@ == (ChunkStoreView { chunks: self@.chunks, ..old_view }));
                    lemma_chunk_idx_unique(self@.chunks, digest@, i as int);
                    assert(store_consistent(old_view.chunks) ==> store_consistent(
                        self@.chunks,
                    )) by {
                        if store_consistent(old_view.chunks) {
                            assert forall|k: int| 0 <= k < self@.chunks.len() implies {
                                &&& blob_decodes_to((#[trigger] self@.chunks[k]).data) is Some
                                &&& sha256_of(blob_decodes_to(self@.chunks[k].data)->Some_0)
                                    == self@.chunks[k].digest
                            } by {
                                assert(self@.chunks[k].data == old_view.chunks[k].data);
                                assert(self@.chunks[k].digest == old_view.chunks[k].digest);
                            }
                        }
                    }
                }
                Ok((true, size))
            }
            None => {
                let data = slice_to_vec(chunk.raw_data().as_slice());
                let size = data.len() as u64;
                let entry = ChunkEntry { digest: *digest, data, atime: now };
                self.chunks.push(entry);
                proof {
                    assert(self@.chunks =~= old_view.chunks.push(
                        ChunkView { digest: digest@, data: chunk@, atime: now as int },
                    ));
                    assert(self@ == (ChunkStoreView { chunks: self@.chunks, ..old_view }));
                    let nc = self@.chunks;
                    assert(nc[nc.len() - 1].digest == digest@);
                    lemma_chunk_idx_unique(nc, digest@, nc.len() - 1);
                }
                Ok((false, size))
            }
        }
    }

    /// Record framed bytes under a digest without any content check, as
    /// when an existing directory tree is adopted. A digest already
    /// stored is left alone.
    pub fn adopt_chunk_file(&mut self, digest: &[u8; 32], data: Vec<u8>, atime: i64)
        requires
            old(self).wf(),
            data@.len() <= u64::MAX,
        ensures
            final(self).wf(),
            final(self).spec_name() == old(self).spec_name(),
            final(self).spec_path() == old(self).spec_path(),
            has_chunk(old(self)@.chunks, digest@) ==> final(self)@ == old(self)@,
            !has_chunk(old(self)@.chunks, digest@) ==> final(self)@ == (ChunkStoreView {
                chunks: old(self)@.chunks.push(
                    ChunkView { digest: digest@, data: data@, atime: atime as int },
                ),
                ..old(self)@
            }),
    {
        let ghost old_view = self@;
        match self.find_chunk(digest) {
            Some(_) => {}
            None => {
                self.chunks.push(ChunkEntry { digest: *digest, data, atime });
                proof {
                    assert(self@.chunks =~= old_view.chunks.push(
                        ChunkView { digest: digest@, data: data@, atime: atime as int },
                    ));
                    assert(self@ == (ChunkStoreView { chunks: self@.chunks, ..old_view }));
                }
            }
        }
    }

    /// Overwrite the framed bytes of a stored chunk in place, keeping its
    /// digest and time: the shape of outside damage to a chunk file.
    pub fn corrupt_chunk_file(&mut self, digest: &[u8; 32], data: Vec<u8>) -> (r: bool)
        requires
            old(self).wf(),
            data@.len() <= u64::MAX,
        ensures
            final(self).wf(),
            final(self).spec_name() == old(self).spec_name(),
            final(self).spec_path() == old(self).spec_path(),
            r == has_chunk(old(self)@.chunks, digest@),
            r ==> final(self)@ == (ChunkStoreView {
                chunks: old(self)@.chunks.update(
                    chunk_idx(old(self)@.chunks, digest@),
                    ChunkView {
                        data: data@,
                        ..old(self)@.chunks[chunk_idx(old(self)@.chunks, digest@)]
                    },
                ),
                ..old(self)@
            }),
            !r ==> final(self)@ == old(self)@,
    {
        let ghost old_view = self@;
        match self.find_chunk(digest) {
            Some(i) => {
                proof {
                    lemma_chunk_idx_unique(self@.chunks, digest@, i as int);
                }
                let e = vstd::std_specs::vec::vec_index_mut(&mut self.chunks, i);
                e.data = data;
                proof {
                    assert(self@.chunks =~= old_view.chunks.update(
                        i as int,
                        ChunkView { data: data@, ..old_view.chunks[i as int] },
                    ));
                    assert(self@ == (ChunkStoreView { chunks: self@.chunks, ..old_view }));
                }
                true
            }
            None => false,
        }
    }

    /// Update the access time of the chunk with this digest. A missing
    /// chunk reports `false`, or fails when the caller demands presence.
    pub fn cond_touch_chunk(&mut self, digest: &[u8; 32], fail_if_not_exist: bool, now: i64) -> (r:
        Result<bool, StoreError>)
        requires
            old(self).wf(),
        ensures
            final(self).wf(),
            final(self).spec_name() == old(self).spec_name(),
            final(self).spec_path() == old(self).spec_path(),
            r matches Ok(found) ==> found == has_chunk(old(self)@.chunks, digest@),
            has_chunk(old(self)@.chunks, digest@) ==> r is Ok && final(self)@ == (ChunkStoreView {
                chunks: old(self)@.chunks.update(
                    chunk_idx(old(self)@.chunks, digest@),
                    ChunkView {
                        atime: now as int,
                        ..old(self)@.chunks[chunk_idx(old(self)@.chunks, digest@)]
                    },
                ),
                ..old(self)@
            }),
            !has_chunk(old(self)@.chunks, digest@) ==> final(self)@ == old(self)@,
            r is Err <==> (fail_if_not_exist && !has_chunk(old(self)@.chunks, digest@)),
            r matches Err(e) ==> e == StoreError::NotFound,
            store_consistent(old(self)@.chunks) ==> store_consistent(final(self)@.chunks),
    {
        let ghost old_view = self@;
        match self.find_chunk(digest) {
            Some(i) => {
                proof {
                    lemma_chunk_idx_unique(self@.chunks, digest@, i as int);
                }
                let e = vstd::std_specs::vec::vec_index_mut(&mut self.chunks, i);
                e.atime = now;
                proof {
                    assert(self@.chunks =~= old_view.chunks.update(
                        i as int,
                        ChunkView { atime: now as int, ..old_view.chunks[i as int] },
                    ));
                    assert(self@ == (ChunkStoreView { chunks: self@.chunks, ..old_view }));
                    assert(store_consistent(old_view.chunks) ==> store_consistent(
                        self@.chunks,
                    )) by {
                        if store_consistent(old_view.chunks) {
                            assert forall|k: int| 0 <= k < self@.chunks.len() implies {
                                &&& blob_decodes_to((#[trigger] self@.chunks[k]).data) is Some
                                &&& sha256_of(blob_decodes_to(self@.chunks[k].data)->Some_0)
                                    == self@.chunks[k].digest
                            } by {
                                assert(self@.chunks[k].data == old_view.chunks[k].data);
                                assert(self@.chunks[k].digest == old_view.chunks[k].digest);
                            }
                        }
                    }
                }
                Ok(true)
            }
            None => {
                if fail_if_not_exist {
                    Err(StoreError::NotFound)
                } else {
                    Ok(false)
                }
            }
        }
    }

    /// Update the access time of every `.bad` file set aside for this
    /// digest, so that damage evidence survives until the digest itself
    /// is gone.
    pub fn touch_bad_chunks(&mut self, digest: &[u8; 32], now: i64)
        requires
            old(self).wf(),
        ensures
            final(self).wf(),
            final(self).spec_name() == old(self).spec_name(),
            final(self).spec_path() == old(self).spec_path(),
            final(self)@ == (ChunkStoreView {
                bad: Seq::new(
                    old(self)@.bad.len(),
                    |i: int|
                        if old(self)@.bad[i].digest == digest@ {
                            BadView { atime: now as int, ..old(self)@.bad[i] }
                        } else {
                            old(self)@.bad[i]
                        },
                ),
                ..old(self)@
            }),
    {
        let ghost old_view = self@;
        let n = self.bad.len();
        let mut i: usize = 0;
        while i < n
            invariant
                n == self.bad.len(),
                i <= n,
                self@.chunks == old_view.chunks,
                self@.writers == old_view.writers,
                self@.next_token == old_view.next_token,
                self@.exclusive == old_view.exclusive,
                self.spec_name() == old(self).spec_name(),
                self.spec_path() == old(self).spec_path(),
                self@.bad.len() == n,
                forall|j: int|
                    0 <= j < i ==> self@.bad[j] == (if old_view.bad[j].digest == digest@ {
                        BadView { atime: now as int, ..old_view.bad[j] }
                    } else {
                        old_view.bad[j]
                    }),
                forall|j: int| i <= j < n ==> self@.bad[j] == old_view.bad[j],
            decreases n - i,
        {
            if digest_eq(&self.bad[i].digest, digest) {
                let ghost pre_bad = self@.bad;
                let e = vstd::std_specs::vec::vec_index_mut(&mut self.bad, i);
                e.atime = now;
                proof {
                    assert(self@.bad =~= pre_bad.update(
                        i as int,
                        BadView { atime: now as int, ..pre_bad[i as int] },
                    ));
                }
            }
            i = i + 1;
        }
        proof {
            assert(self@.bad =~= Seq::new(
                old_view.bad.len(),
                |j: int|
                    if old_view.bad[j].digest == digest@ {
                        BadView { atime: now as int, ..old_view.bad[j] }
                    } else {
                        old_view.bad[j]
                    },
            ));
            assert(self@ == (ChunkStoreView { bad: self@.bad, ..old_view }));
        }
    }

    /// Set a stored chunk aside as a `.bad` file, as verification does
    /// when it finds damage: the chunk leaves the good set and its bytes
    /// are kept as evidence.
    pub fn mark_chunk_bad(&mut self, digest: &[u8; 32], now: i64) -> (r: bool)
        requires
            old(self).wf(),
        ensures
            final(self).wf(),
            final(self).spec_name() == old(self).spec_name(),
            final(self).spec_path() == old(self).spec_path(),
            r == has_chunk(old(self)@.chunks, digest@),
            r ==> final(self)@ == (ChunkStoreView {
                chunks: old(self)@.chunks.remove(chunk_idx(old(self)@.chunks, digest@)),
                bad: old(self)@.bad.push(BadView { digest: digest@, atime: now as int }),
                ..old(self)@
            }),
            !r ==> final(self)@ == old(self)@,
            !has_chunk(final(self)@.chunks, digest@),
    {
        let ghost old_view = self@;
        match self.find_chunk(digest) {
            Some(i) => {
                proof {
                    lemma_chunk_idx_unique(self@.chunks, digest@, i as int);
                }
                let _entry = self.chunks.remove(i);
                self.bad.push(BadEntry { digest: *digest, atime: now });
                proof {
                    assert(self@.chunks =~= old_view.chunks.remove(i as int));
                    assert(self@.bad =~= old_view.bad.push(
                        BadView { digest: digest@, atime: now as int },
                    ));
                    assert(self@ == (ChunkStoreView {
                        chunks: self@.chunks,
                        bad: self@.bad,
                        ..old_view
                    }));
                    lemma_remove_keeps_unique(old_view.chunks, i as int);
                    assert(!has_chunk(self@.chunks, digest@)) by {
                        assert forall|k: int|
                            0 <= k < self@.chunks.len() implies self@.chunks[k].digest
                            != digest@ by {
                            let ok = if k < i as int {
                                k
                            } else {
                                k + 1
                            };
                            assert(self@.chunks[k] == old_view.chunks[ok]);
                            if old_view.chunks[ok].digest == digest@ {
                                assert(ok != i as int);
                                assert(old_view.chunks[i as int].digest == digest@);
                            }
                        }
                    }
                }
                true
            }
            None => false,
        }
    }

    /// Take a shared lock on the store, held by writers and readers for
    /// their whole session; it pins the collector's cutoff. Fails while
    /// the exclusive lock is held.
    pub fn try_shared_lock(&mut self, lock_time: i64) -> (r: Result<u64, StoreError>)
        requires
            old(self).wf(),
        ensures
            final(self).wf(),
            final(self).spec_name() == old(self).spec_name(),
            final(self).spec_path() == old(self).spec_path(),
            r is Err <==> old(self)@.exclusive || old(self)@.next_token == u64::MAX,
            r matches Err(e) ==> e == StoreError::Conflict && final(self)@ == old(self)@,
            r matches Ok(token) ==> final(self)@ == (ChunkStoreView {
                writers: old(self)@.writers.push(
                    GuardView { token, lock_time: lock_time as int },
                ),
                next_token: (old(self)@.next_token + 1) as u64,
                ..old(self)@
            }),
    {
        if self.exclusive {
            return Err(StoreError::Conflict);
        }
        if self.next_token == u64::MAX {
            return Err(StoreError::Conflict);
        }
        let ghost old_view = self@;
        let token = self.next_token;
        self.next_token = self.next_token + 1;
        self.writers.push(SharedGuard { token, lock_time });
        proof {
            assert(self@.writers =~= old_view.writers.push(
                GuardView { token, lock_time: lock_time as int },
            ));
            assert(self@ == (ChunkStoreView {
                writers: self@.writers,
                next_token: self.next_token,
                ..old_view
            }));
        }
        Ok(token)
    }

    /// Give a shared lock back.
    pub fn release_shared_lock(&mut self, token: u64)
        requires
            old(self).wf(),
        ensures
            final(self).wf(),
            final(self).spec_name() == old(self).spec_name(),
            final(self).spec_path() == old(self).spec_path(),
            final(self)@ == (ChunkStoreView {
                writers: old(self)@.writers.filter(|g: GuardView| g.token != token),
                ..old(self)@
            }),
    {
        let ghost old_view = self@;
        let ghost pred = |g: GuardView| g.token != token;
        let mut kept: Vec<SharedGuard> = Vec::new();
        let n = self.writers.len();
        let mut i: usize = 0;
        while i < n
            invariant
                n == self.writers.len(),
                old_view == self@,
                i <= n,
                kept@.map_values(|e: SharedGuard| e@) =~= old_view.writers.take(i as int).filter(
                    pred,
                ),
                pred == (|g: GuardView| g.token != token),
            decreases n - i,
        {
            proof {
                assert(old_view.writers.take(i + 1).drop_last() =~= old_view.writers.take(
                    i as int,
                ));
                assert(old_view.writers.take(i + 1).last() == old_view.writers[i as int]);
                reveal_with_fuel(Seq::filter, 2);
            }
            if self.writers[i].token != token {
                let g = SharedGuard {
                    token: self.writers[i].token,
                    lock_time: self.writers[i].lock_time,
                };
                kept.push(g);
                proof {
                    assert(kept@.map_values(|e: SharedGuard| e@) =~= old_view.writers.take(
                        i + 1,
                    ).filter(pred));
                }
            } else {
                proof {
                    assert(kept@.map_values(|e: SharedGuard| e@) =~= old_view.writers.take(
                        i + 1,
                    ).filter(pred));
                }
            }
            i = i + 1;
        }
        proof {
            assert(old_view.writers.take(n as int) =~= old_view.writers);
        }
        self.writers = kept;
        proof {
            assert(self@ == (ChunkStoreView { writers: self@.writers, ..old_view }));
            assert forall|i2: int|
                0 <= i2 < self@.writers.len() implies (#[trigger] self@.writers[i2]).token
                < self@.next_token by {
                lemma_guard_filter_elem_from(old_view.writers, pred, i2);
                let j = choose|j: int|
                    0 <= j < old_view.writers.len() && old_view.writers[j] == self@.writers[i2];
                assert(old_view.writers[j].token < old_view.next_token);
            }
        }
    }

    /// Take the exclusive lock, which refuses new shared locks while the
    /// collector reads the set of live writers.
    pub fn try_exclusive_lock(&mut self) -> (r: Result<(), StoreError>)
        requires
            old(self).wf(),
        ensures
            final(self).wf(),
            final(self).spec_name() == old(self).spec_name(),
            final(self).spec_path() == old(self).spec_path(),
            r is Err <==> old(self)@.exclusive,
            r matches Err(e) ==> e == StoreError::Conflict && final(self)@ == old(self)@,
            r is Ok ==> final(self)@ == (ChunkStoreView { exclusive: true, ..old(self)@ }),
    {
        let ghost old_view = self@;
        if self.exclusive {
            Err(StoreError::Conflict)
        } else {
            self.exclusive = true;
            proof {
                assert(self@ == (ChunkStoreView { exclusive: true, ..old_view }));
            }
            Ok(())
        }
    }

    /// Give the exclusive lock back.
    pub fn release_exclusive_lock(&mut self)
        requires
            old(self).wf(),
        ensures
            final(self).wf(),
            final(self).spec_name() == old(self).spec_name(),
            final(self).spec_path() == old(self).spec_path(),
            final(self)@ == (ChunkStoreView { exclusive: false, ..old(self)@ }),
    {
        let ghost old_view = self@;
        self.exclusive = false;
        proof {
            assert(self@ == (ChunkStoreView { exclusive: false, ..old_view }));
        }
    }

    /// The earliest lock time among live shared-lock holders, the floor
    /// of the collector's cutoff.
    pub fn oldest_writer(&self) -> (r: Option<i64>)
        ensures
            r is None <==> self@.writers.len() == 0,
            r matches Some(t) ==> {
                &&& exists|i: int|
                    0 <= i < self@.writers.len() && (#[trigger] self@.writers[i]).lock_time == t
                &&& forall|i: int|
                    0 <= i < self@.writers.len() ==> (#[trigger] self@.writers[i]).lock_time >= t
            },
    {
        let n = self.writers.len();
        if n == 0 {
            return None;
        }
        let mut best = self.writers[0].lock_time;
        assert(self@.writers[0].lock_time == best);
        let mut i: usize = 1;
        while i < n
            invariant
                n == self.writers.len(),
                1 <= i <= n,
                exists|j: int| 0 <= j < i && (#[trigger] self@.writers[j]).lock_time == best,
                forall|j: int| 0 <= j < i ==> (#[trigger] self@.writers[j]).lock_time >= best,
            decreases n - i,
        {
            if self.writers[i].lock_time < best {
                best = self.writers[i].lock_time;
                assert(self@.writers[i as int].lock_time == best);
            }
            i = i + 1;
        }
        Some(best)
    }

    /// Remove every chunk whose access time lies below the cutoff, count
    /// the kept ones as pending or on disk, and apply the keep policy to
    /// the `.bad` files.
    pub fn sweep_unused_chunks(
        &mut self,
        oldest_writer: i64,
        phase1_start: i64,
        status: &mut GarbageCollectionStatus,
    ) -> (r: Result<(), StoreError>)
        requires
            old(self).wf(),
            oldest_writer >= i64::MIN + GC_SAFE_MARGIN,
            phase1_start >= i64::MIN + GC_SAFE_MARGIN,
            old(status).removed_chunks + old(self)@.chunks.len() <= usize::MAX,
            old(status).pending_chunks + old(self)@.chunks.len() <= usize::MAX,
            old(status).disk_chunks + old(self)@.chunks.len() <= usize::MAX,
            old(status).removed_bytes + chunk_bytes(old(self)@.chunks) <= u64::MAX,
            old(status).pending_bytes + chunk_bytes(old(self)@.chunks) <= u64::MAX,
            old(status).disk_bytes + chunk_bytes(old(self)@.chunks) <= u64::MAX,
            old(status).removed_bad + old(self)@.bad.len() <= usize::MAX,
            old(status).still_bad + old(self)@.bad.len() <= usize::MAX,
        ensures
            final(self).wf(),
            final(self).spec_name() == old(self).spec_name(),
            final(self).spec_path() == old(self).spec_path(),
            r is Ok,
            ({
                let cutoff = sweep_cutoff(oldest_writer as int, phase1_start as int);
                let floor = cutoff + GC_SAFE_MARGIN;
                let kept = swept_chunks(old(self)@.chunks, cutoff);
                let kept_bad = swept_bad(old(self)@.bad, kept, cutoff);
                &&& final(self)@ == (ChunkStoreView { chunks: kept, bad: kept_bad, ..old(self)@ })
                &&& final(status).removed_chunks == old(status).removed_chunks + removed_chunks_of(
                    old(self)@.chunks,
                    cutoff,
                ).len()
                &&& final(status).removed_bytes == old(status).removed_bytes + chunk_bytes(
                    removed_chunks_of(old(self)@.chunks, cutoff),
                )
                &&& final(status).pending_chunks == old(status).pending_chunks + pending_chunks_of(
                    old(self)@.chunks,
                    cutoff,
                    floor,
                ).len()
                &&& final(status).pending_bytes == old(status).pending_bytes + chunk_bytes(
                    pending_chunks_of(old(self)@.chunks, cutoff, floor),
                )
                &&& final(status).disk_chunks == old(status).disk_chunks + disk_chunks_of(
                    old(self)@.chunks,
                    floor,
                ).len()
                &&& final(status).disk_bytes == old(status).disk_bytes + chunk_bytes(
                    disk_chunks_of(old(self)@.chunks, floor),
                )
                &&& final(status).removed_bad == old(status).removed_bad + old(self)@.bad.len()
                    - kept_bad.len()
                &&& final(status).still_bad == old(status).still_bad + kept_bad.len()
                &&& final(status).upid == old(status).upid
                &&& final(status).index_file_count == old(status).index_file_count
                &&& final(status).index_data_bytes == old(status).index_data_bytes
            }),
            store_consistent(old(self)@.chunks) ==> store_consistent(final(self)@.chunks),
    {
        let floor = if oldest_writer <= phase1_start {
            oldest_writer
        } else {
            phase1_start
        };
        let cutoff = floor - GC_SAFE_MARGIN;
        self.sweep_chunk_files(cutoff, floor, status);
        self.sweep_bad_files(cutoff, status);
        Ok(())
    }

    /// Sweep pass over the chunk files alone.
    fn sweep_chunk_files(&mut self, cutoff: i64, floor: i64, status: &mut GarbageCollectionStatus)
        requires
            old(self).wf(),
            cutoff <= floor,
            old(status).removed_chunks + old(self)@.chunks.len() <= usize::MAX,
            old(status).pending_chunks + old(self)@.chunks.len() <= usize::MAX,
            old(status).disk_chunks + old(self)@.chunks.len() <= usize::MAX,
            old(status).removed_bytes + chunk_bytes(old(self)@.chunks) <= u64::MAX,
            old(status).pending_bytes + chunk_bytes(old(self)@.chunks) <= u64::MAX,
            old(status).disk_bytes + chunk_bytes(old(self)@.chunks) <= u64::MAX,
        ensures
            final(self).wf(),
            final(self).spec_name() == old(self).spec_name(),
            final(self).spec_path() == old(self).spec_path(),
            final(self)@ == (ChunkStoreView {
                chunks: swept_chunks(old(self)@.chunks, cutoff as int),
                ..old(self)@
            }),
            final(status).removed_chunks == old(status).removed_chunks + removed_chunks_of(
                old(self)@.chunks,
                cutoff as int,
            ).len(),
            final(status).removed_bytes == old(status).removed_bytes + chunk_bytes(
                removed_chunks_of(old(self)@.chunks, cutoff as int),
            ),
            final(status).pending_chunks == old(status).pending_chunks + pending_chunks_of(
                old(self)@.chunks,
                cutoff as int,
                floor as int,
            ).len(),
            final(status).pending_bytes == old(status).pending_bytes + chunk_bytes(
                pending_chunks_of(old(self)@.chunks, cutoff as int, floor as int),
            ),
            final(status).disk_chunks == old(status).disk_chunks + disk_chunks_of(
                old(self)@.chunks,
                floor as int,
            ).len(),
            final(status).disk_bytes == old(status).disk_bytes + chunk_bytes(
                disk_chunks_of(old(self)@.chunks, floor as int),
            ),
            final(status).removed_bad == old(status).removed_bad,
            final(status).still_bad == old(status).still_bad,
            final(status).upid == old(status).upid,
            final(status).index_file_count == old(status).index_file_count,
            final(status).index_data_bytes == old(status).index_data_bytes,
            store_consistent(old(self)@.chunks) ==> store_consistent(final(self)@.chunks),
    {
        let ghost old_view = self@;
        let ghost orig = self@.chunks;
        let ghost keep_pred = |e: ChunkView| e.atime >= cutoff as int;
        let ghost rem_pred = |e: ChunkView| e.atime < cutoff as int;
        let ghost pend_pred = |e: ChunkView| cutoff as int <= e.atime < floor as int;
        let ghost disk_pred = |e: ChunkView| e.atime >= floor as int;
        let mut j: usize = 0;
        let mut i: usize = 0;
        proof {
            reveal_with_fuel(Seq::<ChunkView>::filter, 1);
            assert(orig.take(0) =~= Seq::<ChunkView>::empty());
            assert(orig.take(0).filter(keep_pred) =~= Seq::<ChunkView>::empty());
            assert(orig.take(0).filter(rem_pred) =~= Seq::<ChunkView>::empty());
            assert(orig.take(0).filter(pend_pred) =~= Seq::<ChunkView>::empty());
            assert(orig.take(0).filter(disk_pred) =~= Seq::<ChunkView>::empty());
            assert(orig.skip(0) =~= orig);
            assert(self@.chunks =~= orig.take(0).filter(keep_pred) + orig.skip(0));
        }
        while i < self.chunks.len()
            invariant
                old(self).wf(),
                self.wf(),
                cutoff <= floor,
                self@ == (ChunkStoreView { chunks: self@.chunks, ..old_view }),
                old_view == old(self)@,
                self.spec_name() == old(self).spec_name(),
                self.spec_path() == old(self).spec_path(),
                keep_pred == (|e: ChunkView| e.atime >= cutoff as int),
                rem_pred == (|e: ChunkView| e.atime < cutoff as int),
                pend_pred == (|e: ChunkView| cutoff as int <= e.atime < floor as int),
                disk_pred == (|e: ChunkView| e.atime >= floor as int),
                orig == old(self)@.chunks,
                old(status).removed_chunks + orig.len() <= usize::MAX,
                old(status).pending_chunks + orig.len() <= usize::MAX,
                old(status).disk_chunks + orig.len() <= usize::MAX,
                old(status).removed_bytes + chunk_bytes(orig) <= u64::MAX,
                old(status).pending_bytes + chunk_bytes(orig) <= u64::MAX,
                old(status).disk_bytes + chunk_bytes(orig) <= u64::MAX,
                0 <= i <= j <= orig.len(),
                self@.chunks =~= orig.take(j as int).filter(keep_pred) + orig.skip(j as int),
                i == orig.take(j as int).filter(keep_pred).len(),
                status.removed_chunks == old(status).removed_chunks + orig.take(j as int).filter(
                    rem_pred,
                ).len(),
                status.removed_bytes == old(status).removed_bytes + chunk_bytes(
                    orig.take(j as int).filter(rem_pred),
                ),
                status.pending_chunks == old(status).pending_chunks + orig.take(j as int).filter(
                    pend_pred,
                ).len(),
                status.pending_bytes == old(status).pending_bytes + chunk_bytes(
                    orig.take(j as int).filter(pend_pred),
                ),
                status.disk_chunks == old(status).disk_chunks + orig.take(j as int).filter(
                    disk_pred,
                ).len(),
                status.disk_bytes == old(status).disk_bytes + chunk_bytes(
                    orig.take(j as int).filter(disk_pred),
                ),
                status.removed_bad == old(status).removed_bad,
                status.still_bad == old(status).still_bad,
                status.upid == old(status).upid,
                status.index_file_count == old(status).index_file_count,
                status.index_data_bytes == old(status).index_data_bytes,
                store_consistent(orig) ==> store_consistent(self@.chunks),
            decreases orig.len() - j,
        {
            proof {
                assert(self@.chunks.len() == i + (orig.len() - j));
                assert(j < orig.len());
                assert(orig.skip(j as int).len() > 0);
                assert(self@.chunks[i as int] == orig.skip(j as int)[0]);
                assert(orig.skip(j as int)[0] == orig[j as int]);
                lemma_filter_take_step_chunk(orig, keep_pred, j as int);
                lemma_filter_take_step_chunk(orig, rem_pred, j as int);
                lemma_filter_take_step_chunk(orig, pend_pred, j as int);
                lemma_filter_take_step_chunk(orig, disk_pred, j as int);
                lemma_filter_take_bounds(orig, keep_pred, j + 1);
                lemma_filter_take_bounds(orig, rem_pred, j + 1);
                lemma_filter_take_bounds(orig, pend_pred, j + 1);
                lemma_filter_take_bounds(orig, disk_pred, j + 1);
            }
            let a = self.chunks[i].atime;
            if a < cutoff {
                let ghost pre = self@.chunks;
                let removed = self.chunks.remove(i);
                proof {
                    assert(removed@ == orig[j as int]);
                    assert(self@.chunks =~= pre.remove(i as int));
                    assert(self@ == (ChunkStoreView { chunks: self@.chunks, ..old_view }));
                    assert(self@.chunks =~= orig.take(j + 1).filter(keep_pred) + orig.skip(
                        j + 1,
                    ));
                    lemma_remove_keeps_unique_seq(pre, i as int);
                    assert(store_wf(self@));
                    assert(store_consistent(orig) ==> store_consistent(self@.chunks)) by {
                        if store_consistent(orig) && store_consistent(pre) {
                            assert forall|k: int| 0 <= k < self@.chunks.len() implies {
                                &&& blob_decodes_to((#[trigger] self@.chunks[k]).data) is Some
                                &&& sha256_of(blob_decodes_to(self@.chunks[k].data)->Some_0)
                                    == self@.chunks[k].digest
                            } by {
                                let ok = if k < i as int {
                                    k
                                } else {
                                    k + 1
                                };
                                assert(self@.chunks[k] == pre[ok]);
                            }
                        }
                    }
                }
                status.removed_chunks = status.removed_chunks + 1;
                status.removed_bytes = status.removed_bytes + removed.data.len() as u64;
            } else {
                if a >= floor {
                    status.disk_chunks = status.disk_chunks + 1;
                    status.disk_bytes = status.disk_bytes + self.chunks[i].data.len() as u64;
                } else {
                    status.pending_chunks = status.pending_chunks + 1;
                    status.pending_bytes = status.pending_bytes + self.chunks[i].data.len()
                        as u64;
                }
                i = i + 1;
                proof {
                    assert(self@.chunks =~= orig.take(j + 1).filter(keep_pred) + orig.skip(
                        j + 1,
                    ));
                }
            }
            j = j + 1;
        }
        proof {
            assert(self@.chunks.len() == i + (orig.len() - j));
            assert(j == orig.len());
            assert(orig.take(orig.len() as int) =~= orig);
            assert(orig.skip(orig.len() as int) =~= Seq::<ChunkView>::empty());
            assert(self@.chunks =~= orig.filter(keep_pred));
            assert(self@.chunks =~= swept_chunks(orig, cutoff as int));
            assert(orig.filter(rem_pred) == removed_chunks_of(orig, cutoff as int));
            assert(orig.filter(pend_pred) == pending_chunks_of(orig, cutoff as int, floor as int));
            assert(orig.filter(disk_pred) == disk_chunks_of(orig, floor as int));
        }
    }

    /// Sweep pass over the `.bad` files alone: one is removed when its
    /// digest has a good chunk again or when its own time fell below the
    /// cutoff.
    fn sweep_bad_files(&mut self, cutoff: i64, status: &mut GarbageCollectionStatus)
        requires
            old(self).wf(),
            old(status).removed_bad + old(self)@.bad.len() <= usize::MAX,
            old(status).still_bad + old(self)@.bad.len() <= usize::MAX,
        ensures
            final(self).wf(),
            final(self).spec_name() == old(self).spec_name(),
            final(self).spec_path() == old(self).spec_path(),
            final(self)@ == (ChunkStoreView {
                bad: swept_bad(old(self)@.bad, old(self)@.chunks, cutoff as int),
                ..old(self)@
            }),
            final(status).removed_bad == old(status).removed_bad + old(self)@.bad.len()
                - swept_bad(old(self)@.bad, old(self)@.chunks, cutoff as int).len(),
            final(status).still_bad == old(status).still_bad + swept_bad(
                old(self)@.bad,
                old(self)@.chunks,
                cutoff as int,
            ).len(),
            final(status).removed_chunks == old(status).removed_chunks,
            final(status).removed_bytes == old(status).removed_bytes,
            final(status).pending_chunks == old(status).pending_chunks,
            final(status).pending_bytes == old(status).pending_bytes,
            final(status).disk_chunks == old(status).disk_chunks,
            final(status).disk_bytes == old(status).disk_bytes,
            final(status).upid == old(status).upid,
            final(status).index_file_count == old(status).index_file_count,
            final(status).index_data_bytes == old(status).index_data_bytes,
    {
        let ghost old_view = self@;
        let ghost orig_bad = self@.bad;
        let ghost kept = self@.chunks;
        let ghost bad_pred = |e: BadView| e.atime >= cutoff as int && !has_chunk(kept, e.digest);
        let mut j: usize = 0;
        let mut i: usize = 0;
        proof {
            reveal_with_fuel(Seq::<BadView>::filter, 1);
            assert(orig_bad.take(0) =~= Seq::<BadView>::empty());
            assert(orig_bad.take(0).filter(bad_pred) =~= Seq::<BadView>::empty());
            assert(orig_bad.skip(0) =~= orig_bad);
            assert(self@.bad =~= orig_bad.take(0).filter(bad_pred) + orig_bad.skip(0));
        }
        while i < self.bad.len()
            invariant
                old(self).wf(),
                self.wf(),
                self@ == (ChunkStoreView { bad: self@.bad, ..old_view }),
                old_view == old(self)@,
                self.spec_name() == old(self).spec_name(),
                self.spec_path() == old(self).spec_path(),
                bad_pred == (|e: BadView| e.atime >= cutoff as int && !has_chunk(kept, e.digest)),
                orig_bad == old(self)@.bad,
                kept == old(self)@.chunks,
                old(status).removed_bad + orig_bad.len() <= usize::MAX,
                old(status).still_bad + orig_bad.len() <= usize::MAX,
                0 <= i <= j <= orig_bad.len(),
                self@.bad =~= orig_bad.take(j as int).filter(bad_pred) + orig_bad.skip(j as int),
                i == orig_bad.take(j as int).filter(bad_pred).len(),
                status.removed_bad == old(status).removed_bad + j - i,
                status.still_bad == old(status).still_bad + i,
                status.removed_chunks == old(status).removed_chunks,
                status.removed_bytes == old(status).removed_bytes,
                status.pending_chunks == old(status).pending_chunks,
                status.pending_bytes == old(status).pending_bytes,
                status.disk_chunks == old(status).disk_chunks,
                status.disk_bytes == old(status).disk_bytes,
                status.upid == old(status).upid,
                status.index_file_count == old(status).index_file_count,
                status.index_data_bytes == old(status).index_data_bytes,
            decreases orig_bad.len() - j,
        {
            proof {
                assert(self@.bad.len() == i + (orig_bad.len() - j));
                assert(j < orig_bad.len());
                assert(orig_bad.skip(j as int).len() > 0);
                assert(self@.bad[i as int] == orig_bad.skip(j as int)[0]);
                assert(orig_bad.skip(j as int)[0] == orig_bad[j as int]);
                lemma_filter_take_step_bad(orig_bad, bad_pred, j as int);
                orig_bad.take(j + 1).lemma_filter_len(bad_pred);
            }
            let a = self.bad[i].atime;
            let digest = self.bad[i].digest;
            let present = match self.find_chunk(&digest) {
                Some(fi) => {
                    proof {
                        assert(self@.chunks[fi as int].digest == digest@);
                        assert(has_chunk(kept, digest@));
                    }
                    true
                }
                None => false,
            };
            let keep = a >= cutoff && !present;
            proof {
                assert(orig_bad[j as int].digest == digest@);
                assert(keep == bad_pred(orig_bad[j as int]));
            }
            if keep {
                i = i + 1;
                status.still_bad = status.still_bad + 1;
                proof {
                    assert(self@.bad =~= orig_bad.take(j + 1).filter(bad_pred) + orig_bad.skip(
                        j + 1,
                    ));
                }
            } else {
                let ghost pre_bad = self@.bad;
                let _removed = self.bad.remove(i);
                status.removed_bad = status.removed_bad + 1;
                proof {
                    assert(self@.bad =~= pre_bad.remove(i as int));
                    assert(self@ == (ChunkStoreView { bad: self@.bad, ..old_view }));
                    assert(self@.bad =~= orig_bad.take(j + 1).filter(bad_pred) + orig_bad.skip(
                        j + 1,
                    ));
                }
            }
            j = j + 1;
        }
        proof {
            assert(self@.bad.len() == i + (orig_bad.len() - j));
            assert(j == orig_bad.len());
            assert(orig_bad.take(orig_bad.len() as int) =~= orig_bad);
            assert(orig_bad.skip(orig_bad.len() as int) =~= Seq::<BadView>::empty());
            assert(self@.bad =~= orig_bad.filter(bad_pred));
            assert(self@.bad =~= swept_bad(old_view.bad, kept, cutoff as int));
        }
    }
}

/// Every element of a filtered sequence comes from the original.
proof fn lemma_guard_filter_elem_from(s: Seq<GuardView>, pred: spec_fn(GuardView) -> bool, i: int)
    requires
        0 <= i < s.filter(pred).len(),
    ensures
        exists|j: int| 0 <= j < s.len() && s[j] == s.filter(pred)[i],
    decreases s.len(),
{
    reveal(Seq::filter);
    if s.len() > 0 {
        let f = s.filter(pred);
        let fd = s.drop_last().filter(pred);
        if pred(s.last()) && i == f.len() - 1 {
            assert(s[s.len() - 1] == f[i]);
        } else {
            assert(f[i] == fd[i]);
            lemma_guard_filter_elem_from(s.drop_last(), pred, i);
            let j = choose|j: int| 0 <= j < s.drop_last().len() && s.drop_last()[j] == fd[i];
            assert(s[j] == f[i]);
        }
    }
}

/// With unique digests, a matching position is the chosen one.
pub proof fn lemma_chunk_idx_unique(s: Seq<ChunkView>, d: Seq<u8>, i: int)
    requires
        unique_digests(s),
        0 <= i < s.len(),
        s[i].digest == d,
    ensures
        has_chunk(s, d),
        chunk_idx(s, d) == i,
{
    assert(has_chunk(s, d));
    let j = chunk_idx(s, d);
    if j != i {
        if j < i {
            assert(s[j].digest != s[i].digest);
        } else {
            assert(s[i].digest != s[j].digest);
        }
    }
}

/// Removing an entry keeps digests unique.
proof fn lemma_remove_keeps_unique_seq(s: Seq<ChunkView>, i: int)
    requires
        unique_digests(s),
        bounded_entries(s),
        0 <= i < s.len(),
    ensures
        unique_digests(s.remove(i)),
        bounded_entries(s.remove(i)),
{
    let t = s.remove(i);
    assert forall|a: int, b: int| 0 <= a < b < t.len() implies t[a].digest != t[b].digest by {
        let oa = if a < i {
            a
        } else {
            a + 1
        };
        let ob = if b < i {
            b
        } else {
            b + 1
        };
        assert(t[a] == s[oa]);
        assert(t[b] == s[ob]);
    }
    assert forall|a: int| 0 <= a < t.len() implies (#[trigger] t[a]).data.len() <= u64::MAX by {
        let oa = if a < i {
            a
        } else {
            a + 1
        };
        assert(t[a] == s[oa]);
    }
}

/// Removing an entry keeps digests unique.
proof fn lemma_remove_keeps_unique(s: Seq<ChunkView>, i: int)
    requires
        unique_digests(s),
        0 <= i < s.len(),
    ensures
        unique_digests(s.remove(i)),
{
    let t = s.remove(i);
    assert forall|a: int, b: int| 0 <= a < b < t.len() implies t[a].digest != t[b].digest by {
        let oa = if a < i {
            a
        } else {
            a + 1
        };
        let ob = if b < i {
            b
        } else {
            b + 1
        };
        assert(t[a] == s[oa]);
        assert(t[b] == s[ob]);
    }
}

/// Total bytes grow by the pushed entry.
proof fn lemma_chunk_bytes_push(s: Seq<ChunkView>, e: ChunkView)
    ensures
        chunk_bytes(s.push(e)) == chunk_bytes(s) + e.data.len(),
{
    assert(s.push(e).drop_last() =~= s);
    assert(s.push(e).last() == e);
}

/// Total bytes are never negative.
proof fn lemma_chunk_bytes_nonneg(s: Seq<ChunkView>)
    ensures
        chunk_bytes(s) >= 0,
    decreases s.len(),
{
    if s.len() > 0 {
        lemma_chunk_bytes_nonneg(s.drop_last());
    }
}

/// A prefix never holds more bytes than the whole.
proof fn lemma_chunk_bytes_take_bound(s: Seq<ChunkView>, j: int)
    requires
        0 <= j <= s.len(),
    ensures
        chunk_bytes(s.take(j)) <= chunk_bytes(s),
    decreases s.len() - j,
{
    if j == s.len() {
        assert(s.take(j) =~= s);
    } else {
        assert(s.take(j + 1).drop_last() =~= s.take(j));
        assert(s.take(j + 1).last() == s[j]);
        lemma_chunk_bytes_take_bound(s, j + 1);
    }
}

/// One step of filtering a prefix: the element at the boundary is kept
/// or dropped by the predicate.
proof fn lemma_filter_take_step_chunk(s: Seq<ChunkView>, pred: spec_fn(ChunkView) -> bool, j: int)
    requires
        0 <= j < s.len(),
    ensures
        pred(s[j]) ==> s.take(j + 1).filter(pred) == s.take(j).filter(pred).push(s[j])
            && chunk_bytes(s.take(j + 1).filter(pred)) == chunk_bytes(s.take(j).filter(pred))
            + s[j].data.len(),
        !pred(s[j]) ==> s.take(j + 1).filter(pred) == s.take(j).filter(pred),
{
    reveal_with_fuel(Seq::<ChunkView>::filter, 2);
    assert(s.take(j + 1).drop_last() =~= s.take(j));
    assert(s.take(j + 1).last() == s[j]);
    if pred(s[j]) {
        assert(s.take(j + 1).filter(pred) == s.take(j).filter(pred).push(s[j]));
        lemma_chunk_bytes_push(s.take(j).filter(pred), s[j]);
    }
}

/// One step of filtering a prefix of the bad files.
proof fn lemma_filter_take_step_bad(s: Seq<BadView>, pred: spec_fn(BadView) -> bool, j: int)
    requires
        0 <= j < s.len(),
    ensures
        pred(s[j]) ==> s.take(j + 1).filter(pred) == s.take(j).filter(pred).push(s[j]),
        !pred(s[j]) ==> s.take(j + 1).filter(pred) == s.take(j).filter(pred),
{
    reveal_with_fuel(Seq::<BadView>::filter, 2);
    assert(s.take(j + 1).drop_last() =~= s.take(j));
    assert(s.take(j + 1).last() == s[j]);
}

/// A filtered prefix has no more entries, and no more bytes, than the
/// whole sequence.
proof fn lemma_filter_take_bounds(s: Seq<ChunkView>, pred: spec_fn(ChunkView) -> bool, j: int)
    requires
        0 <= j <= s.len(),
    ensures
        s.take(j).filter(pred).len() <= j,
        0 <= chunk_bytes(s.take(j).filter(pred)),
        chunk_bytes(s.take(j).filter(pred)) <= chunk_bytes(s.take(j)),
        chunk_bytes(s.take(j).filter(pred)) <= chunk_bytes(s),
    decreases j,
{
    if j == 0 {
        reveal_with_fuel(Seq::<ChunkView>::filter, 1);
        assert(s.take(0) =~= Seq::<ChunkView>::empty());
        assert(s.take(0).filter(pred) =~= Seq::<ChunkView>::empty());
    } else {
        lemma_filter_take_bounds(s, pred, j - 1);
        lemma_filter_take_step_chunk(s, pred, j - 1);
        assert(s.take(j).drop_last() =~= s.take(j - 1));
        assert(s.take(j).last() == s[j - 1]);
        s.take(j).lemma_filter_len(pred);
    }
    lemma_chunk_bytes_take_bound(s, j);
}

/// Inserting the same chunk twice changes nothing the second time but
/// the access time: the repeat reports the chunk existed, and the bytes
/// stored under the digest stay those of the first insert.
pub proof fn lemma_insert_chunk_idempotent(
    s: Seq<ChunkView>,
    d: Seq<u8>,
    data: Seq<u8>,
    t1: int,
    t2: int,
)
    requires
        unique_digests(s),
        !has_chunk(s, d),
    ensures
        ({
            let (existed1, s1) = spec_insert_chunk(s, d, data, t1);
            let (existed2, s2) = spec_insert_chunk(s1, d, data, t2);
            &&& !existed1
            &&& existed2
            &&& chunk_data(s1, d) == data
            &&& chunk_data(s2, d) == data
            &&& s2.len() == s1.len()
            &&& forall|i: int|
                0 <= i < s1.len() ==> (#[trigger] s2[i]).digest == s1[i].digest && s2[i].data
                    == s1[i].data
        }),
{
    let (existed1, s1) = spec_insert_chunk(s, d, data, t1);
    let i1 = s.len() as int;
    assert(s1[i1].digest == d);
    assert(unique_digests(s1));
    lemma_chunk_idx_unique(s1, d, i1);
    let (existed2, s2) = spec_insert_chunk(s1, d, data, t2);
    assert(chunk_data(s2, d) == data) by {
        assert(s2[i1].digest == d);
        assert(unique_digests(s2)) by {
            assert forall|a: int, b: int|
                0 <= a < b < s2.len() implies s2[a].digest != s2[b].digest by {
                assert(s2[a].digest == s1[a].digest);
                assert(s2[b].digest == s1[b].digest);
            }
        }
        lemma_chunk_idx_unique(s2, d, i1);
    }
}

} // verus!
