//! The index format for variable-sized chunks.
//!
//! A dynamic index is an ordered list of entries `(end_offset, digest)`
//! with strictly increasing end offsets; chunk `i` covers the bytes from
//! the previous entry's end to its own. On disk it is a 4096-byte header
//! — magic, identifier, creation time, checksum — followed by packed
//! 40-byte entries. `dynamic_index_bytes` is the exact layout; the writer
//! enforces monotonic offsets and the reader answers offset lookups by
//! binary search.

use vstd::prelude::*;
use vstd::bytes::{spec_u64_from_le_bytes, spec_u64_to_le_bytes, u64_from_le_bytes, u64_to_le_bytes};

use crate::crypto::blake2b_of;
use crate::digest::digest_eq;
use crate::error::StoreError;
use crate::fixed_index::index_csum;

verus! {

/// Bytes every dynamic index file begins with.
pub open spec fn dynamic_magic() -> Seq<u8> {
    seq![28u8, 145u8, 78u8, 165u8, 25u8, 186u8, 179u8, 205u8]
}

/// One chunk reference: where the chunk ends in the composed file, and
/// its digest.
pub struct DynamicEntry {
    pub end_offset: u64,
    pub digest: [u8; 32],
}

/// Ghost image of one chunk reference.
pub struct DynEntryView {
    pub end: int,
    pub digest: Seq<u8>,
}

impl View for DynamicEntry {
    type V = DynEntryView;

    open spec fn view(&self) -> DynEntryView {
        DynEntryView { end: self.end_offset as int, digest: self.digest@ }
    }
}

/// End offsets strictly increase, starting above zero, and every digest
/// is 32 bytes.
pub open spec fn entries_wf(es: Seq<DynEntryView>) -> bool {
    &&& forall|i: int| 0 <= i < es.len() ==> 0 < (#[trigger] es[i]).end <= u64::MAX
    &&& forall|i: int, j: int| 0 <= i < j < es.len() ==> es[i].end < es[j].end
    &&& forall|i: int| 0 <= i < es.len() ==> (#[trigger] es[i]).digest.len() == 32
}

/// Size of the composed file: the last end offset.
pub open spec fn entries_size(es: Seq<DynEntryView>) -> int {
    if es.len() == 0 {
        0
    } else {
        es[es.len() - 1].end
    }
}

/// Where chunk `i` begins: at the end of its predecessor.
pub open spec fn chunk_start(es: Seq<DynEntryView>, i: int) -> int {
    if i == 0 {
        0
    } else {
        es[i - 1].end
    }
}

/// The packed entry list: eight little-endian offset bytes, then the
/// digest, for each entry.
pub open spec fn entry_list_bytes(es: Seq<DynEntryView>) -> Seq<u8>
    decreases es.len(),
{
    if es.len() == 0 {
        Seq::empty()
    } else {
        entry_list_bytes(es.drop_last()) + spec_u64_to_le_bytes(es.last().end as u64)
            + es.last().digest
    }
}

/// Packed entries of well-formed shape take 40 bytes each.
pub proof fn lemma_entry_list_bytes_len(es: Seq<DynEntryView>)
    requires
        forall|i: int| 0 <= i < es.len() ==> (#[trigger] es[i]).digest.len() == 32,
    ensures
        entry_list_bytes(es).len() == 40 * es.len(),
    decreases es.len(),
{
    vstd::bytes::lemma_auto_spec_u64_to_from_le_bytes();
    if es.len() > 0 {
        lemma_entry_list_bytes_len(es.drop_last());
    }
}

/// The bytes of one packed entry inside the list.
pub proof fn lemma_entry_list_bytes_index(es: Seq<DynEntryView>, i: int)
    requires
        forall|k: int| 0 <= k < es.len() ==> (#[trigger] es[k]).digest.len() == 32,
        0 <= i < es.len(),
    ensures
        entry_list_bytes(es).subrange(40 * i, 40 * i + 8) == spec_u64_to_le_bytes(
            es[i].end as u64,
        ),
        entry_list_bytes(es).subrange(40 * i + 8, 40 * i + 40) == es[i].digest,
    decreases es.len(),
{
    vstd::bytes::lemma_auto_spec_u64_to_from_le_bytes();
    lemma_entry_list_bytes_len(es);
    if i == es.len() - 1 {
        lemma_entry_list_bytes_len(es.drop_last());
        assert(entry_list_bytes(es).subrange(40 * i, 40 * i + 8) =~= spec_u64_to_le_bytes(
            es[i].end as u64,
        ));
        assert(entry_list_bytes(es).subrange(40 * i + 8, 40 * i + 40) =~= es[i].digest);
    } else {
        lemma_entry_list_bytes_index(es.drop_last(), i);
        lemma_entry_list_bytes_len(es.drop_last());
        assert(entry_list_bytes(es).subrange(40 * i, 40 * i + 8) =~= entry_list_bytes(
            es.drop_last(),
        ).subrange(40 * i, 40 * i + 8));
        assert(entry_list_bytes(es).subrange(40 * i + 8, 40 * i + 40) =~= entry_list_bytes(
            es.drop_last(),
        ).subrange(40 * i + 8, 40 * i + 40));
        assert(es.drop_last()[i] == es[i]);
    }
}

/// Ghost image of a dynamic index.
pub struct DynamicIndexView {
    pub uuid: Seq<u8>,
    pub ctime: int,
    pub csum: Seq<u8>,
    pub entries: Seq<DynEntryView>,
}

impl DynamicIndexView {
    /// Field sizes match and the entries are well formed.
    pub open spec fn wf(self) -> bool {
        &&& self.uuid.len() == 16
        &&& self.csum.len() == 32
        &&& 0 <= self.ctime <= i64::MAX
        &&& entries_wf(self.entries)
    }
}

/// The exact file bytes of a dynamic index: header, padding, entry list.
pub open spec fn dynamic_index_bytes(v: DynamicIndexView) -> Seq<u8> {
    dynamic_magic() + v.uuid + spec_u64_to_le_bytes(v.ctime as u64) + v.csum + Seq::new(
        4032,
        |i: int| 0u8,
    ) + entry_list_bytes(v.entries)
}

/// A read-only dynamic index.
pub struct DynamicIndexReader {
    uuid: [u8; 16],
    ctime: i64,
    csum: [u8; 32],
    entries: Vec<DynamicEntry>,
}

impl View for DynamicIndexReader {
    type V = DynamicIndexView;

    closed spec fn view(&self) -> DynamicIndexView {
        DynamicIndexView {
            uuid: self.uuid@,
            ctime: self.ctime as int,
            csum: self.csum@,
            entries: self.entries@.map_values(|e: DynamicEntry| e@),
        }
    }
}

impl DynamicIndexReader {
    /// The index is well formed.
    pub open spec fn wf(&self) -> bool {
        self@.wf()
    }

    /// Number of chunks in the index.
    pub fn index_count(&self) -> (r: usize)
        ensures
            r == self@.entries.len(),
    {
        self.entries.len()
    }

    /// Logical size of the composed file.
    pub fn index_bytes(&self) -> (r: u64)
        requires
            self.wf(),
        ensures
            r == entries_size(self@.entries),
    {
        if self.entries.len() == 0 {
            0
        } else {
            self.entries[self.entries.len() - 1].end_offset
        }
    }

    /// Creation time of the index.
    pub fn ctime(&self) -> (r: i64)
        ensures
            r == self@.ctime,
    {
        self.ctime
    }

    /// The index identifier.
    pub fn uuid(&self) -> (r: &[u8; 16])
        ensures
            r@ == self@.uuid,
    {
        &self.uuid
    }

    /// The checksum stored over the entry list.
    pub fn index_csum(&self) -> (r: &[u8; 32])
        ensures
            r@ == self@.csum,
    {
        &self.csum
    }


    /// The digests of all chunks, in index order.
    pub fn clone_digests(&self) -> (r: Vec<[u8; 32]>)
        ensures
            r@.map_values(|d: [u8; 32]| d@) == self@.entries.map_values(
                |e: DynEntryView| e.digest,
            ),
    {
        let mut r: Vec<[u8; 32]> = Vec::new();
        let n = self.entries.len();
        let mut i: usize = 0;
        while i < n
            invariant
                n == self@.entries.len(),
                i <= n,
                r@.len() == i,
                forall|j: int| 0 <= j < i ==> (#[trigger] r@[j])@ == self@.entries[j].digest,
            decreases n - i,
        {
            r.push(self.entries[i].digest);
            i = i + 1;
        }
        proof {
            assert(r@.map_values(|d: [u8; 32]| d@) =~= self@.entries.map_values(
                |e: DynEntryView| e.digest,
            ));
        }
        r
    }

    /// The digest of one chunk.
    pub fn index_digest(&self, pos: usize) -> (r: Option<&[u8; 32]>)
        ensures
            r matches Some(d) ==> pos < self@.entries.len() && d@ == self@.entries[pos as int].digest,
            r is None <==> pos >= self@.entries.len(),
    {
        if pos < self.entries.len() {
            Some(&self.entries[pos].digest)
        } else {
            None
        }
    }

    /// The byte range a chunk covers and its digest: it runs from the end
    /// of its predecessor to its own end offset.
    pub fn chunk_info(&self, pos: usize) -> (r: Option<(u64, u64, [u8; 32])>)
        requires
            self.wf(),
        ensures
            r matches Some(info) ==> {
                &&& pos < self@.entries.len()
                &&& info.0 == chunk_start(self@.entries, pos as int)
                &&& info.1 == self@.entries[pos as int].end
                &&& info.2@ == self@.entries[pos as int].digest
                &&& info.0 < info.1
            },
            r is None <==> pos >= self@.entries.len(),
    {
        if pos >= self.entries.len() {
            return None;
        }
        let start = if pos == 0 {
            0
        } else {
            self.entries[pos - 1].end_offset
        };
        proof {
            if pos > 0 {
                assert(self@.entries[pos as int - 1].end < self@.entries[pos as int].end);
            } else {
                assert(0 < self@.entries[0].end);
            }
        }
        Some((start, self.entries[pos].end_offset, self.entries[pos].digest))
    }

    /// The chunk that covers a byte offset, found by binary search over
    /// the monotonic end offsets: an answer exists exactly for offsets
    /// below the composed size.
    pub fn lookup(&self, offset: u64) -> (r: Option<usize>)
        requires
            self.wf(),
        ensures
            r is Some <==> offset < entries_size(self@.entries),
            r matches Some(i) ==> {
                &&& i < self@.entries.len()
                &&& chunk_start(self@.entries, i as int) <= offset
                &&& offset < self@.entries[i as int].end
            },
    {
        let n = self.entries.len();
        let mut lo: usize = 0;
        let mut hi: usize = n;
        while lo < hi
            invariant
                self.wf(),
                n == self@.entries.len(),
                0 <= lo <= hi <= n,
                forall|j: int| 0 <= j < lo ==> (#[trigger] self@.entries[j]).end <= offset,
                forall|j: int| hi <= j < n ==> (#[trigger] self@.entries[j]).end > offset,
            decreases hi - lo,
        {
            let mid = lo + (hi - lo) / 2;
            if self.entries[mid].end_offset <= offset {
                proof {
                    assert forall|j: int|
                        0 <= j < mid + 1 implies (#[trigger] self@.entries[j]).end <= offset by {
                        if j < mid {
                            assert(self@.entries[j].end < self@.entries[mid as int].end);
                        }
                    }
                }
                lo = mid + 1;
            } else {
                proof {
                    assert forall|j: int|
                        mid <= j < n implies (#[trigger] self@.entries[j]).end > offset by {
                        if j > mid {
                            assert(self@.entries[mid as int].end < self@.entries[j].end);
                        }
                    }
                }
                hi = mid;
            }
        }
        if lo >= n {
            proof {
                if n > 0 {
                    assert(self@.entries[n - 1].end <= offset);
                }
            }
            None
        } else {
            proof {
                assert(self@.entries[lo as int].end > offset);
                if lo > 0 {
                    assert(self@.entries[lo as int - 1].end <= offset);
                }
                assert(offset < entries_size(self@.entries)) by {
                    if lo as int == n - 1 {
                    } else {
                        assert(self@.entries[lo as int].end <= self@.entries[n - 1].end);
                    }
                }
            }
            Some(lo)
        }
    }
}

/// A dynamic index under construction: entries are appended with
/// strictly growing end offsets.
pub struct DynamicIndexWriter {
    uuid: [u8; 16],
    ctime: i64,
    entries: Vec<DynamicEntry>,
}

/// Ghost image of a dynamic index writer.
pub struct DynamicWriterView {
    pub uuid: Seq<u8>,
    pub ctime: int,
    pub entries: Seq<DynEntryView>,
}

impl View for DynamicIndexWriter {
    type V = DynamicWriterView;

    closed spec fn view(&self) -> DynamicWriterView {
        DynamicWriterView {
            uuid: self.uuid@,
            ctime: self.ctime as int,
            entries: self.entries@.map_values(|e: DynamicEntry| e@),
        }
    }
}

impl DynamicIndexWriter {
    /// The writer's entries are well formed.
    pub open spec fn wf(&self) -> bool {
        &&& self@.uuid.len() == 16
        &&& 0 <= self@.ctime <= i64::MAX
        &&& entries_wf(self@.entries)
    }

    /// Begin an empty dynamic index.
    pub fn create(uuid: [u8; 16], ctime: i64) -> (r: Result<DynamicIndexWriter, StoreError>)
        ensures
            r matches Ok(w) ==> {
                &&& w.wf()
                &&& w@.uuid == uuid@
                &&& w@.ctime == ctime
                &&& w@.entries == Seq::<DynEntryView>::empty()
            },
            r is Err <==> ctime < 0,
            r matches Err(e) ==> e == StoreError::Protocol,
    {
        if ctime < 0 {
            return Err(StoreError::Protocol);
        }
        let w = DynamicIndexWriter { uuid, ctime, entries: Vec::new() };
        proof {
            assert(w@.entries =~= Seq::<DynEntryView>::empty());
        }
        Ok(w)
    }

    /// Number of entries so far.
    pub fn index_count(&self) -> (r: usize)
        ensures
            r == self@.entries.len(),
    {
        self.entries.len()
    }

    /// Bytes covered so far: the last end offset.
    pub fn current_size(&self) -> (r: u64)
        requires
            self.wf(),
        ensures
            r == entries_size(self@.entries),
    {
        if self.entries.len() == 0 {
            0
        } else {
            self.entries[self.entries.len() - 1].end_offset
        }
    }

    /// Append a chunk reference: its end offset must lie strictly past
    /// everything written so far.
    pub fn add_chunk(&mut self, end_offset: u64, digest: &[u8; 32]) -> (r: Result<(), StoreError>)
        requires
            old(self).wf(),
        ensures
            final(self).wf(),
            r is Err <==> end_offset <= entries_size(old(self)@.entries),
            r matches Err(e) ==> e == StoreError::Protocol && final(self)@ == old(self)@,
            r is Ok ==> final(self)@ == (DynamicWriterView {
                entries: old(self)@.entries.push(
                    DynEntryView { end: end_offset as int, digest: digest@ },
                ),
                ..old(self)@
            }),
    {
        let ghost old_view = self@;
        let current = self.current_size();
        if end_offset <= current {
            return Err(StoreError::Protocol);
        }
        self.entries.push(DynamicEntry { end_offset, digest: *digest });
        proof {
            assert(self@.entries =~= old_view.entries.push(
                DynEntryView { end: end_offset as int, digest: digest@ },
            ));
            assert(self@ == (DynamicWriterView { entries: self@.entries, ..old_view }));
            assert(entries_wf(self@.entries)) by {
                assert forall|i: int, j: int|
                    0 <= i < j < self@.entries.len() implies self@.entries[i].end
                    < self@.entries[j].end by {
                    if j < self@.entries.len() - 1 {
                        assert(self@.entries[i] == old_view.entries[i]);
                        assert(self@.entries[j] == old_view.entries[j]);
                    } else {
                        assert(self@.entries[i] == old_view.entries[i]);
                        if i < old_view.entries.len() - 1 {
                            assert(old_view.entries[i].end < old_view.entries[old_view.entries.len()
                                - 1].end);
                        }
                    }
                }
            }
        }
        Ok(())
    }

    /// The packed entry list as it will lie in the file.
    fn body_bytes(&self) -> (r: Vec<u8>)
        requires
            self.wf(),
            40 * self@.entries.len() <= usize::MAX,
        ensures
            r@ == entry_list_bytes(self@.entries),
    {
        pack_entries(&self.entries)
    }

    /// Seal the index: demand the expected chunk count, total size and
    /// entry-list checksum to match what was accumulated; the result is
    /// the read-only index.
    ///
    /// A mismatch fails with an integrity error and commits nothing; when
    /// everything matches, the writer seals unless the checksum routine
    /// itself is unavailable.
    pub fn close(
        &self,
        expected_chunk_count: u64,
        expected_size: u64,
        expected_csum: &[u8; 32],
    ) -> (r: Result<DynamicIndexReader, StoreError>)
        requires
            self.wf(),
            40 * self@.entries.len() <= usize::MAX,
        ensures
            r matches Ok(idx) ==> {
                &&& idx.wf()
                &&& idx@ == (DynamicIndexView {
                    uuid: self@.uuid,
                    ctime: self@.ctime,
                    csum: expected_csum@,
                    entries: self@.entries,
                })
            },
            ({
                let sealable = expected_chunk_count == self@.entries.len() && expected_size
                    == entries_size(self@.entries) && expected_csum@ == blake2b_of(
                    entry_list_bytes(self@.entries),
                ).take(32);
                &&& (r is Ok ==> sealable)
                &&& (sealable ==> r is Ok || r == Err::<DynamicIndexReader, StoreError>(
                    StoreError::Unavailable,
                ))
                &&& (!(expected_chunk_count == self@.entries.len() && expected_size
                    == entries_size(self@.entries)) ==> r == Err::<DynamicIndexReader, StoreError>(
                    StoreError::Integrity,
                ))
                &&& (r == Err::<DynamicIndexReader, StoreError>(StoreError::Unavailable)
                    ==> expected_chunk_count == self@.entries.len() && expected_size
                    == entries_size(self@.entries))
                &&& (r matches Err(e) ==> e == StoreError::Integrity || e
                    == StoreError::Unavailable)
            }),
    {
        let n = self.entries.len();
        if expected_chunk_count > usize::MAX as u64 || expected_chunk_count as usize != n {
            return Err(StoreError::Integrity);
        }
        if expected_size != self.current_size() {
            return Err(StoreError::Integrity);
        }
        let body = self.body_bytes();
        let csum = match index_csum(body.as_slice()) {
            Some(c) => c,
            None => {
                return Err(StoreError::Unavailable);
            }
        };
        if !digest_eq(&csum, expected_csum) {
            return Err(StoreError::Integrity);
        }
        let mut entries: Vec<DynamicEntry> = Vec::new();
        let mut k: usize = 0;
        while k < n
            invariant
                self.wf(),
                n == self@.entries.len(),
                k <= n,
                entries@.len() == k,
                forall|j: int| 0 <= j < k ==> (#[trigger] entries@[j])@ == self@.entries[j],
            decreases n - k,
        {
            entries.push(
                DynamicEntry {
                    end_offset: self.entries[k].end_offset,
                    digest: self.entries[k].digest,
                },
            );
            k = k + 1;
        }
        let idx = DynamicIndexReader { uuid: self.uuid, ctime: self.ctime, csum, entries };
        proof {
            assert(idx@.entries =~= self@.entries);
            assert(idx@ == (DynamicIndexView {
                uuid: self@.uuid,
                ctime: self@.ctime,
                csum: expected_csum@,
                entries: self@.entries,
            }));
        }
        Ok(idx)
    }
}

/// Pack an entry list into its file bytes.
pub fn pack_entries(entries: &Vec<DynamicEntry>) -> (r: Vec<u8>)
    requires
        40 * entries@.len() <= usize::MAX,
    ensures
        r@ == entry_list_bytes(entries@.map_values(|e: DynamicEntry| e@)),
{
    let ghost es = entries@.map_values(|e: DynamicEntry| e@);
    let mut r: Vec<u8> = Vec::new();
    let n = entries.len();
    let mut i: usize = 0;
    proof {
        assert(es.take(0) =~= Seq::<DynEntryView>::empty());
    }
    while i < n
        invariant
            es == entries@.map_values(|e: DynamicEntry| e@),
            n == es.len(),
            40 * n <= usize::MAX,
            i <= n,
            r@ == entry_list_bytes(es.take(i as int)),
            r@.len() == 40 * i,
        decreases n - i,
    {
        proof {
            vstd::bytes::lemma_auto_spec_u64_to_from_le_bytes();
            assert(forall|k: int|
                0 <= k < es.take(i as int).len() ==> (#[trigger] es.take(i as int)[k]).digest.len()
                    == 32) by {
                assert(forall|k: int|
                    0 <= k < i ==> (#[trigger] es.take(i as int)[k]) == es[k]);
            }
            lemma_entry_list_bytes_len(es.take(i as int));
            assert(es.take(i + 1).drop_last() =~= es.take(i as int));
            assert(es.take(i + 1).last() == es[i as int]);
        }
        let mut ob = u64_to_le_bytes(entries[i].end_offset);
        r.append(&mut ob);
        r.extend_from_slice(entries[i].digest.as_slice());
        i = i + 1;
    }
    proof {
        assert(es.take(n as int) =~= es);
    }
    r
}

/// The creation time stored in a dynamic index header.
pub open spec fn parsed_dynamic_ctime(b: Seq<u8>) -> int {
    spec_u64_from_le_bytes(b.subrange(24, 32)) as int
}

/// The number of packed entries behind the header.
pub open spec fn parsed_dynamic_count(b: Seq<u8>) -> int {
    (b.len() - 4096) / 40
}

/// The entry at one position of the packed list.
pub open spec fn parsed_dynamic_entry(b: Seq<u8>, i: int) -> DynEntryView {
    DynEntryView {
        end: spec_u64_from_le_bytes(b.subrange(4096 + 40 * i, 4096 + 40 * i + 8)) as int,
        digest: b.subrange(4096 + 40 * i + 8, 4096 + 40 * i + 40),
    }
}

/// All entries of the packed list.
pub open spec fn parsed_dynamic_entries(b: Seq<u8>) -> Seq<DynEntryView> {
    Seq::new(parsed_dynamic_count(b) as nat, |i: int| parsed_dynamic_entry(b, i))
}

/// Whether bytes are a well-formed dynamic index file: the magic, a
/// bounded time, whole 40-byte entries, and strictly increasing offsets.
pub open spec fn valid_dynamic_bytes(b: Seq<u8>) -> bool {
    &&& b.len() >= 4096
    &&& b.subrange(0, 8) == dynamic_magic()
    &&& parsed_dynamic_ctime(b) <= i64::MAX
    &&& (b.len() - 4096) % 40 == 0
    &&& entries_wf(parsed_dynamic_entries(b))
}

/// The index a well-formed dynamic index file describes.
pub open spec fn parsed_dynamic_index(b: Seq<u8>) -> DynamicIndexView {
    DynamicIndexView {
        uuid: b.subrange(8, 24),
        ctime: parsed_dynamic_ctime(b),
        csum: b.subrange(32, 64),
        entries: parsed_dynamic_entries(b),
    }
}

/// The magic comparison is decided by the first eight bytes.
proof fn lemma_dynamic_magic_decided(b: Seq<u8>)
    requires
        b.len() >= 8,
    ensures
        (b.subrange(0, 8) == dynamic_magic()) <==> (b[0] == 28 && b[1] == 145 && b[2] == 78 && b[3]
            == 165 && b[4] == 25 && b[5] == 186 && b[6] == 179 && b[7] == 205),
{
    assert(dynamic_magic()[0] == 28 && dynamic_magic()[1] == 145 && dynamic_magic()[2] == 78
        && dynamic_magic()[3] == 165 && dynamic_magic()[4] == 25 && dynamic_magic()[5] == 186
        && dynamic_magic()[6] == 179 && dynamic_magic()[7] == 205);
    assert(b.subrange(0, 8)[0] == b[0] && b.subrange(0, 8)[1] == b[1] && b.subrange(0, 8)[2] == b[2]
        && b.subrange(0, 8)[3] == b[3] && b.subrange(0, 8)[4] == b[4] && b.subrange(0, 8)[5] == b[5]
        && b.subrange(0, 8)[6] == b[6] && b.subrange(0, 8)[7] == b[7]);
    if b[0] == 28 && b[1] == 145 && b[2] == 78 && b[3] == 165 && b[4] == 25 && b[5] == 186 && b[6]
        == 179 && b[7] == 205 {
        assert(b.subrange(0, 8) =~= dynamic_magic());
    }
}

impl DynamicIndexReader {
    /// The exact file bytes of the index.
    pub fn to_bytes(&self) -> (r: Vec<u8>)
        requires
            self.wf(),
            4096 + 40 * self@.entries.len() <= usize::MAX,
        ensures
            r@ == dynamic_index_bytes(self@),
            valid_dynamic_bytes(r@),
            parsed_dynamic_index(r@) == self@,
    {
        let mut r: Vec<u8> = Vec::new();
        r.push(28);
        r.push(145);
        r.push(78);
        r.push(165);
        r.push(25);
        r.push(186);
        r.push(179);
        r.push(205);
        proof {
            assert(r@ =~= dynamic_magic());
        }
        r.extend_from_slice(self.uuid.as_slice());
        let mut ctb = u64_to_le_bytes(self.ctime as u64);
        r.append(&mut ctb);
        r.extend_from_slice(self.csum.as_slice());
        proof {
            vstd::bytes::lemma_auto_spec_u64_to_from_le_bytes();
            assert(r@.len() == 64);
        }
        let ghost header = r@;
        let mut i: usize = 0;
        while i < 4032
            invariant
                i <= 4032,
                r@ == header + Seq::new(i as nat, |k: int| 0u8),
            decreases 4032 - i,
        {
            r.push(0);
            proof {
                assert(r@ =~= header + Seq::new((i + 1) as nat, |k: int| 0u8));
            }
            i = i + 1;
        }
        let mut body = pack_entries(&self.entries);
        r.append(&mut body);
        proof {
            assert(r@ =~= dynamic_index_bytes(self@));
            lemma_dynamic_round_trip_bytes(self@);
        }
        r
    }

    /// Read an index back from file bytes; fails on anything that
    /// `valid_dynamic_bytes` refuses.
    pub fn from_bytes(bytes: &[u8]) -> (r: Result<DynamicIndexReader, StoreError>)
        ensures
            r is Ok <==> valid_dynamic_bytes(bytes@),
            r matches Ok(idx) ==> idx.wf() && idx@ == parsed_dynamic_index(bytes@),
            r matches Err(e) ==> e == StoreError::Integrity,
    {
        if bytes.len() < 4096 {
            return Err(StoreError::Integrity);
        }
        proof {
            lemma_dynamic_magic_decided(bytes@);
        }
        if !(bytes[0] == 28 && bytes[1] == 145 && bytes[2] == 78 && bytes[3] == 165 && bytes[4]
            == 25 && bytes[5] == 186 && bytes[6] == 179 && bytes[7] == 205) {
            return Err(StoreError::Integrity);
        }
        let ctime64 = u64_from_le_bytes(&bytes[24..32]);
        if ctime64 > i64::MAX as u64 {
            return Err(StoreError::Integrity);
        }
        let ctime = ctime64 as i64;
        let body_len = bytes.len() - 4096;
        if body_len % 40 != 0 {
            return Err(StoreError::Integrity);
        }
        let count = body_len / 40;
        proof {
            lemma_fundamental_div_mod_40(bytes@.len() - 4096);
        }
        let mut uuid = [0u8; 16];
        let mut k: usize = 0;
        while k < 16
            invariant
                bytes@.len() >= 4096,
                k <= 16,
                forall|j: int| 0 <= j < k ==> uuid@[j] == bytes@[8 + j],
            decreases 16 - k,
        {
            uuid[k] = bytes[8 + k];
            k = k + 1;
        }
        let mut csum = [0u8; 32];
        let mut k2: usize = 0;
        while k2 < 32
            invariant
                bytes@.len() >= 4096,
                k2 <= 32,
                forall|j: int| 0 <= j < k2 ==> csum@[j] == bytes@[32 + j],
            decreases 32 - k2,
        {
            csum[k2] = bytes[32 + k2];
            k2 = k2 + 1;
        }
        let mut entries: Vec<DynamicEntry> = Vec::new();
        let mut last_end: u64 = 0;
        let mut i: usize = 0;
        while i < count
            invariant
                bytes@.len() == 4096 + 40 * count,
                4096 + 40 * count <= usize::MAX,
                i <= count,
                entries@.len() == i,
                forall|j: int|
                    0 <= j < i ==> (#[trigger] entries@[j])@ == parsed_dynamic_entry(bytes@, j),
                forall|j: int| 0 <= j < i ==> 0 < (#[trigger] entries@[j])@.end,
                forall|j1: int, j2: int|
                    0 <= j1 < j2 < i ==> entries@[j1]@.end < entries@[j2]@.end,
                i > 0 ==> last_end == entries@[i - 1]@.end,
                i == 0 ==> last_end == 0,
            decreases count - i,
        {
            let base = 4096 + 40 * i;
            let end = u64_from_le_bytes(&bytes[base..base + 8]);
            if end <= last_end {
                proof {
                    assert(parsed_dynamic_entry(bytes@, i as int).end == end);
                    if i == 0 {
                        assert(!(0 < parsed_dynamic_entries(bytes@)[0].end));
                    } else {
                        assert(parsed_dynamic_entries(bytes@)[i - 1].end == last_end);
                        assert(!(parsed_dynamic_entries(bytes@)[i - 1].end
                            < parsed_dynamic_entries(bytes@)[i as int].end));
                    }
                    assert(!entries_wf(parsed_dynamic_entries(bytes@)));
                }
                return Err(StoreError::Integrity);
            }
            let mut d = [0u8; 32];
            let mut k3: usize = 0;
            while k3 < 32
                invariant
                    bytes@.len() == 4096 + 40 * count,
                    4096 + 40 * count <= usize::MAX,
                    i < count,
                    base == 4096 + 40 * i,
                    k3 <= 32,
                    forall|j: int| 0 <= j < k3 ==> d@[j] == bytes@[base + 8 + j],
                decreases 32 - k3,
            {
                d[k3] = bytes[base + 8 + k3];
                k3 = k3 + 1;
            }
            proof {
                assert(d@ =~= bytes@.subrange(
                    4096 + 40 * (i as int) + 8,
                    4096 + 40 * (i as int) + 40,
                ));
                assert(bytes@.subrange(4096 + 40 * (i as int), 4096 + 40 * (i as int) + 8)
                    =~= bytes@.subrange(base as int, base as int + 8));
            }
            entries.push(DynamicEntry { end_offset: end, digest: d });
            last_end = end;
            i = i + 1;
        }
        let idx = DynamicIndexReader { uuid, ctime, csum, entries };
        proof {
            assert(uuid@ =~= bytes@.subrange(8, 24));
            assert(csum@ =~= bytes@.subrange(32, 64));
            assert(bytes@.subrange(24, 32) =~= spec_u64_to_le_bytes(ctime64)) by {
                vstd::bytes::lemma_auto_spec_u64_to_from_le_bytes();
            }
            assert(idx@.entries =~~= parsed_dynamic_entries(bytes@));
            assert(idx@ == parsed_dynamic_index(bytes@));
            assert(entries_wf(parsed_dynamic_entries(bytes@)));
        }
        Ok(idx)
    }
}

/// Forty divides a multiple of forty, and the quotient is the factor.
proof fn lemma_fundamental_div_mod_40(x: int)
    requires
        0 <= x,
    ensures
        x % 40 == 0 ==> x == 40 * (x / 40),
{
    vstd::arithmetic::div_mod::lemma_fundamental_div_mod(x, 40);
}

/// Emitting an index and parsing the bytes gives the index back, for
/// every well-formed index that fits in memory.
pub proof fn lemma_dynamic_round_trip_bytes(v: DynamicIndexView)
    requires
        v.wf(),
        v.entries.len() <= usize::MAX,
    ensures
        valid_dynamic_bytes(dynamic_index_bytes(v)),
        parsed_dynamic_index(dynamic_index_bytes(v)) == v,
        dynamic_index_bytes(v).len() == 4096 + 40 * v.entries.len(),
{
    let b = dynamic_index_bytes(v);
    vstd::bytes::lemma_auto_spec_u64_to_from_le_bytes();
    lemma_entry_list_bytes_len(v.entries);
    assert(b.len() == 4096 + 40 * v.entries.len());
    assert((b.len() - 4096) % 40 == 0) by {
        vstd::arithmetic::div_mod::lemma_fundamental_div_mod_converse(
            b.len() - 4096,
            40,
            v.entries.len() as int,
            0,
        );
    }
    assert(parsed_dynamic_count(b) == v.entries.len()) by {
        vstd::arithmetic::div_mod::lemma_fundamental_div_mod_converse(
            b.len() - 4096,
            40,
            v.entries.len() as int,
            0,
        );
    }
    assert(b.subrange(0, 8) =~= dynamic_magic());
    assert(b.subrange(8, 24) =~= v.uuid);
    assert(b.subrange(24, 32) =~= spec_u64_to_le_bytes(v.ctime as u64));
    assert(b.subrange(32, 64) =~= v.csum);
    assert(parsed_dynamic_ctime(b) == v.ctime);
    assert forall|i: int| 0 <= i < v.entries.len() implies parsed_dynamic_entry(b, i)
        == v.entries[i] by {
        lemma_entry_list_bytes_index(v.entries, i);
        assert(b.subrange(4096 + 40 * i, 4096 + 40 * i + 8) =~= entry_list_bytes(
            v.entries,
        ).subrange(40 * i, 40 * i + 8));
        assert(b.subrange(4096 + 40 * i + 8, 4096 + 40 * i + 40) =~= entry_list_bytes(
            v.entries,
        ).subrange(40 * i + 8, 40 * i + 40));
    }
    assert(parsed_dynamic_entries(b) =~= v.entries);
    assert(parsed_dynamic_index(b) == v);
}

} // verus!
