//! The index format for block images cut into equal chunks.
//!
//! A fixed index names `ceil(size / chunk_size)` chunks; all but the last
//! cover exactly `chunk_size` bytes. On disk it is a 4096-byte header —
//! magic, image identifier, creation time, a checksum over the digest
//! list, the image size and the chunk size — followed by the packed
//! 32-byte digests. `fixed_index_bytes` is the exact layout; writer and
//! parser are proved against it.

use vstd::prelude::*;
use vstd::arithmetic::div_mod::{lemma_fundamental_div_mod, lemma_mod_bound};
use vstd::arithmetic::mul::{lemma_mul_inequality, lemma_mul_is_distributive_sub_other_way};
use vstd::bytes::{spec_u64_from_le_bytes, spec_u64_to_le_bytes, u64_from_le_bytes, u64_to_le_bytes};

use crate::crypto::{blake2b, blake2b_of};
use crate::digest::digest_eq;
use crate::error::StoreError;

verus! {

/// Bytes every fixed index file begins with.
pub open spec fn fixed_magic() -> Seq<u8> {
    seq![47u8, 127u8, 65u8, 237u8, 145u8, 253u8, 15u8, 205u8]
}

/// How many chunks an image of `size` bytes cut every `chunk_size` bytes
/// has: the last chunk may be shorter.
pub open spec fn index_count(size: int, chunk_size: int) -> int {
    (size + chunk_size - 1) / chunk_size
}

/// Bounds of the chunk count: it covers the size, and not a chunk more.
pub proof fn lemma_index_count(size: int, chunk_size: int)
    requires
        0 <= size,
        0 < chunk_size,
    ensures
        0 <= index_count(size, chunk_size),
        index_count(size, chunk_size) * chunk_size >= size,
        index_count(size, chunk_size) * chunk_size < size + chunk_size,
        index_count(size, chunk_size) == 0 <==> size == 0,
        index_count(size, chunk_size) <= size,
{
    let c = index_count(size, chunk_size);
    let x = size + chunk_size - 1;
    lemma_fundamental_div_mod(x, chunk_size);
    lemma_mod_bound(x, chunk_size);
    assert(x == chunk_size * c + x % chunk_size);
    assert(c * chunk_size == chunk_size * c) by {
        vstd::arithmetic::mul::lemma_mul_is_commutative(c, chunk_size);
    }
    if c < 0 {
        lemma_mul_inequality(c, -1, chunk_size);
        assert(c * chunk_size <= -1 * chunk_size);
        assert(-1 * chunk_size == -chunk_size) by {
            vstd::arithmetic::mul::lemma_mul_basics(chunk_size);
        }
    }
    if c > size {
        lemma_mul_inequality(size + 1, c, chunk_size);
        assert((size + 1) * chunk_size <= c * chunk_size);
        assert((size + 1) * chunk_size >= size + 1) by {
            if chunk_size >= 1 {
                lemma_mul_inequality(1, chunk_size, size + 1);
                vstd::arithmetic::mul::lemma_mul_is_commutative(size + 1, chunk_size);
                vstd::arithmetic::mul::lemma_mul_basics(size + 1);
            }
        }
        assert(c * chunk_size < size + chunk_size);
        assert((size + 1) * chunk_size == size * chunk_size + chunk_size) by {
            vstd::arithmetic::mul::lemma_mul_is_distributive_add_other_way(chunk_size, size, 1);
            vstd::arithmetic::mul::lemma_mul_basics(chunk_size);
            vstd::arithmetic::mul::lemma_mul_is_commutative(size, chunk_size);
        }
        assert(size * chunk_size < size);
        assert(size * chunk_size >= size) by {
            lemma_mul_inequality(1, chunk_size, size);
            vstd::arithmetic::mul::lemma_mul_is_commutative(size, chunk_size);
            vstd::arithmetic::mul::lemma_mul_basics(size);
        }
    }
}

/// The packed digest list: each digest contributes its 32 bytes.
pub open spec fn digest_list_bytes(ds: Seq<Seq<u8>>) -> Seq<u8>
    decreases ds.len(),
{
    if ds.len() == 0 {
        Seq::empty()
    } else {
        digest_list_bytes(ds.drop_last()) + ds.last()
    }
}

/// Packed digests of well-formed length have 32 bytes each.
pub proof fn lemma_digest_list_bytes_len(ds: Seq<Seq<u8>>)
    requires
        forall|i: int| 0 <= i < ds.len() ==> (#[trigger] ds[i]).len() == 32,
    ensures
        digest_list_bytes(ds).len() == 32 * ds.len(),
    decreases ds.len(),
{
    if ds.len() > 0 {
        lemma_digest_list_bytes_len(ds.drop_last());
    }
}

/// One packed digest of the list.
pub proof fn lemma_digest_list_bytes_index(ds: Seq<Seq<u8>>, i: int)
    requires
        forall|k: int| 0 <= k < ds.len() ==> (#[trigger] ds[k]).len() == 32,
        0 <= i < ds.len(),
    ensures
        digest_list_bytes(ds).subrange(32 * i, 32 * i + 32) == ds[i],
    decreases ds.len(),
{
    lemma_digest_list_bytes_len(ds);
    if i == ds.len() - 1 {
        lemma_digest_list_bytes_len(ds.drop_last());
        assert(digest_list_bytes(ds).subrange(32 * i, 32 * i + 32) =~= ds[i]);
    } else {
        lemma_digest_list_bytes_index(ds.drop_last(), i);
        lemma_digest_list_bytes_len(ds.drop_last());
        assert(digest_list_bytes(ds).subrange(32 * i, 32 * i + 32) =~= digest_list_bytes(
            ds.drop_last(),
        ).subrange(32 * i, 32 * i + 32));
        assert(ds.drop_last()[i] == ds[i]);
    }
}

/// Ghost image of a fixed index.
pub struct FixedIndexView {
    pub uuid: Seq<u8>,
    pub ctime: int,
    pub csum: Seq<u8>,
    pub size: int,
    pub chunk_size: int,
    pub digests: Seq<Seq<u8>>,
}

impl FixedIndexView {
    /// Field sizes and the digest count match the image geometry.
    pub open spec fn wf(self) -> bool {
        &&& self.uuid.len() == 16
        &&& self.csum.len() == 32
        &&& 0 <= self.ctime <= i64::MAX
        &&& 0 < self.chunk_size <= u64::MAX
        &&& 0 <= self.size
        &&& self.size + self.chunk_size <= u64::MAX
        &&& self.digests.len() == index_count(self.size, self.chunk_size)
        &&& forall|i: int| 0 <= i < self.digests.len() ==> (#[trigger] self.digests[i]).len() == 32
    }
}

/// The exact file bytes of a fixed index: header, padding, digest list.
pub open spec fn fixed_index_bytes(v: FixedIndexView) -> Seq<u8> {
    fixed_magic() + v.uuid + spec_u64_to_le_bytes(v.ctime as u64) + v.csum + spec_u64_to_le_bytes(
        v.size as u64,
    ) + spec_u64_to_le_bytes(v.chunk_size as u64) + Seq::new(4016, |i: int| 0u8)
        + digest_list_bytes(v.digests)
}

/// A read-only fixed index.
pub struct FixedIndexReader {
    uuid: [u8; 16],
    ctime: i64,
    csum: [u8; 32],
    size: u64,
    chunk_size: u64,
    digests: Vec<[u8; 32]>,
}

impl View for FixedIndexReader {
    type V = FixedIndexView;

    closed spec fn view(&self) -> FixedIndexView {
        FixedIndexView {
            uuid: self.uuid@,
            ctime: self.ctime as int,
            csum: self.csum@,
            size: self.size as int,
            chunk_size: self.chunk_size as int,
            digests: self.digests@.map_values(|d: [u8; 32]| d@),
        }
    }
}

impl FixedIndexReader {
    /// The index is well formed.
    pub open spec fn wf(&self) -> bool {
        self@.wf()
    }

    /// Logical size of the image the index describes.
    pub fn index_bytes(&self) -> (r: u64)
        ensures
            r == self@.size,
    {
        self.size
    }

    /// Size of every chunk but possibly the last.
    pub fn chunk_size(&self) -> (r: u64)
        ensures
            r == self@.chunk_size,
    {
        self.chunk_size
    }

    /// Creation time of the index.
    pub fn ctime(&self) -> (r: i64)
        ensures
            r == self@.ctime,
    {
        self.ctime
    }

    /// The image identifier.
    pub fn uuid(&self) -> (r: &[u8; 16])
        ensures
            r@ == self@.uuid,
    {
        &self.uuid
    }

    /// The checksum stored over the digest list.
    pub fn index_csum(&self) -> (r: &[u8; 32])
        ensures
            r@ == self@.csum,
    {
        &self.csum
    }

    /// Number of chunks in the index.
    pub fn index_count(&self) -> (r: usize)
        requires
            self.wf(),
        ensures
            r == self@.digests.len(),
            r == index_count(self@.size, self@.chunk_size),
    {
        self.digests.len()
    }


    /// The digests of all chunks, in index order.
    pub fn clone_digests(&self) -> (r: Vec<[u8; 32]>)
        ensures
            r@.map_values(|d: [u8; 32]| d@) == self@.digests,
    {
        let mut r: Vec<[u8; 32]> = Vec::new();
        let n = self.digests.len();
        let mut i: usize = 0;
        while i < n
            invariant
                n == self@.digests.len(),
                i <= n,
                r@.len() == i,
                forall|j: int| 0 <= j < i ==> (#[trigger] r@[j])@ == self@.digests[j],
            decreases n - i,
        {
            r.push(self.digests[i]);
            i = i + 1;
        }
        proof {
            assert(r@.map_values(|d: [u8; 32]| d@) =~= self@.digests);
        }
        r
    }

    /// The digest of one chunk.
    pub fn index_digest(&self, pos: usize) -> (r: Option<&[u8; 32]>)
        requires
            self.wf(),
        ensures
            r matches Some(d) ==> pos < self@.digests.len() && d@ == self@.digests[pos as int],
            r is None <==> pos >= self@.digests.len(),
    {
        if pos < self.digests.len() {
            Some(&self.digests[pos])
        } else {
            None
        }
    }

    /// The byte range a chunk covers and its digest: chunks are laid end
    /// to end, and the last ends at the image size.
    pub fn chunk_info(&self, pos: usize) -> (r: Option<(u64, u64, [u8; 32])>)
        requires
            self.wf(),
        ensures
            r matches Some(info) ==> {
                &&& pos < self@.digests.len()
                &&& info.0 == pos * self@.chunk_size
                &&& info.1 == (if (pos + 1) * self@.chunk_size <= self@.size {
                    (pos + 1) * self@.chunk_size
                } else {
                    self@.size
                })
                &&& info.2@ == self@.digests[pos as int]
                &&& info.0 < info.1
            },
            r is None <==> pos >= self@.digests.len(),
    {
        if pos >= self.digests.len() {
            return None;
        }
        proof {
            lemma_index_count(self@.size, self@.chunk_size);
            lemma_mul_inequality(pos + 1, self@.digests.len() as int, self@.chunk_size);
            vstd::arithmetic::mul::lemma_mul_is_commutative(
                self@.digests.len() as int,
                self@.chunk_size,
            );
            lemma_mul_is_distributive_sub_other_way(self@.chunk_size, pos + 1, 1);
            vstd::arithmetic::mul::lemma_mul_is_commutative(pos + 1, self@.chunk_size);
            vstd::arithmetic::mul::lemma_mul_is_commutative(pos as int, self@.chunk_size);
            vstd::arithmetic::mul::lemma_mul_basics(self@.chunk_size);
            if self@.digests.len() == pos + 1 {
            } else {
                lemma_mul_inequality(
                    pos + 2,
                    self@.digests.len() as int,
                    self@.chunk_size,
                );
                lemma_mul_is_distributive_sub_other_way(self@.chunk_size, pos + 2, 1);
                vstd::arithmetic::mul::lemma_mul_is_commutative(pos + 2, self@.chunk_size);
            }
        }
        let start = (pos as u64) * self.chunk_size;
        let mut end = start + self.chunk_size;
        if end > self.size {
            end = self.size;
        }
        Some((start, end, self.digests[pos]))
    }
}

/// A fixed index under construction: digest slots are filled one by one,
/// and the file appears only when every slot is written and the totals
/// agree.
pub struct FixedIndexWriter {
    uuid: [u8; 16],
    ctime: i64,
    size: u64,
    chunk_size: u64,
    digests: Vec<[u8; 32]>,
    written: Vec<bool>,
}

/// Ghost image of a fixed index writer.
pub struct FixedWriterView {
    pub uuid: Seq<u8>,
    pub ctime: int,
    pub size: int,
    pub chunk_size: int,
    pub digests: Seq<Seq<u8>>,
    pub written: Seq<bool>,
}

impl View for FixedIndexWriter {
    type V = FixedWriterView;

    closed spec fn view(&self) -> FixedWriterView {
        FixedWriterView {
            uuid: self.uuid@,
            ctime: self.ctime as int,
            size: self.size as int,
            chunk_size: self.chunk_size as int,
            digests: self.digests@.map_values(|d: [u8; 32]| d@),
            written: self.written@,
        }
    }
}

impl FixedIndexWriter {
    /// Geometry fixed, one slot flag per digest.
    pub open spec fn wf(&self) -> bool {
        &&& self@.uuid.len() == 16
        &&& 0 <= self@.ctime <= i64::MAX
        &&& 0 < self@.chunk_size
        &&& 0 <= self@.size
        &&& self@.size + self@.chunk_size <= u64::MAX
        &&& self@.digests.len() == index_count(self@.size, self@.chunk_size)
        &&& self@.written.len() == self@.digests.len()
        &&& forall|i: int| 0 <= i < self@.digests.len() ==> (#[trigger] self@.digests[i]).len() == 32
    }

    /// Every slot holds its digest.
    pub open spec fn all_written(&self) -> bool {
        forall|i: int| 0 <= i < self@.written.len() ==> self@.written[i]
    }

    /// Begin an index for an image of `size` bytes cut every `chunk_size`
    /// bytes: all slots empty.
    pub fn create(size: u64, chunk_size: u64, uuid: [u8; 16], ctime: i64) -> (r: Result<
        FixedIndexWriter,
        StoreError,
    >)
        ensures
            r matches Ok(w) ==> {
                &&& w.wf()
                &&& w@.uuid == uuid@
                &&& w@.ctime == ctime
                &&& w@.size == size
                &&& w@.chunk_size == chunk_size
                &&& forall|i: int| 0 <= i < w@.written.len() ==> !(#[trigger] w@.written[i])
            },
            r is Err <==> !(chunk_size > 0 && ctime >= 0 && size + chunk_size <= u64::MAX
                && index_count(size as int, chunk_size as int) <= usize::MAX),
            r matches Err(e) ==> e == StoreError::Protocol,
    {
        if chunk_size == 0 || ctime < 0 || size > u64::MAX - chunk_size {
            return Err(StoreError::Protocol);
        }
        proof {
            lemma_index_count(size as int, chunk_size as int);
        }
        let count64 = (size + chunk_size - 1) / chunk_size;
        if count64 > usize::MAX as u64 {
            return Err(StoreError::Protocol);
        }
        let count = count64 as usize;
        let mut digests: Vec<[u8; 32]> = Vec::new();
        let mut written: Vec<bool> = Vec::new();
        let mut i: usize = 0;
        while i < count
            invariant
                i <= count,
                digests@.len() == i,
                written@.len() == i,
                forall|j: int| 0 <= j < i ==> (#[trigger] digests@[j])@ == Seq::new(32, |k: int| 0u8),
                forall|j: int| 0 <= j < i ==> !(#[trigger] written@[j]),
            decreases count - i,
        {
            digests.push([0u8; 32]);
            written.push(false);
            i = i + 1;
        }
        Ok(FixedIndexWriter { uuid, ctime, size, chunk_size, digests, written })
    }

    /// Number of digest slots.
    pub fn index_count(&self) -> (r: usize)
        requires
            self.wf(),
        ensures
            r == self@.digests.len(),
    {
        self.digests.len()
    }

    /// Logical size of the image under construction.
    pub fn index_bytes(&self) -> (r: u64)
        ensures
            r == self@.size,
    {
        self.size
    }

    /// Size of every chunk but possibly the last.
    pub fn chunk_size(&self) -> (r: u64)
        ensures
            r == self@.chunk_size,
    {
        self.chunk_size
    }

    /// Write a digest into its slot.
    pub fn add_digest(&mut self, index: usize, digest: &[u8; 32]) -> (r: Result<(), StoreError>)
        requires
            old(self).wf(),
        ensures
            final(self).wf(),
            r is Err <==> index >= old(self)@.digests.len(),
            r matches Err(e) ==> e == StoreError::Protocol && final(self)@ == old(self)@,
            r is Ok ==> final(self)@ == (FixedWriterView {
                digests: old(self)@.digests.update(index as int, digest@),
                written: old(self)@.written.update(index as int, true),
                ..old(self)@
            }),
    {
        let ghost old_view = self@;
        if index >= self.digests.len() {
            return Err(StoreError::Protocol);
        }
        let d = vstd::std_specs::vec::vec_index_mut(&mut self.digests, index);
        *d = *digest;
        let w = vstd::std_specs::vec::vec_index_mut(&mut self.written, index);
        *w = true;
        proof {
            assert(self@.digests =~= old_view.digests.update(index as int, digest@));
            assert(self@.written =~= old_view.written.update(index as int, true));
            assert(self@ == (FixedWriterView {
                digests: self@.digests,
                written: self@.written,
                ..old_view
            }));
        }
        Ok(())
    }

    /// Whether a slot already holds its digest.
    pub fn slot_written(&self, index: usize) -> (r: bool)
        requires
            self.wf(),
            index < self@.written.len(),
        ensures
            r == self@.written[index as int],
    {
        self.written[index]
    }

    /// The packed digest list as it will lie in the file.
    fn body_bytes(&self) -> (r: Vec<u8>)
        requires
            self.wf(),
            32 * self@.digests.len() <= usize::MAX,
        ensures
            r@ == digest_list_bytes(self@.digests),
    {
        pack_digests(&self.digests)
    }

    /// Seal the index: demand every slot written and the expected chunk
    /// count, size and digest-list checksum to match what was
    /// accumulated; the result is the read-only index.
    ///
    /// A mismatch or a missing slot fails with an integrity error and
    /// commits nothing; when everything matches, the writer seals unless
    /// the checksum routine itself is unavailable.
    pub fn close(
        &self,
        expected_chunk_count: u64,
        expected_size: u64,
        expected_csum: &[u8; 32],
    ) -> (r: Result<FixedIndexReader, StoreError>)
        requires
            self.wf(),
            32 * self@.digests.len() <= usize::MAX,
        ensures
            r matches Ok(idx) ==> {
                &&& idx.wf()
                &&& idx@ == (FixedIndexView {
                    uuid: self@.uuid,
                    ctime: self@.ctime,
                    csum: expected_csum@,
                    size: self@.size,
                    chunk_size: self@.chunk_size,
                    digests: self@.digests,
                })
            },
            ({
                let sealable = self.all_written() && expected_chunk_count == self@.digests.len()
                    && expected_size == self@.size && expected_csum@ == blake2b_of(
                    digest_list_bytes(self@.digests),
                ).take(32);
                &&& (r is Ok ==> sealable)
                &&& (sealable ==> r is Ok || r == Err::<FixedIndexReader, StoreError>(
                    StoreError::Unavailable,
                ))
                &&& (!(self.all_written() && expected_chunk_count == self@.digests.len()
                    && expected_size == self@.size) ==> r == Err::<FixedIndexReader, StoreError>(
                    StoreError::Integrity,
                ))
                &&& (r == Err::<FixedIndexReader, StoreError>(StoreError::Unavailable)
                    ==> self.all_written() && expected_chunk_count == self@.digests.len()
                    && expected_size == self@.size)
                &&& (r matches Err(e) ==> e == StoreError::Integrity || e
                    == StoreError::Unavailable)
            }),
    {
        let n = self.digests.len();
        let mut i: usize = 0;
        while i < n
            invariant
                self.wf(),
                n == self@.written.len(),
                i <= n,
                forall|j: int| 0 <= j < i ==> self@.written[j],
            decreases n - i,
        {
            if !self.written[i] {
                return Err(StoreError::Integrity);
            }
            i = i + 1;
        }
        if expected_chunk_count > usize::MAX as u64 || expected_chunk_count as usize != n {
            return Err(StoreError::Integrity);
        }
        if expected_size != self.size {
            return Err(StoreError::Integrity);
        }
        let body = self.body_bytes();
        let csum = match index_csum(body.as_slice()) {
            Some(c) => c,
            None => {
                return Err(StoreError::Unavailable);
            }
        };
        if !digest_eq(&csum, expected_csum) {
            return Err(StoreError::Integrity);
        }
        let mut digests: Vec<[u8; 32]> = Vec::new();
        let mut k: usize = 0;
        while k < n
            invariant
                self.wf(),
                n == self@.digests.len(),
                k <= n,
                digests@.len() == k,
                forall|j: int| 0 <= j < k ==> (#[trigger] digests@[j])@ == self@.digests[j],
            decreases n - k,
        {
            digests.push(self.digests[k]);
            k = k + 1;
        }
        let idx = FixedIndexReader {
            uuid: self.uuid,
            ctime: self.ctime,
            csum,
            size: self.size,
            chunk_size: self.chunk_size,
            digests,
        };
        proof {
            assert(idx@.digests =~= self@.digests);
            assert(idx@ == (FixedIndexView {
                uuid: self@.uuid,
                ctime: self@.ctime,
                csum: expected_csum@,
                size: self@.size,
                chunk_size: self@.chunk_size,
                digests: self@.digests,
            }));
        }
        Ok(idx)
    }
}

/// Pack a digest list into its file bytes.
pub fn pack_digests(digests: &Vec<[u8; 32]>) -> (r: Vec<u8>)
    requires
        32 * digests@.len() <= usize::MAX,
    ensures
        r@ == digest_list_bytes(digests@.map_values(|d: [u8; 32]| d@)),
{
    let ghost ds = digests@.map_values(|d: [u8; 32]| d@);
    let mut r: Vec<u8> = Vec::new();
    let n = digests.len();
    let mut i: usize = 0;
    proof {
        assert(ds.take(0) =~= Seq::<Seq<u8>>::empty());
    }
    while i < n
        invariant
            ds == digests@.map_values(|d: [u8; 32]| d@),
            n == ds.len(),
            32 * n <= usize::MAX,
            i <= n,
            r@ == digest_list_bytes(ds.take(i as int)),
            r@.len() == 32 * i,
        decreases n - i,
    {
        proof {
            lemma_digest_list_bytes_len(ds.take(i as int));
            assert(ds.take(i + 1).drop_last() =~= ds.take(i as int));
            assert(ds.take(i + 1).last() == ds[i as int]);
        }
        r.extend_from_slice(digests[i].as_slice());
        i = i + 1;
    }
    proof {
        assert(ds.take(n as int) =~= ds);
    }
    r
}

/// The creation time stored in a fixed index header.
pub open spec fn parsed_fixed_ctime(b: Seq<u8>) -> int {
    spec_u64_from_le_bytes(b.subrange(24, 32)) as int
}

/// The image size stored in a fixed index header.
pub open spec fn parsed_fixed_size(b: Seq<u8>) -> int {
    spec_u64_from_le_bytes(b.subrange(64, 72)) as int
}

/// The chunk size stored in a fixed index header.
pub open spec fn parsed_fixed_chunk_size(b: Seq<u8>) -> int {
    spec_u64_from_le_bytes(b.subrange(72, 80)) as int
}

/// Whether bytes are a well-formed fixed index file: the magic, a
/// positive chunk size, a bounded size and time, and a body that holds
/// exactly the digests the geometry asks for.
pub open spec fn valid_fixed_bytes(b: Seq<u8>) -> bool {
    &&& b.len() >= 4096
    &&& b.subrange(0, 8) == fixed_magic()
    &&& parsed_fixed_ctime(b) <= i64::MAX
    &&& 0 < parsed_fixed_chunk_size(b)
    &&& parsed_fixed_size(b) + parsed_fixed_chunk_size(b) <= u64::MAX
    &&& b.len() == 4096 + 32 * index_count(parsed_fixed_size(b), parsed_fixed_chunk_size(b))
    &&& index_count(parsed_fixed_size(b), parsed_fixed_chunk_size(b)) <= usize::MAX
}

/// The index a well-formed fixed index file describes.
pub open spec fn parsed_fixed_index(b: Seq<u8>) -> FixedIndexView {
    FixedIndexView {
        uuid: b.subrange(8, 24),
        ctime: parsed_fixed_ctime(b),
        csum: b.subrange(32, 64),
        size: parsed_fixed_size(b),
        chunk_size: parsed_fixed_chunk_size(b),
        digests: Seq::new(
            index_count(parsed_fixed_size(b), parsed_fixed_chunk_size(b)) as nat,
            |i: int| b.subrange(4096 + 32 * i, 4096 + 32 * i + 32),
        ),
    }
}

/// The magic comparison is decided by the first eight bytes.
proof fn lemma_fixed_magic_decided(b: Seq<u8>)
    requires
        b.len() >= 8,
    ensures
        (b.subrange(0, 8) == fixed_magic()) <==> (b[0] == 47 && b[1] == 127 && b[2] == 65 && b[3]
            == 237 && b[4] == 145 && b[5] == 253 && b[6] == 15 && b[7] == 205),
{
    assert(fixed_magic()[0] == 47 && fixed_magic()[1] == 127 && fixed_magic()[2] == 65
        && fixed_magic()[3] == 237 && fixed_magic()[4] == 145 && fixed_magic()[5] == 253
        && fixed_magic()[6] == 15 && fixed_magic()[7] == 205);
    assert(b.subrange(0, 8)[0] == b[0] && b.subrange(0, 8)[1] == b[1] && b.subrange(0, 8)[2] == b[2]
        && b.subrange(0, 8)[3] == b[3] && b.subrange(0, 8)[4] == b[4] && b.subrange(0, 8)[5] == b[5]
        && b.subrange(0, 8)[6] == b[6] && b.subrange(0, 8)[7] == b[7]);
    if b[0] == 47 && b[1] == 127 && b[2] == 65 && b[3] == 237 && b[4] == 145 && b[5] == 253 && b[6]
        == 15 && b[7] == 205 {
        assert(b.subrange(0, 8) =~= fixed_magic());
    }
}

impl FixedIndexReader {
    /// The exact file bytes of the index.
    pub fn to_bytes(&self) -> (r: Vec<u8>)
        requires
            self.wf(),
            4096 + 32 * self@.digests.len() <= usize::MAX,
        ensures
            r@ == fixed_index_bytes(self@),
            valid_fixed_bytes(r@),
            parsed_fixed_index(r@) == self@,
    {
        let mut r: Vec<u8> = Vec::new();
        r.push(47);
        r.push(127);
        r.push(65);
        r.push(237);
        r.push(145);
        r.push(253);
        r.push(15);
        r.push(205);
        proof {
            assert(r@ =~= fixed_magic());
        }
        r.extend_from_slice(self.uuid.as_slice());
        let mut ctb = u64_to_le_bytes(self.ctime as u64);
        r.append(&mut ctb);
        r.extend_from_slice(self.csum.as_slice());
        let mut szb = u64_to_le_bytes(self.size);
        r.append(&mut szb);
        let mut csb = u64_to_le_bytes(self.chunk_size);
        r.append(&mut csb);
        proof {
            vstd::bytes::lemma_auto_spec_u64_to_from_le_bytes();
            assert(r@.len() == 80);
        }
        let ghost header = r@;
        let mut i: usize = 0;
        while i < 4016
            invariant
                i <= 4016,
                r@ == header + Seq::new(i as nat, |k: int| 0u8),
            decreases 4016 - i,
        {
            r.push(0);
            proof {
                assert(r@ =~= header + Seq::new((i + 1) as nat, |k: int| 0u8));
            }
            i = i + 1;
        }
        proof {
            lemma_index_count(self@.size, self@.chunk_size);
        }
        let mut body = pack_digests(&self.digests);
        r.append(&mut body);
        proof {
            assert(r@ =~= fixed_index_bytes(self@));
            lemma_fixed_round_trip_bytes(self@);
        }
        r
    }

    /// Read an index back from file bytes; fails on anything that
    /// `valid_fixed_bytes` refuses.
    pub fn from_bytes(bytes: &[u8]) -> (r: Result<FixedIndexReader, StoreError>)
        ensures
            r is Ok <==> valid_fixed_bytes(bytes@),
            r matches Ok(idx) ==> idx.wf() && idx@ == parsed_fixed_index(bytes@),
            r matches Err(e) ==> e == StoreError::Integrity,
    {
        if bytes.len() < 4096 {
            return Err(StoreError::Integrity);
        }
        proof {
            lemma_fixed_magic_decided(bytes@);
        }
        if !(bytes[0] == 47 && bytes[1] == 127 && bytes[2] == 65 && bytes[3] == 237 && bytes[4]
            == 145 && bytes[5] == 253 && bytes[6] == 15 && bytes[7] == 205) {
            return Err(StoreError::Integrity);
        }
        let ctime64 = u64_from_le_bytes(&bytes[24..32]);
        if ctime64 > i64::MAX as u64 {
            return Err(StoreError::Integrity);
        }
        let ctime = ctime64 as i64;
        let size = u64_from_le_bytes(&bytes[64..72]);
        let chunk_size = u64_from_le_bytes(&bytes[72..80]);
        if chunk_size == 0 || size > u64::MAX - chunk_size {
            return Err(StoreError::Integrity);
        }
        proof {
            lemma_index_count(size as int, chunk_size as int);
        }
        let count64 = (size + chunk_size - 1) / chunk_size;
        let body_len = bytes.len() - 4096;
        if body_len % 32 != 0 {
            proof {
                lemma_fundamental_div_mod(bytes@.len() - 4096, 32);
                if bytes@.len() == 4096 + 32 * index_count(
                    parsed_fixed_size(bytes@),
                    parsed_fixed_chunk_size(bytes@),
                ) {
                    vstd::arithmetic::div_mod::lemma_fundamental_div_mod_converse(
                        bytes@.len() - 4096,
                        32,
                        index_count(parsed_fixed_size(bytes@), parsed_fixed_chunk_size(bytes@)),
                        0,
                    );
                }
            }
            return Err(StoreError::Integrity);
        }
        let count = body_len / 32;
        proof {
            lemma_fundamental_div_mod(bytes@.len() - 4096, 32);
            if bytes@.len() == 4096 + 32 * index_count(
                parsed_fixed_size(bytes@),
                parsed_fixed_chunk_size(bytes@),
            ) {
                vstd::arithmetic::div_mod::lemma_fundamental_div_mod_converse(
                    bytes@.len() - 4096,
                    32,
                    index_count(parsed_fixed_size(bytes@), parsed_fixed_chunk_size(bytes@)),
                    0,
                );
            }
        }
        if count64 > usize::MAX as u64 || count != count64 as usize {
            return Err(StoreError::Integrity);
        }
        let mut uuid = [0u8; 16];
        let mut k: usize = 0;
        while k < 16
            invariant
                bytes@.len() >= 4096,
                k <= 16,
                forall|j: int| 0 <= j < k ==> uuid@[j] == bytes@[8 + j],
            decreases 16 - k,
        {
            uuid[k] = bytes[8 + k];
            k = k + 1;
        }
        let mut csum = [0u8; 32];
        let mut k2: usize = 0;
        while k2 < 32
            invariant
                bytes@.len() >= 4096,
                k2 <= 32,
                forall|j: int| 0 <= j < k2 ==> csum@[j] == bytes@[32 + j],
            decreases 32 - k2,
        {
            csum[k2] = bytes[32 + k2];
            k2 = k2 + 1;
        }
        let mut digests: Vec<[u8; 32]> = Vec::new();
        let mut i: usize = 0;
        while i < count
            invariant
                bytes@.len() == 4096 + 32 * count,
                4096 + 32 * count <= usize::MAX,
                i <= count,
                digests@.len() == i,
                forall|j: int|
                    0 <= j < i ==> (#[trigger] digests@[j])@ == bytes@.subrange(
                        4096 + 32 * j,
                        4096 + 32 * j + 32,
                    ),
            decreases count - i,
        {
            let mut d = [0u8; 32];
            let base = 4096 + 32 * i;
            let mut k3: usize = 0;
            while k3 < 32
                invariant
                    bytes@.len() == 4096 + 32 * count,
                    4096 + 32 * count <= usize::MAX,
                    i < count,
                    base == 4096 + 32 * i,
                    k3 <= 32,
                    forall|j: int| 0 <= j < k3 ==> d@[j] == bytes@[base + j],
                decreases 32 - k3,
            {
                d[k3] = bytes[base + k3];
                k3 = k3 + 1;
            }
            proof {
                assert(d@ =~= bytes@.subrange(4096 + 32 * (i as int), 4096 + 32 * (i as int) + 32));
            }
            digests.push(d);
            i = i + 1;
        }
        let idx = FixedIndexReader { uuid, ctime, csum, size, chunk_size, digests };
        proof {
            assert(uuid@ =~= bytes@.subrange(8, 24));
            assert(csum@ =~= bytes@.subrange(32, 64));
            assert(bytes@.subrange(24, 32) =~= spec_u64_to_le_bytes(ctime64)) by {
                vstd::bytes::lemma_auto_spec_u64_to_from_le_bytes();
            }
            assert(idx@.digests =~~= parsed_fixed_index(bytes@).digests);
            assert(idx@ == parsed_fixed_index(bytes@));
        }
        Ok(idx)
    }
}

/// Emitting an index and parsing the bytes gives the index back, for
/// every well-formed index that fits in memory.
pub proof fn lemma_fixed_round_trip_bytes(v: FixedIndexView)
    requires
        v.wf(),
        v.digests.len() <= usize::MAX,
    ensures
        valid_fixed_bytes(fixed_index_bytes(v)),
        parsed_fixed_index(fixed_index_bytes(v)) == v,
        fixed_index_bytes(v).len() == 4096 + 32 * v.digests.len(),
{
    let b = fixed_index_bytes(v);
    vstd::bytes::lemma_auto_spec_u64_to_from_le_bytes();
    lemma_digest_list_bytes_len(v.digests);
    lemma_index_count(v.size, v.chunk_size);
    assert(b.len() == 4096 + 32 * v.digests.len());
    assert(b.subrange(0, 8) =~= fixed_magic());
    assert(b.subrange(8, 24) =~= v.uuid);
    assert(b.subrange(24, 32) =~= spec_u64_to_le_bytes(v.ctime as u64));
    assert(b.subrange(32, 64) =~= v.csum);
    assert(b.subrange(64, 72) =~= spec_u64_to_le_bytes(v.size as u64));
    assert(b.subrange(72, 80) =~= spec_u64_to_le_bytes(v.chunk_size as u64));
    assert(parsed_fixed_ctime(b) == v.ctime);
    assert(parsed_fixed_size(b) == v.size);
    assert(parsed_fixed_chunk_size(b) == v.chunk_size);
    assert forall|i: int| 0 <= i < v.digests.len() implies b.subrange(
        4096 + 32 * i,
        4096 + 32 * i + 32,
    ) == v.digests[i] by {
        lemma_digest_list_bytes_index(v.digests, i);
        assert(b.subrange(4096 + 32 * i, 4096 + 32 * i + 32) =~= digest_list_bytes(
            v.digests,
        ).subrange(32 * i, 32 * i + 32));
    }
    assert(parsed_fixed_index(b).digests =~= v.digests);
    assert(parsed_fixed_index(b) == v);
}

/// The first 32 bytes of the Blake2b-512 digest, as stored in index
/// headers; `None` when the hash routine is unavailable.
pub fn index_csum(body: &[u8]) -> (r: Option<[u8; 32]>)
    ensures
        r matches Some(c) ==> c@ == blake2b_of(body@).take(32),
{
    let h = match blake2b(body) {
        Some(h) => h,
        None => {
            return None;
        }
    };
    let mut c = [0u8; 32];
    let mut i: usize = 0;
    while i < 32
        invariant
            h@.len() == 64,
            h@ == blake2b_of(body@),
            i <= 32,
            forall|j: int| 0 <= j < i ==> c@[j] == h@[j],
        decreases 32 - i,
    {
        c[i] = h[i];
        i = i + 1;
    }
    assert(c@ =~= blake2b_of(body@).take(32));
    Some(c)
}

} // verus!
