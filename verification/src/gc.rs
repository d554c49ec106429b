//! Counters reported by one garbage-collection run.

use vstd::prelude::*;

verus! {

/// Totals of one mark-and-sweep run over a store.
pub struct GarbageCollectionStatus {
    /// Identifier of the task that ran the collection.
    pub upid: Option<String>,
    /// Index files walked during the mark phase.
    pub index_file_count: usize,
    /// Logical bytes the walked indexes describe.
    pub index_data_bytes: u64,
    /// Bytes of chunk files kept past the pending window.
    pub disk_bytes: u64,
    /// Chunk files kept past the pending window.
    pub disk_chunks: usize,
    /// Bytes of chunk files removed by the sweep.
    pub removed_bytes: u64,
    /// Chunk files removed by the sweep.
    pub removed_chunks: usize,
    /// Bytes of chunk files inside the safety window, kept for a later run.
    pub pending_bytes: u64,
    /// Chunk files inside the safety window, kept for a later run.
    pub pending_chunks: usize,
    /// Corrupt chunk files removed by the sweep.
    pub removed_bad: usize,
    /// Corrupt chunk files still present after the sweep.
    pub still_bad: usize,
}

impl GarbageCollectionStatus {
    /// All counters zero, no task named.
    pub fn empty() -> (r: GarbageCollectionStatus)
        ensures
            r.upid is None,
            r.index_file_count == 0,
            r.index_data_bytes == 0,
            r.disk_bytes == 0,
            r.disk_chunks == 0,
            r.removed_bytes == 0,
            r.removed_chunks == 0,
            r.pending_bytes == 0,
            r.pending_chunks == 0,
            r.removed_bad == 0,
            r.still_bad == 0,
    {
        GarbageCollectionStatus {
            upid: None,
            index_file_count: 0,
            index_data_bytes: 0,
            disk_bytes: 0,
            disk_chunks: 0,
            removed_bytes: 0,
            removed_chunks: 0,
            pending_bytes: 0,
            pending_chunks: 0,
            removed_bad: 0,
            still_bad: 0,
        }
    }

    /// An identical copy of the counters.
    pub fn clone_status(&self) -> (r: GarbageCollectionStatus)
        ensures
            r.upid is Some <==> self.upid is Some,
            r.upid matches Some(u) ==> u@ == self.upid->Some_0@,
            r.index_file_count == self.index_file_count,
            r.index_data_bytes == self.index_data_bytes,
            r.disk_bytes == self.disk_bytes,
            r.disk_chunks == self.disk_chunks,
            r.removed_bytes == self.removed_bytes,
            r.removed_chunks == self.removed_chunks,
            r.pending_bytes == self.pending_bytes,
            r.pending_chunks == self.pending_chunks,
            r.removed_bad == self.removed_bad,
            r.still_bad == self.still_bad,
    {
        let upid = match &self.upid {
            Some(s) => {
                let c = s.clone();
                assert(c@ == s@);
                Some(c)
            }
            None => None,
        };
        let r = GarbageCollectionStatus {
            upid,
            index_file_count: self.index_file_count,
            index_data_bytes: self.index_data_bytes,
            disk_bytes: self.disk_bytes,
            disk_chunks: self.disk_chunks,
            removed_bytes: self.removed_bytes,
            removed_chunks: self.removed_chunks,
            pending_bytes: self.pending_bytes,
            pending_chunks: self.pending_chunks,
            removed_bad: self.removed_bad,
            still_bad: self.still_bad,
        };
        r
    }
}

impl Default for GarbageCollectionStatus {
    /// All counters zero, no task named.
    fn default() -> (r: GarbageCollectionStatus)
        ensures
            r.upid is None,
            r.index_file_count == 0,
            r.index_data_bytes == 0,
            r.disk_bytes == 0,
            r.disk_chunks == 0,
            r.removed_bytes == 0,
            r.removed_chunks == 0,
            r.pending_bytes == 0,
            r.pending_chunks == 0,
            r.removed_bad == 0,
            r.still_bad == 0,
    {
        GarbageCollectionStatus::empty()
    }
}

} // verus!
