//! One configured datastore: its chunk store, its tree of groups and
//! snapshots, and the collector that ties them together.
//!
//! The directory tree is carried here as explicit state: each
//! group with its owner and lock, each snapshot with its time, protection
//! marker, committed index files and manifest. Every operation of the
//! on-disk layout — creating and locking groups and snapshots,
//! removing them, protecting them, sealing manifests, inserting and
//! loading chunks, and the mark-and-sweep collection — is a verified
//! transition on this state. The shell mirrors the transitions to disk.

use vstd::prelude::*;

use crate::backup_info::{check_backup_owner, owner_allows, spec_ends_with, str_ends_with, Authid, AuthidView, BackupDir, BackupGroup};
use crate::blob::{blob_decodes_to, DataBlob};
use crate::chunk_store::{
    chunk_data, has_chunk, spec_insert_chunk, store_consistent, ChunkStore, ChunkStoreView,
    ChunkView, GuardView,
};
use crate::crypto::sha256_of;
use crate::digest::hex_str_of;
use crate::dynamic_index::{DynamicIndexReader, DynamicIndexView, DynamicIndexWriter};
use crate::error::StoreError;
use crate::fixed_index::{FixedIndexReader, FixedIndexView, FixedIndexWriter};
use crate::gc::GarbageCollectionStatus;
use crate::manifest::{BackupManifest, ManifestView};
use crate::time::rfc3339_str;

verus! {

/// How the collector orders chunks handed to verification.
#[derive(Clone, Copy, Debug, PartialEq, Eq, Structural)]
pub enum ChunkOrder {
    /// In index order.
    Unordered,
    /// Sorted by inode number on disk.
    Inode,
}

/// The content of one file inside a snapshot directory.
pub enum FileData {
    /// A fixed index, `.fidx`.
    Fixed(FixedIndexReader),
    /// A dynamic index, `.didx`.
    Dynamic(DynamicIndexReader),
    /// A framed blob, `.blob`.
    Blob(Vec<u8>),
}

/// Ghost image of a snapshot file's content.
pub enum FileDataView {
    Fixed(FixedIndexView),
    Dynamic(DynamicIndexView),
    Blob(Seq<u8>),
}

impl View for FileData {
    type V = FileDataView;

    open spec fn view(&self) -> FileDataView {
        match self {
            FileData::Fixed(idx) => FileDataView::Fixed(idx@),
            FileData::Dynamic(idx) => FileDataView::Dynamic(idx@),
            FileData::Blob(raw) => FileDataView::Blob(raw@),
        }
    }
}

/// One named file of a snapshot.
pub struct SnapshotFile {
    name: String,
    data: FileData,
}

/// Ghost image of one snapshot file.
pub struct FileView {
    pub name: Seq<char>,
    pub data: FileDataView,
}

impl View for SnapshotFile {
    type V = FileView;

    closed spec fn view(&self) -> FileView {
        FileView { name: self.name@, data: self.data@ }
    }
}

/// One snapshot directory.
pub struct Snapshot {
    backup_time: i64,
    protected: bool,
    locked: bool,
    manifest: Option<BackupManifest>,
    files: Vec<SnapshotFile>,
}

/// Ghost image of one snapshot.
pub struct SnapshotView {
    pub time: int,
    pub protected: bool,
    pub locked: bool,
    pub manifest: Option<ManifestView>,
    pub files: Seq<FileView>,
}

impl View for Snapshot {
    type V = SnapshotView;

    closed spec fn view(&self) -> SnapshotView {
        SnapshotView {
            time: self.backup_time as int,
            protected: self.protected,
            locked: self.locked,
            manifest: match self.manifest {
                Some(ref m) => Some(m@),
                None => None,
            },
            files: self.files@.map_values(|f: SnapshotFile| f@),
        }
    }
}

/// One group directory.
pub struct Group {
    backup_type: String,
    backup_id: String,
    owner: Option<Authid>,
    locked: bool,
    snapshots: Vec<Snapshot>,
}

/// Ghost image of one group.
pub struct GroupEntryView {
    pub ty: Seq<char>,
    pub id: Seq<char>,
    pub owner: Option<AuthidView>,
    pub locked: bool,
    pub snapshots: Seq<SnapshotView>,
}

impl View for Group {
    type V = GroupEntryView;

    closed spec fn view(&self) -> GroupEntryView {
        GroupEntryView {
            ty: self.backup_type@,
            id: self.backup_id@,
            owner: match self.owner {
                Some(ref o) => Some(o@),
                None => None,
            },
            locked: self.locked,
            snapshots: self.snapshots@.map_values(|s: Snapshot| s@),
        }
    }
}

/// Ghost image of a whole datastore.
pub struct DataStoreView {
    pub store: ChunkStoreView,
    pub groups: Seq<GroupEntryView>,
    pub gc_running: bool,
    pub verify_new: bool,
    pub chunk_order: ChunkOrder,
    pub last_gc: GarbageCollectionStatus,
}

/// Whether a group with the name exists.
pub open spec fn has_group(gs: Seq<GroupEntryView>, ty: Seq<char>, id: Seq<char>) -> bool {
    exists|i: int| 0 <= i < gs.len() && gs[i].ty == ty && gs[i].id == id
}

/// The position of the group with the name.
pub open spec fn group_idx(gs: Seq<GroupEntryView>, ty: Seq<char>, id: Seq<char>) -> int {
    choose|i: int| 0 <= i < gs.len() && gs[i].ty == ty && gs[i].id == id
}

/// Whether a snapshot with the time exists.
pub open spec fn has_snapshot(ss: Seq<SnapshotView>, t: int) -> bool {
    exists|i: int| 0 <= i < ss.len() && ss[i].time == t
}

/// The position of the snapshot with the time.
pub open spec fn snapshot_idx(ss: Seq<SnapshotView>, t: int) -> int {
    choose|i: int| 0 <= i < ss.len() && ss[i].time == t
}

/// Whether a snapshot holds a file with the name.
pub open spec fn has_file(fs: Seq<FileView>, name: Seq<char>) -> bool {
    exists|i: int| 0 <= i < fs.len() && fs[i].name == name
}

/// The position of the file with the name.
pub open spec fn file_idx(fs: Seq<FileView>, name: Seq<char>) -> int {
    choose|i: int| 0 <= i < fs.len() && fs[i].name == name
}

/// No two groups share a name.
pub open spec fn groups_unique(gs: Seq<GroupEntryView>) -> bool {
    forall|i: int, j: int|
        0 <= i < j < gs.len() ==> !(gs[i].ty == gs[j].ty && gs[i].id == gs[j].id)
}

/// No two snapshots of a group share a time.
pub open spec fn snapshots_unique(ss: Seq<SnapshotView>) -> bool {
    forall|i: int, j: int| 0 <= i < j < ss.len() ==> ss[i].time != ss[j].time
}

/// No two files of a snapshot share a name.
pub open spec fn files_unique(fs: Seq<FileView>) -> bool {
    forall|i: int, j: int| 0 <= i < j < fs.len() ==> fs[i].name != fs[j].name
}

/// Whether a file name's extension names its content's kind: `.fidx`
/// for fixed indexes, `.didx` for dynamic ones, neither for blobs.
pub open spec fn name_matches_kind(name: Seq<char>, d: FileDataView) -> bool {
    match d {
        FileDataView::Fixed(_) => spec_ends_with(name, ".fidx"@),
        FileDataView::Dynamic(_) => spec_ends_with(name, ".didx"@),
        FileDataView::Blob(_) => !spec_ends_with(name, ".fidx"@) && !spec_ends_with(
            name,
            ".didx"@,
        ),
    }
}

/// Whether a snapshot holds the file a manifest entry lists, with the
/// recorded checksum and size where the file is an index.
pub open spec fn manifest_entry_matches(
    fs: Seq<FileView>,
    e: crate::manifest::FileInfoView,
) -> bool {
    has_file(fs, e.filename) && match fs[file_idx(fs, e.filename)].data {
        FileDataView::Fixed(v) => v.csum == e.csum && v.size == e.size,
        FileDataView::Dynamic(v) => v.csum == e.csum && crate::dynamic_index::entries_size(
            v.entries,
        ) == e.size,
        FileDataView::Blob(_) => true,
    }
}

/// Whether a snapshot supplies every file a manifest lists.
pub open spec fn manifest_matches(fs: Seq<FileView>, mf: Seq<crate::manifest::FileInfoView>) -> bool {
    forall|i: int| 0 <= i < mf.len() ==> manifest_entry_matches(fs, #[trigger] mf[i])
}

/// A file's content is well formed.
pub open spec fn file_data_wf(d: FileDataView) -> bool {
    match d {
        FileDataView::Fixed(v) => v.wf(),
        FileDataView::Dynamic(v) => v.wf(),
        FileDataView::Blob(_) => true,
    }
}

/// A snapshot's files are unique and well formed.
pub open spec fn snapshot_wf(s: SnapshotView) -> bool {
    &&& files_unique(s.files)
    &&& forall|i: int| 0 <= i < s.files.len() ==> file_data_wf((#[trigger] s.files[i]).data)
}

/// A group's snapshots have unique times and are well formed.
pub open spec fn group_wf(g: GroupEntryView) -> bool {
    &&& snapshots_unique(g.snapshots)
    &&& forall|i: int| 0 <= i < g.snapshots.len() ==> snapshot_wf(#[trigger] g.snapshots[i])
}

/// The whole tree is well formed.
pub open spec fn groups_wf(gs: Seq<GroupEntryView>) -> bool {
    &&& groups_unique(gs)
    &&& forall|i: int| 0 <= i < gs.len() ==> group_wf(#[trigger] gs[i])
}

/// One configured datastore.
pub struct DataStore {
    chunk_store: ChunkStore,
    groups: Vec<Group>,
    gc_running: bool,
    last_gc_status: GarbageCollectionStatus,
    verify_new: bool,
    chunk_order: ChunkOrder,
}

impl View for DataStore {
    type V = DataStoreView;

    closed spec fn view(&self) -> DataStoreView {
        DataStoreView {
            store: self.chunk_store@,
            groups: self.groups@.map_values(|g: Group| g@),
            gc_running: self.gc_running,
            verify_new: self.verify_new,
            chunk_order: self.chunk_order,
            last_gc: self.last_gc_status,
        }
    }
}

impl DataStore {
    /// The store's configured name.
    pub closed spec fn spec_name(&self) -> Seq<char> {
        self.chunk_store.spec_name()
    }

    /// The store's base directory.
    pub closed spec fn spec_path(&self) -> Seq<char> {
        self.chunk_store.spec_path()
    }

    /// The chunk store and the tree are well formed.
    pub open spec fn wf(&self) -> bool {
        &&& crate::chunk_store::store_wf(self@.store)
        &&& groups_wf(self@.groups)
    }

    /// A new datastore with an empty chunk store and no groups.
    pub fn create(name: String, path: String, verify_new: bool, chunk_order: ChunkOrder) -> (r:
        DataStore)
        ensures
            r.wf(),
            r.spec_name() == name@,
            r.spec_path() == path@,
            r@.groups == Seq::<GroupEntryView>::empty(),
            r@.store.chunks == Seq::<ChunkView>::empty(),
            r@.store.bad.len() == 0,
            r@.store.writers.len() == 0,
            !r@.store.exclusive,
            !r@.gc_running,
            r@.verify_new == verify_new,
            r@.chunk_order == chunk_order,
            store_consistent(r@.store.chunks),
    {
        let r = DataStore {
            chunk_store: ChunkStore::create(name, path),
            groups: Vec::new(),
            gc_running: false,
            last_gc_status: GarbageCollectionStatus::empty(),
            verify_new,
            chunk_order,
        };
        proof {
            assert(r@.groups =~= Seq::<GroupEntryView>::empty());
        }
        r
    }

    /// The store's configured name.
    pub fn name(&self) -> (r: &str)
        ensures
            r@ == self.spec_name(),
    {
        self.chunk_store.name()
    }

    /// The store's base directory.
    pub fn base_path(&self) -> (r: String)
        ensures
            r@ == self.spec_path(),
    {
        self.chunk_store.base_path()
    }

    /// Whether new backups are verified right after they finish.
    pub fn verify_new(&self) -> (r: bool)
        ensures
            r == self@.verify_new,
    {
        self.verify_new
    }

    /// How the collector orders chunks for verification.
    pub fn chunk_order(&self) -> (r: ChunkOrder)
        ensures
            r == self@.chunk_order,
    {
        self.chunk_order
    }

    /// Counters of the last collection.
    pub fn last_gc_status(&self) -> (r: GarbageCollectionStatus)
        ensures
            r.index_file_count == self@.last_gc.index_file_count,
            r.index_data_bytes == self@.last_gc.index_data_bytes,
            r.disk_bytes == self@.last_gc.disk_bytes,
            r.disk_chunks == self@.last_gc.disk_chunks,
            r.removed_bytes == self@.last_gc.removed_bytes,
            r.removed_chunks == self@.last_gc.removed_chunks,
            r.pending_bytes == self@.last_gc.pending_bytes,
            r.pending_chunks == self@.last_gc.pending_chunks,
            r.removed_bad == self@.last_gc.removed_bad,
            r.still_bad == self@.last_gc.still_bad,
    {
        self.last_gc_status.clone_status()
    }

    /// Whether a collection is running.
    pub fn garbage_collection_running(&self) -> (r: bool)
        ensures
            r == self@.gc_running,
    {
        self.gc_running
    }

    /// The absolute directory of a group.
    pub fn group_path(&self, backup_group: &BackupGroup) -> (r: String)
        ensures
            r@ == self.spec_path() + "/"@ + backup_group@.ty + "/"@ + backup_group@.id,
    {
        let mut r = self.chunk_store.base_path();
        r.append("/");
        r.append(backup_group.backup_type());
        r.append("/");
        r.append(backup_group.backup_id());
        r
    }

    /// The absolute directory of a snapshot.
    pub fn snapshot_path(&self, backup_dir: &BackupDir) -> (r: Result<String, StoreError>)
        ensures
            r matches Ok(s) ==> s@ == self.spec_path() + "/"@ + backup_dir@.group.ty + "/"@
                + backup_dir@.group.id + "/"@ + rfc3339_str(backup_dir@.time),
            r matches Err(e) ==> e == StoreError::Protocol,
    {
        let rel = backup_dir.relative_path()?;
        let mut r = self.chunk_store.base_path();
        r.append("/");
        r.append(rel.as_str());
        Ok(r)
    }

    /// Where the chunk with a digest lives, and its hexadecimal name.
    pub fn chunk_path(&self, digest: &[u8; 32]) -> (r: (String, String))
        ensures
            r.1@ == hex_str_of(digest@),
            r.0@ == self.spec_path() + "/.chunks/"@ + hex_str_of(digest@).take(4) + "/"@
                + hex_str_of(digest@),
    {
        self.chunk_store.chunk_path(digest)
    }

    /// Position of the group with a name.
    fn find_group(&self, backup_group: &BackupGroup) -> (r: Option<usize>)
        ensures
            r matches Some(i) ==> i < self@.groups.len() && self@.groups[i as int].ty
                == backup_group@.ty && self@.groups[i as int].id == backup_group@.id,
            r is None <==> !has_group(self@.groups, backup_group@.ty, backup_group@.id),
    {
        let n = self.groups.len();
        let mut i: usize = 0;
        while i < n
            invariant
                n == self@.groups.len(),
                i <= n,
                forall|j: int|
                    0 <= j < i ==> !((#[trigger] self@.groups[j]).ty == backup_group@.ty
                        && self@.groups[j].id == backup_group@.id),
            decreases n - i,
        {
            if self.groups[i].backup_type.as_str().eq(backup_group.backup_type())
                && self.groups[i].backup_id.as_str().eq(backup_group.backup_id()) {
                return Some(i);
            }
            i = i + 1;
        }
        None
    }

    /// Position of a snapshot inside a group.
    fn find_snapshot(&self, gi: usize, backup_time: i64) -> (r: Option<usize>)
        requires
            gi < self@.groups.len(),
        ensures
            r matches Some(i) ==> i < self@.groups[gi as int].snapshots.len()
                && self@.groups[gi as int].snapshots[i as int].time == backup_time,
            r is None <==> !has_snapshot(self@.groups[gi as int].snapshots, backup_time as int),
    {
        let n = self.groups[gi].snapshots.len();
        let mut i: usize = 0;
        while i < n
            invariant
                gi < self@.groups.len(),
                n == self@.groups[gi as int].snapshots.len(),
                i <= n,
                forall|j: int|
                    0 <= j < i ==> (#[trigger] self@.groups[gi as int].snapshots[j]).time
                        != backup_time,
            decreases n - i,
        {
            if self.groups[gi].snapshots[i].backup_time == backup_time {
                return Some(i);
            }
            i = i + 1;
        }
        None
    }

    /// The owner of a group: the identity its `owner` file names.
    pub fn get_owner(&self, backup_group: &BackupGroup) -> (r: Result<Authid, StoreError>)
        requires
            self.wf(),
        ensures
            ({
                let gs = self@.groups;
                let gv = gs[group_idx(gs, backup_group@.ty, backup_group@.id)];
                &&& (r is Ok <==> has_group(gs, backup_group@.ty, backup_group@.id)
                    && gv.owner is Some)
                &&& (r matches Ok(o) ==> Some(o@) == gv.owner)
                &&& (r matches Err(e) ==> e == StoreError::NotFound)
            }),
    {
        match self.find_group(backup_group) {
            Some(gi) => {
                proof {
                    lemma_group_idx_unique(self@.groups, backup_group@.ty, backup_group@.id,
                        gi as int);
                }
                match &self.groups[gi].owner {
                    Some(o) => Ok(o.clone_id()),
                    None => Err(StoreError::NotFound),
                }
            }
            None => Err(StoreError::NotFound),
        }
    }

    /// Record a group's owner: refused when one is already named, unless
    /// forced.
    pub fn set_owner(&mut self, backup_group: &BackupGroup, auth_id: &Authid, force: bool) -> (r:
        Result<(), StoreError>)
        requires
            old(self).wf(),
        ensures
            final(self).wf(),
            final(self).spec_name() == old(self).spec_name(),
            final(self).spec_path() == old(self).spec_path(),
            ({
                let gs = old(self)@.groups;
                let gi = group_idx(gs, backup_group@.ty, backup_group@.id);
                &&& (r is Ok <==> has_group(gs, backup_group@.ty, backup_group@.id) && (force
                    || gs[gi].owner is None))
                &&& (r is Ok ==> final(self)@ == (DataStoreView {
                    groups: gs.update(
                        gi,
                        GroupEntryView { owner: Some(auth_id@), ..gs[gi] },
                    ),
                    ..old(self)@
                }))
                &&& (r is Err ==> final(self)@ == old(self)@)
                &&& (r matches Err(e) ==> (e == StoreError::NotFound && !has_group(
                    gs,
                    backup_group@.ty,
                    backup_group@.id,
                )) || (e == StoreError::AlreadyExists && has_group(
                    gs,
                    backup_group@.ty,
                    backup_group@.id,
                ) && gs[gi].owner is Some && !force))
            }),
    {
        let ghost old_view = self@;
        match self.find_group(backup_group) {
            Some(gi) => {
                proof {
                    lemma_group_idx_unique(self@.groups, backup_group@.ty, backup_group@.id,
                        gi as int);
                }
                let has_owner = self.groups[gi].owner.is_some();
                if has_owner && !force {
                    return Err(StoreError::AlreadyExists);
                }
                let g = vstd::std_specs::vec::vec_index_mut(&mut self.groups, gi);
                g.owner = Some(auth_id.clone_id());
                proof {
                    assert(self@.groups =~= old_view.groups.update(
                        gi as int,
                        GroupEntryView { owner: Some(auth_id@), ..old_view.groups[gi as int] },
                    ));
                    assert(self@ == (DataStoreView { groups: self@.groups, ..old_view }));
                    lemma_groups_wf_update(old_view.groups, gi as int, self@.groups[gi as int]);
                }
                Ok(())
            }
            None => Err(StoreError::NotFound),
        }
    }

    /// Whether an identity owns a group, directly or through a token.
    pub fn owns_backup(&self, backup_group: &BackupGroup, auth_id: &Authid) -> (r: Result<
        bool,
        StoreError,
    >)
        requires
            self.wf(),
        ensures
            ({
                let gs = self@.groups;
                let gv = gs[group_idx(gs, backup_group@.ty, backup_group@.id)];
                &&& (r is Ok <==> has_group(gs, backup_group@.ty, backup_group@.id)
                    && gv.owner is Some)
                &&& (r matches Ok(b) ==> b == owner_allows(gv.owner->Some_0, auth_id@))
                &&& (r matches Err(e) ==> e == StoreError::NotFound)
            }),
    {
        let owner = self.get_owner(backup_group)?;
        match check_backup_owner(&owner, auth_id) {
            Ok(_) => Ok(true),
            Err(_) => Ok(false),
        }
    }

    /// Create a group if it is missing, lock it for a session, and
    /// return its owner: a fresh group is owned by the caller, an
    /// existing one keeps the owner it had.
    pub fn create_locked_backup_group(&mut self, backup_group: &BackupGroup, auth_id: &Authid) -> (r:
        Result<Authid, StoreError>)
        requires
            old(self).wf(),
        ensures
            final(self).wf(),
            final(self).spec_name() == old(self).spec_name(),
            final(self).spec_path() == old(self).spec_path(),
            ({
                let gs = old(self)@.groups;
                let ty = backup_group@.ty;
                let id = backup_group@.id;
                let gi = group_idx(gs, ty, id);
                &&& (!has_group(gs, ty, id) ==> r is Ok && r->Ok_0@ == auth_id@ && final(self)@
                    == (DataStoreView {
                    groups: gs.push(
                        GroupEntryView {
                            ty: ty,
                            id: id,
                            owner: Some(auth_id@),
                            locked: true,
                            snapshots: Seq::empty(),
                        },
                    ),
                    ..old(self)@
                }))
                &&& (has_group(gs, ty, id) && gs[gi].locked ==> r is Err && r->Err_0
                    == StoreError::Conflict && final(self)@ == old(self)@)
                &&& (has_group(gs, ty, id) && !gs[gi].locked && gs[gi].owner is None ==> r is Err
                    && r->Err_0 == StoreError::NotFound && final(self)@ == old(self)@)
                &&& (has_group(gs, ty, id) && !gs[gi].locked && gs[gi].owner is Some ==> r is Ok
                    && Some(r->Ok_0@) == gs[gi].owner && final(self)@ == (DataStoreView {
                    groups: gs.update(gi, GroupEntryView { locked: true, ..gs[gi] }),
                    ..old(self)@
                }))
            }),
    {
        let ghost old_view = self@;
        match self.find_group(backup_group) {
            Some(gi) => {
                proof {
                    lemma_group_idx_unique(self@.groups, backup_group@.ty, backup_group@.id,
                        gi as int);
                }
                if self.groups[gi].locked {
                    return Err(StoreError::Conflict);
                }
                let owner = match &self.groups[gi].owner {
                    Some(o) => o.clone_id(),
                    None => {
                        return Err(StoreError::NotFound);
                    }
                };
                let g = vstd::std_specs::vec::vec_index_mut(&mut self.groups, gi);
                g.locked = true;
                proof {
                    assert(self@.groups =~= old_view.groups.update(
                        gi as int,
                        GroupEntryView { locked: true, ..old_view.groups[gi as int] },
                    ));
                    assert(self@ == (DataStoreView { groups: self@.groups, ..old_view }));
                    lemma_groups_wf_update(old_view.groups, gi as int, self@.groups[gi as int]);
                }
                Ok(owner)
            }
            None => {
                let group = Group {
                    backup_type: String::from_str(backup_group.backup_type()),
                    backup_id: String::from_str(backup_group.backup_id()),
                    owner: Some(auth_id.clone_id()),
                    locked: true,
                    snapshots: Vec::new(),
                };
                proof {
                    assert(group@.snapshots =~= Seq::<SnapshotView>::empty());
                }
                self.groups.push(group);
                proof {
                    assert(self@.groups =~= old_view.groups.push(
                        GroupEntryView {
                            ty: backup_group@.ty,
                            id: backup_group@.id,
                            owner: Some(auth_id@),
                            locked: true,
                            snapshots: Seq::empty(),
                        },
                    ));
                    assert(self@ == (DataStoreView { groups: self@.groups, ..old_view }));
                    assert(groups_wf(self@.groups)) by {
                        let gs = self@.groups;
                        assert forall|a: int, b: int|
                            0 <= a < b < gs.len() implies !(gs[a].ty == gs[b].ty && gs[a].id
                            == gs[b].id) by {
                            if b < gs.len() - 1 {
                                assert(gs[a] == old_view.groups[a]);
                                assert(gs[b] == old_view.groups[b]);
                            } else {
                                assert(gs[a] == old_view.groups[a]);
                            }
                        }
                        assert forall|a: int| 0 <= a < gs.len() implies group_wf(
                            #[trigger] gs[a],
                        ) by {
                            if a < gs.len() - 1 {
                                assert(gs[a] == old_view.groups[a]);
                            }
                        }
                    }
                }
                Ok(auth_id.clone_id())
            }
        }
    }

    /// Give a group's session lock back.
    pub fn release_group_lock(&mut self, backup_group: &BackupGroup)
        requires
            old(self).wf(),
        ensures
            final(self).wf(),
            final(self).spec_name() == old(self).spec_name(),
            final(self).spec_path() == old(self).spec_path(),
            ({
                let gs = old(self)@.groups;
                let gi = group_idx(gs, backup_group@.ty, backup_group@.id);
                &&& (has_group(gs, backup_group@.ty, backup_group@.id) ==> final(self)@
                    == (DataStoreView {
                    groups: gs.update(gi, GroupEntryView { locked: false, ..gs[gi] }),
                    ..old(self)@
                }))
                &&& (!has_group(gs, backup_group@.ty, backup_group@.id) ==> final(self)@ == old(
                    self,
                )@)
            }),
    {
        let ghost old_view = self@;
        match self.find_group(backup_group) {
            Some(gi) => {
                proof {
                    lemma_group_idx_unique(self@.groups, backup_group@.ty, backup_group@.id,
                        gi as int);
                }
                let g = vstd::std_specs::vec::vec_index_mut(&mut self.groups, gi);
                g.locked = false;
                proof {
                    assert(self@.groups =~= old_view.groups.update(
                        gi as int,
                        GroupEntryView { locked: false, ..old_view.groups[gi as int] },
                    ));
                    assert(self@ == (DataStoreView { groups: self@.groups, ..old_view }));
                    lemma_groups_wf_update(old_view.groups, gi as int, self@.groups[gi as int]);
                }
            }
            None => {}
        }
    }
}

/// With unique names, a matching position is the chosen one.
pub proof fn lemma_group_idx_unique(gs: Seq<GroupEntryView>, ty: Seq<char>, id: Seq<char>, i: int)
    requires
        groups_unique(gs),
        0 <= i < gs.len(),
        gs[i].ty == ty,
        gs[i].id == id,
    ensures
        has_group(gs, ty, id),
        group_idx(gs, ty, id) == i,
{
    assert(has_group(gs, ty, id));
    let j = group_idx(gs, ty, id);
    if j != i {
        if j < i {
            assert(!(gs[j].ty == gs[i].ty && gs[j].id == gs[i].id));
        } else {
            assert(!(gs[i].ty == gs[j].ty && gs[i].id == gs[j].id));
        }
    }
}

/// With unique times, a matching position is the chosen one.
pub proof fn lemma_snapshot_idx_unique(ss: Seq<SnapshotView>, t: int, i: int)
    requires
        snapshots_unique(ss),
        0 <= i < ss.len(),
        ss[i].time == t,
    ensures
        has_snapshot(ss, t),
        snapshot_idx(ss, t) == i,
{
    assert(has_snapshot(ss, t));
    let j = snapshot_idx(ss, t);
    if j != i {
        if j < i {
            assert(ss[j].time != ss[i].time);
        } else {
            assert(ss[i].time != ss[j].time);
        }
    }
}

/// Updating one group keeps the tree well formed when the update keeps
/// the group's name and its own shape.
pub proof fn lemma_groups_wf_update(gs: Seq<GroupEntryView>, i: int, g: GroupEntryView)
    requires
        groups_wf(gs),
        0 <= i < gs.len(),
        g.ty == gs[i].ty,
        g.id == gs[i].id,
        group_wf(g),
    ensures
        groups_wf(gs.update(i, g)),
{
    let t = gs.update(i, g);
    assert forall|a: int, b: int|
        0 <= a < b < t.len() implies !(t[a].ty == t[b].ty && t[a].id == t[b].id) by {
        assert(t[a].ty == gs[a].ty && t[a].id == gs[a].id);
        assert(t[b].ty == gs[b].ty && t[b].id == gs[b].id);
    }
    assert forall|a: int| 0 <= a < t.len() implies group_wf(#[trigger] t[a]) by {
        if a != i {
            assert(t[a] == gs[a]);
        }
    }
}

/// Updating one snapshot keeps a group well formed when the update keeps
/// the snapshot's time and its own shape.
pub proof fn lemma_group_wf_snapshot_update(g: GroupEntryView, si: int, s: SnapshotView)
    requires
        group_wf(g),
        0 <= si < g.snapshots.len(),
        s.time == g.snapshots[si].time,
        snapshot_wf(s),
    ensures
        group_wf(GroupEntryView { snapshots: g.snapshots.update(si, s), ..g }),
{
    let t = g.snapshots.update(si, s);
    assert forall|a: int, b: int| 0 <= a < b < t.len() implies t[a].time != t[b].time by {
        assert(t[a].time == g.snapshots[a].time);
        assert(t[b].time == g.snapshots[b].time);
    }
    assert forall|a: int| 0 <= a < t.len() implies snapshot_wf(#[trigger] t[a]) by {
        if a != si {
            assert(t[a] == g.snapshots[a]);
        }
    }
}

/// Removing one snapshot keeps a group well formed.
pub proof fn lemma_group_wf_snapshot_remove(g: GroupEntryView, si: int)
    requires
        group_wf(g),
        0 <= si < g.snapshots.len(),
    ensures
        group_wf(GroupEntryView { snapshots: g.snapshots.remove(si), ..g }),
{
    let t = g.snapshots.remove(si);
    assert forall|a: int, b: int| 0 <= a < b < t.len() implies t[a].time != t[b].time by {
        let oa = if a < si { a } else { a + 1 };
        let ob = if b < si { b } else { b + 1 };
        assert(t[a] == g.snapshots[oa]);
        assert(t[b] == g.snapshots[ob]);
    }
    assert forall|a: int| 0 <= a < t.len() implies snapshot_wf(#[trigger] t[a]) by {
        let oa = if a < si { a } else { a + 1 };
        assert(t[a] == g.snapshots[oa]);
    }
}

impl DataStore {
    /// Create a snapshot directory if it is missing and lock it for its
    /// one writing session; re-entry on an existing unlocked directory
    /// reports that it was already there.
    pub fn create_locked_backup_dir(&mut self, backup_dir: &BackupDir) -> (r: Result<
        (String, bool),
        StoreError,
    >)
        requires
            old(self).wf(),
        ensures
            final(self).wf(),
            final(self).spec_name() == old(self).spec_name(),
            final(self).spec_path() == old(self).spec_path(),
            ({
                let gs = old(self)@.groups;
                let ty = backup_dir@.group.ty;
                let id = backup_dir@.group.id;
                let t = backup_dir@.time;
                let gi = group_idx(gs, ty, id);
                let ss = gs[gi].snapshots;
                let si = snapshot_idx(ss, t);
                &&& (r is Err ==> final(self)@ == old(self)@)
                &&& (!has_group(gs, ty, id) ==> r is Err && r->Err_0 == StoreError::NotFound)
                &&& (has_group(gs, ty, id) && !(0 <= t && crate::time::year_of_epoch(t) <= 9999)
                    ==> r is Err && r->Err_0 == StoreError::Protocol)
                &&& (has_group(gs, ty, id) && 0 <= t && crate::time::year_of_epoch(t) <= 9999
                    ==> {
                    &&& (has_snapshot(ss, t) && ss[si].locked ==> r is Err && r->Err_0
                        == StoreError::Conflict)
                    &&& (has_snapshot(ss, t) && !ss[si].locked ==> r is Ok && !r->Ok_0.1
                        && final(self)@ == (DataStoreView {
                        groups: gs.update(
                            gi,
                            GroupEntryView {
                                snapshots: ss.update(
                                    si,
                                    SnapshotView { locked: true, ..ss[si] },
                                ),
                                ..gs[gi]
                            },
                        ),
                        ..old(self)@
                    }))
                    &&& (!has_snapshot(ss, t) ==> r is Ok && r->Ok_0.1 && final(self)@
                        == (DataStoreView {
                        groups: gs.update(
                            gi,
                            GroupEntryView {
                                snapshots: ss.push(
                                    SnapshotView {
                                        time: t,
                                        protected: false,
                                        locked: true,
                                        manifest: None,
                                        files: Seq::empty(),
                                    },
                                ),
                                ..gs[gi]
                            },
                        ),
                        ..old(self)@
                    }))
                    &&& (r matches Ok(p) ==> p.0@ == ty + "/"@ + id + "/"@ + rfc3339_str(t))
                })
            }),
    {
        let ghost old_view = self@;
        let gi = match self.find_group(backup_dir.group()) {
            Some(gi) => gi,
            None => {
                return Err(StoreError::NotFound);
            }
        };
        proof {
            lemma_group_idx_unique(self@.groups, backup_dir@.group.ty, backup_dir@.group.id,
                gi as int);
        }
        let rel_path = backup_dir.relative_path()?;
        let ghost old_g = self@.groups[gi as int];
        match self.find_snapshot(gi, backup_dir.backup_time()) {
            Some(si) => {
                proof {
                    lemma_snapshot_idx_unique(old_g.snapshots, backup_dir@.time, si as int);
                }
                if self.groups[gi].snapshots[si].locked {
                    return Err(StoreError::Conflict);
                }
                let g = vstd::std_specs::vec::vec_index_mut(&mut self.groups, gi);
                let s = vstd::std_specs::vec::vec_index_mut(&mut g.snapshots, si);
                s.locked = true;
                proof {
                    assert(self@.groups[gi as int].snapshots =~= old_g.snapshots.update(
                        si as int,
                        SnapshotView { locked: true, ..old_g.snapshots[si as int] },
                    ));
                    assert(self@.groups[gi as int] == (GroupEntryView {
                        snapshots: self@.groups[gi as int].snapshots,
                        ..old_g
                    }));
                    assert(self@.groups =~= old_view.groups.update(
                        gi as int,
                        self@.groups[gi as int],
                    ));
                    assert(self@ == (DataStoreView { groups: self@.groups, ..old_view }));
                    lemma_group_wf_snapshot_update(
                        old_g,
                        si as int,
                        SnapshotView { locked: true, ..old_g.snapshots[si as int] },
                    );
                    lemma_groups_wf_update(old_view.groups, gi as int, self@.groups[gi as int]);
                }
                Ok((rel_path, false))
            }
            None => {
                let snap = Snapshot {
                    backup_time: backup_dir.backup_time(),
                    protected: false,
                    locked: true,
                    manifest: None,
                    files: Vec::new(),
                };
                proof {
                    assert(snap@.files =~= Seq::<FileView>::empty());
                    assert(snap@ == (SnapshotView {
                        time: backup_dir@.time,
                        protected: false,
                        locked: true,
                        manifest: None,
                        files: Seq::empty(),
                    }));
                }
                let g = vstd::std_specs::vec::vec_index_mut(&mut self.groups, gi);
                g.snapshots.push(snap);
                proof {
                    let snew = SnapshotView {
                        time: backup_dir@.time,
                        protected: false,
                        locked: true,
                        manifest: None,
                        files: Seq::empty(),
                    };
                    assert(self@.groups[gi as int].snapshots =~= old_g.snapshots.push(snew));
                    assert(self@.groups[gi as int] == (GroupEntryView {
                        snapshots: self@.groups[gi as int].snapshots,
                        ..old_g
                    }));
                    assert(self@.groups =~= old_view.groups.update(
                        gi as int,
                        self@.groups[gi as int],
                    ));
                    assert(self@ == (DataStoreView { groups: self@.groups, ..old_view }));
                    assert(group_wf(self@.groups[gi as int])) by {
                        let ss = self@.groups[gi as int].snapshots;
                        assert forall|a: int, b: int|
                            0 <= a < b < ss.len() implies ss[a].time != ss[b].time by {
                            assert(ss[a] == old_g.snapshots[a]);
                            if b < ss.len() - 1 {
                                assert(ss[b] == old_g.snapshots[b]);
                            } else {
                                assert(!has_snapshot(old_g.snapshots, backup_dir@.time));
                            }
                        }
                        assert forall|a: int| 0 <= a < ss.len() implies snapshot_wf(
                            #[trigger] ss[a],
                        ) by {
                            if a < ss.len() - 1 {
                                assert(ss[a] == old_g.snapshots[a]);
                            } else {
                                assert(files_unique(ss[a].files));
                            }
                        }
                    }
                    lemma_groups_wf_update(old_view.groups, gi as int, self@.groups[gi as int]);
                }
                Ok((rel_path, true))
            }
        }
    }

    /// Give a snapshot's session lock back.
    pub fn release_snapshot_lock(&mut self, backup_dir: &BackupDir)
        requires
            old(self).wf(),
        ensures
            final(self).wf(),
            final(self).spec_name() == old(self).spec_name(),
            final(self).spec_path() == old(self).spec_path(),
            ({
                let gs = old(self)@.groups;
                let gi = group_idx(gs, backup_dir@.group.ty, backup_dir@.group.id);
                let ss = gs[gi].snapshots;
                let si = snapshot_idx(ss, backup_dir@.time);
                if has_group(gs, backup_dir@.group.ty, backup_dir@.group.id) && has_snapshot(
                    ss,
                    backup_dir@.time,
                ) {
                    final(self)@ == (DataStoreView {
                        groups: gs.update(
                            gi,
                            GroupEntryView {
                                snapshots: ss.update(
                                    si,
                                    SnapshotView { locked: false, ..ss[si] },
                                ),
                                ..gs[gi]
                            },
                        ),
                        ..old(self)@
                    })
                } else {
                    final(self)@ == old(self)@
                }
            }),
    {
        let ghost old_view = self@;
        let gi = match self.find_group(backup_dir.group()) {
            Some(gi) => gi,
            None => {
                return;
            }
        };
        proof {
            lemma_group_idx_unique(self@.groups, backup_dir@.group.ty, backup_dir@.group.id,
                gi as int);
        }
        let ghost old_g = self@.groups[gi as int];
        let si = match self.find_snapshot(gi, backup_dir.backup_time()) {
            Some(si) => si,
            None => {
                return;
            }
        };
        proof {
            lemma_snapshot_idx_unique(old_g.snapshots, backup_dir@.time, si as int);
        }
        let g = vstd::std_specs::vec::vec_index_mut(&mut self.groups, gi);
        let s = vstd::std_specs::vec::vec_index_mut(&mut g.snapshots, si);
        s.locked = false;
        proof {
            assert(self@.groups[gi as int].snapshots =~= old_g.snapshots.update(
                si as int,
                SnapshotView { locked: false, ..old_g.snapshots[si as int] },
            ));
            assert(self@.groups[gi as int] == (GroupEntryView {
                snapshots: self@.groups[gi as int].snapshots,
                ..old_g
            }));
            assert(self@.groups =~= old_view.groups.update(gi as int, self@.groups[gi as int]));
            assert(self@ == (DataStoreView { groups: self@.groups, ..old_view }));
            lemma_group_wf_snapshot_update(
                old_g,
                si as int,
                SnapshotView { locked: false, ..old_g.snapshots[si as int] },
            );
            lemma_groups_wf_update(old_view.groups, gi as int, self@.groups[gi as int]);
        }
    }

    /// Set or clear the protection marker of a snapshot; refused while a
    /// session holds the snapshot.
    pub fn update_protection(&mut self, backup_dir: &BackupDir, protection: bool) -> (r: Result<
        (),
        StoreError,
    >)
        requires
            old(self).wf(),
        ensures
            final(self).wf(),
            final(self).spec_name() == old(self).spec_name(),
            final(self).spec_path() == old(self).spec_path(),
            ({
                let gs = old(self)@.groups;
                let gi = group_idx(gs, backup_dir@.group.ty, backup_dir@.group.id);
                let ss = gs[gi].snapshots;
                let si = snapshot_idx(ss, backup_dir@.time);
                let present = has_group(gs, backup_dir@.group.ty, backup_dir@.group.id)
                    && has_snapshot(ss, backup_dir@.time);
                &&& (r is Err ==> final(self)@ == old(self)@)
                &&& (!present ==> r is Err && r->Err_0 == StoreError::NotFound)
                &&& (present && ss[si].locked ==> r is Err && r->Err_0 == StoreError::Conflict)
                &&& (present && !ss[si].locked ==> r is Ok && final(self)@ == (DataStoreView {
                    groups: gs.update(
                        gi,
                        GroupEntryView {
                            snapshots: ss.update(
                                si,
                                SnapshotView { protected: protection, ..ss[si] },
                            ),
                            ..gs[gi]
                        },
                    ),
                    ..old(self)@
                }))
            }),
    {
        let ghost old_view = self@;
        let gi = match self.find_group(backup_dir.group()) {
            Some(gi) => gi,
            None => {
                return Err(StoreError::NotFound);
            }
        };
        proof {
            lemma_group_idx_unique(self@.groups, backup_dir@.group.ty, backup_dir@.group.id,
                gi as int);
        }
        let ghost old_g = self@.groups[gi as int];
        let si = match self.find_snapshot(gi, backup_dir.backup_time()) {
            Some(si) => si,
            None => {
                return Err(StoreError::NotFound);
            }
        };
        proof {
            lemma_snapshot_idx_unique(old_g.snapshots, backup_dir@.time, si as int);
        }
        if self.groups[gi].snapshots[si].locked {
            return Err(StoreError::Conflict);
        }
        let g = vstd::std_specs::vec::vec_index_mut(&mut self.groups, gi);
        let s = vstd::std_specs::vec::vec_index_mut(&mut g.snapshots, si);
        s.protected = protection;
        proof {
            assert(self@.groups[gi as int].snapshots =~= old_g.snapshots.update(
                si as int,
                SnapshotView { protected: protection, ..old_g.snapshots[si as int] },
            ));
            assert(self@.groups[gi as int] == (GroupEntryView {
                snapshots: self@.groups[gi as int].snapshots,
                ..old_g
            }));
            assert(self@.groups =~= old_view.groups.update(gi as int, self@.groups[gi as int]));
            assert(self@ == (DataStoreView { groups: self@.groups, ..old_view }));
            lemma_group_wf_snapshot_update(
                old_g,
                si as int,
                SnapshotView { protected: protection, ..old_g.snapshots[si as int] },
            );
            lemma_groups_wf_update(old_view.groups, gi as int, self@.groups[gi as int]);
        }
        Ok(())
    }

    /// Remove one snapshot with all its files. A protected snapshot is
    /// never removed; a held session lock is overridden only by force.
    pub fn remove_backup_dir(&mut self, backup_dir: &BackupDir, force: bool) -> (r: Result<
        (),
        StoreError,
    >)
        requires
            old(self).wf(),
        ensures
            final(self).wf(),
            final(self).spec_name() == old(self).spec_name(),
            final(self).spec_path() == old(self).spec_path(),
            ({
                let gs = old(self)@.groups;
                let gi = group_idx(gs, backup_dir@.group.ty, backup_dir@.group.id);
                let ss = gs[gi].snapshots;
                let si = snapshot_idx(ss, backup_dir@.time);
                let present = has_group(gs, backup_dir@.group.ty, backup_dir@.group.id)
                    && has_snapshot(ss, backup_dir@.time);
                &&& (r is Err ==> final(self)@ == old(self)@)
                &&& (!present ==> r is Err && r->Err_0 == StoreError::NotFound)
                &&& (present && !force && ss[si].locked ==> r is Err && r->Err_0
                    == StoreError::Conflict)
                &&& (present && (force || !ss[si].locked) && ss[si].protected ==> r is Err
                    && r->Err_0 == StoreError::Protected)
                &&& (present && (force || !ss[si].locked) && !ss[si].protected ==> r is Ok
                    && final(self)@ == (DataStoreView {
                    groups: gs.update(
                        gi,
                        GroupEntryView { snapshots: ss.remove(si), ..gs[gi] },
                    ),
                    ..old(self)@
                }))
            }),
    {
        let ghost old_view = self@;
        let gi = match self.find_group(backup_dir.group()) {
            Some(gi) => gi,
            None => {
                return Err(StoreError::NotFound);
            }
        };
        proof {
            lemma_group_idx_unique(self@.groups, backup_dir@.group.ty, backup_dir@.group.id,
                gi as int);
        }
        let ghost old_g = self@.groups[gi as int];
        let si = match self.find_snapshot(gi, backup_dir.backup_time()) {
            Some(si) => si,
            None => {
                return Err(StoreError::NotFound);
            }
        };
        proof {
            lemma_snapshot_idx_unique(old_g.snapshots, backup_dir@.time, si as int);
        }
        if !force && self.groups[gi].snapshots[si].locked {
            return Err(StoreError::Conflict);
        }
        if self.groups[gi].snapshots[si].protected {
            return Err(StoreError::Protected);
        }
        let g = vstd::std_specs::vec::vec_index_mut(&mut self.groups, gi);
        let _snap = g.snapshots.remove(si);
        proof {
            assert(self@.groups[gi as int].snapshots =~= old_g.snapshots.remove(si as int));
            assert(self@.groups[gi as int] == (GroupEntryView {
                snapshots: self@.groups[gi as int].snapshots,
                ..old_g
            }));
            assert(self@.groups =~= old_view.groups.update(gi as int, self@.groups[gi as int]));
            assert(self@ == (DataStoreView { groups: self@.groups, ..old_view }));
            lemma_group_wf_snapshot_remove(old_g, si as int);
            lemma_groups_wf_update(old_view.groups, gi as int, self@.groups[gi as int]);
        }
        Ok(())
    }

    /// Seal or replace the manifest of a snapshot: readers treat a
    /// snapshot as complete once its manifest exists.
    pub fn update_manifest(&mut self, backup_dir: &BackupDir, manifest: BackupManifest) -> (r:
        Result<(), StoreError>)
        requires
            old(self).wf(),
            manifest.wf(),
        ensures
            final(self).wf(),
            final(self).spec_name() == old(self).spec_name(),
            final(self).spec_path() == old(self).spec_path(),
            ({
                let gs = old(self)@.groups;
                let gi = group_idx(gs, backup_dir@.group.ty, backup_dir@.group.id);
                let ss = gs[gi].snapshots;
                let si = snapshot_idx(ss, backup_dir@.time);
                let present = has_group(gs, backup_dir@.group.ty, backup_dir@.group.id)
                    && has_snapshot(ss, backup_dir@.time);
                &&& (r is Ok <==> present)
                &&& (r matches Err(e) ==> e == StoreError::NotFound && final(self)@ == old(self)@)
                &&& (r is Ok ==> final(self)@ == (DataStoreView {
                    groups: gs.update(
                        gi,
                        GroupEntryView {
                            snapshots: ss.update(
                                si,
                                SnapshotView { manifest: Some(manifest@), ..ss[si] },
                            ),
                            ..gs[gi]
                        },
                    ),
                    ..old(self)@
                }))
            }),
    {
        let ghost old_view = self@;
        let gi = match self.find_group(backup_dir.group()) {
            Some(gi) => gi,
            None => {
                return Err(StoreError::NotFound);
            }
        };
        proof {
            lemma_group_idx_unique(self@.groups, backup_dir@.group.ty, backup_dir@.group.id,
                gi as int);
        }
        let ghost old_g = self@.groups[gi as int];
        let si = match self.find_snapshot(gi, backup_dir.backup_time()) {
            Some(si) => si,
            None => {
                return Err(StoreError::NotFound);
            }
        };
        proof {
            lemma_snapshot_idx_unique(old_g.snapshots, backup_dir@.time, si as int);
        }
        let g = vstd::std_specs::vec::vec_index_mut(&mut self.groups, gi);
        let s = vstd::std_specs::vec::vec_index_mut(&mut g.snapshots, si);
        s.manifest = Some(manifest);
        proof {
            assert(self@.groups[gi as int].snapshots =~= old_g.snapshots.update(
                si as int,
                SnapshotView {
                    manifest: self@.groups[gi as int].snapshots[si as int].manifest,
                    ..old_g.snapshots[si as int]
                },
            ));
            assert(self@.groups[gi as int] == (GroupEntryView {
                snapshots: self@.groups[gi as int].snapshots,
                ..old_g
            }));
            assert(self@.groups =~= old_view.groups.update(gi as int, self@.groups[gi as int]));
            assert(self@ == (DataStoreView { groups: self@.groups, ..old_view }));
            lemma_group_wf_snapshot_update(
                old_g,
                si as int,
                self@.groups[gi as int].snapshots[si as int],
            );
            lemma_groups_wf_update(old_view.groups, gi as int, self@.groups[gi as int]);
        }
        Ok(())
    }

    /// The manifest of a snapshot, as last sealed.
    pub fn load_manifest(&self, backup_dir: &BackupDir) -> (r: Result<BackupManifest, StoreError>)
        requires
            self.wf(),
        ensures
            ({
                let gs = self@.groups;
                let gi = group_idx(gs, backup_dir@.group.ty, backup_dir@.group.id);
                let ss = gs[gi].snapshots;
                let si = snapshot_idx(ss, backup_dir@.time);
                let present = has_group(gs, backup_dir@.group.ty, backup_dir@.group.id)
                    && has_snapshot(ss, backup_dir@.time);
                &&& (r is Ok <==> present && ss[si].manifest is Some)
                &&& (r matches Ok(m) ==> Some(m@) == ss[si].manifest)
                &&& (r matches Err(e) ==> e == StoreError::NotFound)
            }),
    {
        let gi = match self.find_group(backup_dir.group()) {
            Some(gi) => gi,
            None => {
                return Err(StoreError::NotFound);
            }
        };
        proof {
            lemma_group_idx_unique(self@.groups, backup_dir@.group.ty, backup_dir@.group.id,
                gi as int);
        }
        let si = match self.find_snapshot(gi, backup_dir.backup_time()) {
            Some(si) => si,
            None => {
                return Err(StoreError::NotFound);
            }
        };
        proof {
            lemma_snapshot_idx_unique(self@.groups[gi as int].snapshots, backup_dir@.time,
                si as int);
        }
        match &self.groups[gi].snapshots[si].manifest {
            Some(m) => Ok(m.clone_manifest()),
            None => Err(StoreError::NotFound),
        }
    }

    /// The time of the newest snapshot of a group, sealed or not.
    pub fn newest_backup_time(&self, backup_group: &BackupGroup) -> (r: Result<
        Option<i64>,
        StoreError,
    >)
        requires
            self.wf(),
        ensures
            r is Ok,
            !has_group(self@.groups, backup_group@.ty, backup_group@.id) ==> r->Ok_0 is None,
            has_group(self@.groups, backup_group@.ty, backup_group@.id) ==> ({
                let ss = self@.groups[group_idx(
                    self@.groups,
                    backup_group@.ty,
                    backup_group@.id,
                )].snapshots;
                &&& (r->Ok_0 is Some <==> ss.len() > 0)
                &&& (r->Ok_0 is Some ==> exists|i: int|
                    0 <= i < ss.len() && (#[trigger] ss[i]).time == r->Ok_0->Some_0)
                &&& (r->Ok_0 is Some ==> forall|i: int|
                    0 <= i < ss.len() ==> (#[trigger] ss[i]).time <= r->Ok_0->Some_0)
            }),
    {
        let gi = match self.find_group(backup_group) {
            Some(gi) => gi,
            None => {
                return Ok(None);
            }
        };
        proof {
            lemma_group_idx_unique(self@.groups, backup_group@.ty, backup_group@.id, gi as int);
        }
        let ghost ss = self@.groups[gi as int].snapshots;
        let n = self.groups[gi].snapshots.len();
        if n == 0 {
            return Ok(None);
        }
        let mut best: i64 = self.groups[gi].snapshots[0].backup_time;
        assert(ss[0].time == best);
        let mut i: usize = 1;
        while i < n
            invariant
                gi < self@.groups.len(),
                ss == self@.groups[gi as int].snapshots,
                n == ss.len(),
                1 <= i <= n,
                exists|j: int| 0 <= j < i && (#[trigger] ss[j]).time == best,
                forall|j: int| 0 <= j < i ==> (#[trigger] ss[j]).time <= best,
            decreases n - i,
        {
            if self.groups[gi].snapshots[i].backup_time > best {
                best = self.groups[gi].snapshots[i].backup_time;
                assert(ss[i as int].time == best);
            }
            i = i + 1;
        }
        Ok(Some(best))
    }

    /// The time of the newest snapshot of a group that was sealed by a
    /// manifest, if any.
    pub fn last_successful_backup(&self, backup_group: &BackupGroup) -> (r: Result<
        Option<i64>,
        StoreError,
    >)
        requires
            self.wf(),
        ensures
            r is Ok,
            !has_group(self@.groups, backup_group@.ty, backup_group@.id) ==> r->Ok_0 is None,
            has_group(self@.groups, backup_group@.ty, backup_group@.id) ==> ({
                let ss = self@.groups[group_idx(
                    self@.groups,
                    backup_group@.ty,
                    backup_group@.id,
                )].snapshots;
                &&& (r->Ok_0 is Some <==> exists|i: int|
                    0 <= i < ss.len() && (#[trigger] ss[i]).manifest is Some)
                &&& (r->Ok_0 is Some ==> exists|i: int|
                    0 <= i < ss.len() && (#[trigger] ss[i]).manifest is Some && ss[i].time
                        == r->Ok_0->Some_0)
                &&& (r->Ok_0 is Some ==> forall|i: int|
                    0 <= i < ss.len() && (#[trigger] ss[i]).manifest is Some ==> ss[i].time
                        <= r->Ok_0->Some_0)
            }),
    {
        let gi = match self.find_group(backup_group) {
            Some(gi) => gi,
            None => {
                return Ok(None);
            }
        };
        proof {
            lemma_group_idx_unique(self@.groups, backup_group@.ty, backup_group@.id, gi as int);
        }
        let ghost ss = self@.groups[gi as int].snapshots;
        let n = self.groups[gi].snapshots.len();
        let mut best: Option<i64> = None;
        let mut i: usize = 0;
        while i < n
            invariant
                gi < self@.groups.len(),
                ss == self@.groups[gi as int].snapshots,
                n == ss.len(),
                i <= n,
                best is Some <==> exists|j: int|
                    0 <= j < i && (#[trigger] ss[j]).manifest is Some,
                best matches Some(t) ==> (exists|j: int|
                    0 <= j < i && (#[trigger] ss[j]).manifest is Some && ss[j].time == t) && (
                forall|j: int|
                    0 <= j < i && (#[trigger] ss[j]).manifest is Some ==> ss[j].time <= t),
            decreases n - i,
        {
            let has_manifest = self.groups[gi].snapshots[i].manifest.is_some();
            if has_manifest {
                let t = self.groups[gi].snapshots[i].backup_time;
                proof {
                    assert(ss[i as int].manifest is Some);
                    assert(ss[i as int].time == t);
                }
                match best {
                    Some(b) => {
                        if t > b {
                            best = Some(t);
                        }
                    }
                    None => {
                        best = Some(t);
                    }
                }
            }
            i = i + 1;
        }
        proof {
            let gs = self@.groups;
            let gidx = group_idx(gs, backup_group@.ty, backup_group@.id);
            assert(gidx == gi as int);
            assert(ss == gs[gidx].snapshots);
            assert(best is Some <==> exists|j: int|
                0 <= j < ss.len() && (#[trigger] ss[j]).manifest is Some);
            if best is Some {
                let t = best->Some_0;
                assert(exists|j: int|
                    0 <= j < ss.len() && (#[trigger] ss[j]).manifest is Some && ss[j].time == t);
                assert(forall|j: int|
                    0 <= j < ss.len() && (#[trigger] ss[j]).manifest is Some ==> ss[j].time <= t);
            }
        }
        Ok(best)
    }
}

/// One step of filtering a prefix of snapshots.
proof fn lemma_filter_take_step_snap(s: Seq<SnapshotView>, pred: spec_fn(SnapshotView) -> bool, j: int)
    requires
        0 <= j < s.len(),
    ensures
        pred(s[j]) ==> s.take(j + 1).filter(pred) == s.take(j).filter(pred).push(s[j]),
        !pred(s[j]) ==> s.take(j + 1).filter(pred) == s.take(j).filter(pred),
{
    reveal_with_fuel(Seq::<SnapshotView>::filter, 2);
    assert(s.take(j + 1).drop_last() =~= s.take(j));
    assert(s.take(j + 1).last() == s[j]);
}

impl DataStore {
    /// Position of a file inside a snapshot.
    fn find_file(&self, gi: usize, si: usize, name: &str) -> (r: Option<usize>)
        requires
            gi < self@.groups.len(),
            si < self@.groups[gi as int].snapshots.len(),
        ensures
            ({
                let fs = self@.groups[gi as int].snapshots[si as int].files;
                &&& (r matches Some(i) ==> i < fs.len() && fs[i as int].name == name@)
                &&& (r is None <==> !has_file(fs, name@))
            }),
    {
        let n = self.groups[gi].snapshots[si].files.len();
        let mut i: usize = 0;
        while i < n
            invariant
                gi < self@.groups.len(),
                si < self@.groups[gi as int].snapshots.len(),
                n == self@.groups[gi as int].snapshots[si as int].files.len(),
                i <= n,
                forall|j: int|
                    0 <= j < i
                        ==> (#[trigger] self@.groups[gi as int].snapshots[si as int].files[j]).name
                        != name@,
            decreases n - i,
        {
            if self.groups[gi].snapshots[si].files[i].name.as_str().eq(name) {
                return Some(i);
            }
            i = i + 1;
        }
        None
    }

    /// Commit a file into its snapshot directory, as the rename of a
    /// sealed temporary file does on disk. The name's extension must name
    /// the content's kind.
    pub fn add_snapshot_file(&mut self, backup_dir: &BackupDir, name: String, data: FileData) -> (r:
        Result<(), StoreError>)
        requires
            old(self).wf(),
            file_data_wf(data@),
        ensures
            final(self).wf(),
            final(self).spec_name() == old(self).spec_name(),
            final(self).spec_path() == old(self).spec_path(),
            ({
                let gs = old(self)@.groups;
                let gi = group_idx(gs, backup_dir@.group.ty, backup_dir@.group.id);
                let ss = gs[gi].snapshots;
                let si = snapshot_idx(ss, backup_dir@.time);
                let present = has_group(gs, backup_dir@.group.ty, backup_dir@.group.id)
                    && has_snapshot(ss, backup_dir@.time);
                let named = name_matches_kind(name@, data@);
                &&& (r is Err ==> final(self)@ == old(self)@)
                &&& (!named ==> r is Err && r->Err_0 == StoreError::Protocol)
                &&& (named && !present ==> r is Err && r->Err_0 == StoreError::NotFound)
                &&& (named && present && has_file(ss[si].files, name@) ==> r is Err && r->Err_0
                    == StoreError::AlreadyExists)
                &&& (named && present && !has_file(ss[si].files, name@) ==> r is Ok && final(self)@
                    == (DataStoreView {
                    groups: gs.update(
                        gi,
                        GroupEntryView {
                            snapshots: ss.update(
                                si,
                                SnapshotView {
                                    files: ss[si].files.push(
                                        FileView { name: name@, data: data@ },
                                    ),
                                    ..ss[si]
                                },
                            ),
                            ..gs[gi]
                        },
                    ),
                    ..old(self)@
                }))
            }),
    {
        let ghost old_view = self@;
        let ghost dview = data@;
        let named = match &data {
            FileData::Fixed(_) => str_ends_with(name.as_str(), ".fidx"),
            FileData::Dynamic(_) => str_ends_with(name.as_str(), ".didx"),
            FileData::Blob(_) => !str_ends_with(name.as_str(), ".fidx") && !str_ends_with(
                name.as_str(),
                ".didx",
            ),
        };
        if !named {
            return Err(StoreError::Protocol);
        }
        let gi = match self.find_group(backup_dir.group()) {
            Some(gi) => gi,
            None => {
                return Err(StoreError::NotFound);
            }
        };
        proof {
            lemma_group_idx_unique(self@.groups, backup_dir@.group.ty, backup_dir@.group.id,
                gi as int);
        }
        let ghost old_g = self@.groups[gi as int];
        let si = match self.find_snapshot(gi, backup_dir.backup_time()) {
            Some(si) => si,
            None => {
                return Err(StoreError::NotFound);
            }
        };
        proof {
            lemma_snapshot_idx_unique(old_g.snapshots, backup_dir@.time, si as int);
        }
        match self.find_file(gi, si, name.as_str()) {
            Some(_) => Err(StoreError::AlreadyExists),
            None => {
                let ghost old_s = old_g.snapshots[si as int];
                let ghost nview = name@;
                let g = vstd::std_specs::vec::vec_index_mut(&mut self.groups, gi);
                let s = vstd::std_specs::vec::vec_index_mut(&mut g.snapshots, si);
                s.files.push(SnapshotFile { name, data });
                proof {
                    let fnew = FileView { name: nview, data: dview };
                    assert(self@.groups[gi as int].snapshots[si as int].files =~= old_s.files.push(
                        fnew,
                    ));
                    assert(self@.groups[gi as int].snapshots[si as int] == (SnapshotView {
                        files: self@.groups[gi as int].snapshots[si as int].files,
                        ..old_s
                    }));
                    assert(self@.groups[gi as int].snapshots =~= old_g.snapshots.update(
                        si as int,
                        self@.groups[gi as int].snapshots[si as int],
                    ));
                    assert(self@.groups[gi as int] == (GroupEntryView {
                        snapshots: self@.groups[gi as int].snapshots,
                        ..old_g
                    }));
                    assert(self@.groups =~= old_view.groups.update(
                        gi as int,
                        self@.groups[gi as int],
                    ));
                    assert(self@ == (DataStoreView { groups: self@.groups, ..old_view }));
                    assert(snapshot_wf(self@.groups[gi as int].snapshots[si as int])) by {
                        let fs = self@.groups[gi as int].snapshots[si as int].files;
                        assert forall|a: int, b: int|
                            0 <= a < b < fs.len() implies fs[a].name != fs[b].name by {
                            assert(fs[a] == old_s.files[a]);
                            if b < fs.len() - 1 {
                                assert(fs[b] == old_s.files[b]);
                            } else {
                                assert(!has_file(old_s.files, nview));
                            }
                        }
                        assert forall|a: int| 0 <= a < fs.len() implies file_data_wf(
                            (#[trigger] fs[a]).data,
                        ) by {
                            if a < fs.len() - 1 {
                                assert(fs[a] == old_s.files[a]);
                            }
                        }
                    }
                    lemma_group_wf_snapshot_update(
                        old_g,
                        si as int,
                        self@.groups[gi as int].snapshots[si as int],
                    );
                    lemma_groups_wf_update(old_view.groups, gi as int, self@.groups[gi as int]);
                }
                Ok(())
            }
        }
    }

    /// The content of one snapshot file, by name alone.
    fn find_file_data(&self, backup_dir: &BackupDir, filename: &str) -> (r: Result<
        &FileData,
        StoreError,
    >)
        requires
            self.wf(),
        ensures
            ({
                let gs = self@.groups;
                let gi = group_idx(gs, backup_dir@.group.ty, backup_dir@.group.id);
                let ss = gs[gi].snapshots;
                let si = snapshot_idx(ss, backup_dir@.time);
                let fs = ss[si].files;
                let fi = file_idx(fs, filename@);
                let present = has_group(gs, backup_dir@.group.ty, backup_dir@.group.id)
                    && has_snapshot(ss, backup_dir@.time) && has_file(fs, filename@);
                &&& (r is Ok <==> present)
                &&& (r matches Ok(d) ==> d@ == fs[fi].data && file_data_wf(d@))
                &&& (r matches Err(e) ==> e == StoreError::NotFound)
            }),
    {
        let gi = match self.find_group(backup_dir.group()) {
            Some(gi) => gi,
            None => {
                return Err(StoreError::NotFound);
            }
        };
        proof {
            lemma_group_idx_unique(self@.groups, backup_dir@.group.ty, backup_dir@.group.id,
                gi as int);
        }
        let si = match self.find_snapshot(gi, backup_dir.backup_time()) {
            Some(si) => si,
            None => {
                return Err(StoreError::NotFound);
            }
        };
        proof {
            lemma_snapshot_idx_unique(self@.groups[gi as int].snapshots, backup_dir@.time,
                si as int);
        }
        let fi = match self.find_file(gi, si, filename) {
            Some(fi) => fi,
            None => {
                return Err(StoreError::NotFound);
            }
        };
        proof {
            lemma_file_idx_unique(self@.groups[gi as int].snapshots[si as int].files, filename@,
                fi as int);
        }
        Ok(&self.groups[gi].snapshots[si].files[fi].data)
    }

    /// A snapshot's fixed index by file name.
    pub fn open_fixed_reader(&self, backup_dir: &BackupDir, filename: &str) -> (r: Result<
        &FixedIndexReader,
        StoreError,
    >)
        requires
            self.wf(),
        ensures
            ({
                let gs = self@.groups;
                let gi = group_idx(gs, backup_dir@.group.ty, backup_dir@.group.id);
                let ss = gs[gi].snapshots;
                let si = snapshot_idx(ss, backup_dir@.time);
                let fs = ss[si].files;
                let fi = file_idx(fs, filename@);
                let present = has_group(gs, backup_dir@.group.ty, backup_dir@.group.id)
                    && has_snapshot(ss, backup_dir@.time) && has_file(fs, filename@);
                &&& (r is Ok <==> present && fs[fi].data is Fixed)
                &&& (r matches Ok(idx) ==> fs[fi].data == FileDataView::Fixed(idx@) && idx.wf())
                &&& (r matches Err(e) ==> (e == StoreError::NotFound && !present) || (e
                    == StoreError::Protocol && present && !(fs[fi].data is Fixed)))
            }),
    {
        match self.find_file_data(backup_dir, filename)? {
            FileData::Fixed(idx) => Ok(idx),
            _ => Err(StoreError::Protocol),
        }
    }

    /// A snapshot's dynamic index by file name.
    pub fn open_dynamic_reader(&self, backup_dir: &BackupDir, filename: &str) -> (r: Result<
        &DynamicIndexReader,
        StoreError,
    >)
        requires
            self.wf(),
        ensures
            ({
                let gs = self@.groups;
                let gi = group_idx(gs, backup_dir@.group.ty, backup_dir@.group.id);
                let ss = gs[gi].snapshots;
                let si = snapshot_idx(ss, backup_dir@.time);
                let fs = ss[si].files;
                let fi = file_idx(fs, filename@);
                let present = has_group(gs, backup_dir@.group.ty, backup_dir@.group.id)
                    && has_snapshot(ss, backup_dir@.time) && has_file(fs, filename@);
                &&& (r is Ok <==> present && fs[fi].data is Dynamic)
                &&& (r matches Ok(idx) ==> fs[fi].data == FileDataView::Dynamic(idx@) && idx.wf())
                &&& (r matches Err(e) ==> (e == StoreError::NotFound && !present) || (e
                    == StoreError::Protocol && present && !(fs[fi].data is Dynamic)))
            }),
    {
        match self.find_file_data(backup_dir, filename)? {
            FileData::Dynamic(idx) => Ok(idx),
            _ => Err(StoreError::Protocol),
        }
    }

    /// Check that a snapshot supplies every file a manifest lists, with
    /// matching checksum and size for the index files.
    pub fn manifest_files_present(&self, backup_dir: &BackupDir, manifest: &BackupManifest) -> (r:
        Result<(), StoreError>)
        requires
            self.wf(),
            manifest.wf(),
        ensures
            ({
                let gs = self@.groups;
                let gi = group_idx(gs, backup_dir@.group.ty, backup_dir@.group.id);
                let ss = gs[gi].snapshots;
                let si = snapshot_idx(ss, backup_dir@.time);
                let present = has_group(gs, backup_dir@.group.ty, backup_dir@.group.id)
                    && has_snapshot(ss, backup_dir@.time);
                &&& (r is Ok <==> present && manifest_matches(ss[si].files, manifest@.files))
                &&& (r == Err::<(), StoreError>(StoreError::NotFound) <==> !present)
                &&& (r == Err::<(), StoreError>(StoreError::Integrity) <==> present
                    && !manifest_matches(ss[si].files, manifest@.files))
                &&& (r matches Err(e) ==> e == StoreError::NotFound || e == StoreError::Integrity)
            }),
    {
        let gi = match self.find_group(backup_dir.group()) {
            Some(gi) => gi,
            None => {
                return Err(StoreError::NotFound);
            }
        };
        proof {
            lemma_group_idx_unique(self@.groups, backup_dir@.group.ty, backup_dir@.group.id,
                gi as int);
        }
        let si = match self.find_snapshot(gi, backup_dir.backup_time()) {
            Some(si) => si,
            None => {
                return Err(StoreError::NotFound);
            }
        };
        proof {
            lemma_snapshot_idx_unique(self@.groups[gi as int].snapshots, backup_dir@.time,
                si as int);
        }
        let ghost fs = self@.groups[gi as int].snapshots[si as int].files;
        let entries = manifest.files();
        let n = entries.len();
        let mut k: usize = 0;
        while k < n
            invariant
                self.wf(),
                gi < self@.groups.len(),
                si < self@.groups[gi as int].snapshots.len(),
                self@.groups[gi as int].ty == backup_dir@.group.ty,
                self@.groups[gi as int].id == backup_dir@.group.id,
                self@.groups[gi as int].snapshots[si as int].time == backup_dir@.time,
                fs == self@.groups[gi as int].snapshots[si as int].files,
                entries@.map_values(|f: crate::manifest::FileInfo| f@) == manifest@.files,
                n == manifest@.files.len(),
                k <= n,
                forall|j: int| 0 <= j < k ==> manifest_entry_matches(fs, #[trigger] manifest@.files[j]),
            decreases n - k,
        {
            let entry = &entries[k];
            proof {
                assert(entry@ == manifest@.files[k as int]);
            }
            let fi = match self.find_file(gi, si, entry.filename.as_str()) {
                Some(fi) => fi,
                None => {
                    proof {
                        lemma_group_idx_unique(self@.groups, backup_dir@.group.ty,
                            backup_dir@.group.id, gi as int);
                        lemma_snapshot_idx_unique(self@.groups[gi as int].snapshots,
                            backup_dir@.time, si as int);
                        assert(!manifest_entry_matches(fs, manifest@.files[k as int]));
                    }
                    return Err(StoreError::Integrity);
                }
            };
            proof {
                lemma_file_idx_unique(fs, entry@.filename, fi as int);
            }
            match &self.groups[gi].snapshots[si].files[fi].data {
                FileData::Fixed(idx) => {
                    proof {
                        assert(fs[fi as int].data == FileDataView::Fixed(idx@));
                    }
                    if !crate::digest::digest_eq(idx.index_csum(), &entry.csum) || idx.index_bytes()
                        != entry.size {
                        proof {
                            lemma_group_idx_unique(self@.groups, backup_dir@.group.ty,
                                backup_dir@.group.id, gi as int);
                            lemma_snapshot_idx_unique(self@.groups[gi as int].snapshots,
                                backup_dir@.time, si as int);
                            assert(!manifest_entry_matches(fs, manifest@.files[k as int]));
                        }
                        return Err(StoreError::Integrity);
                    }
                }
                FileData::Dynamic(idx) => {
                    proof {
                        assert(fs[fi as int].data == FileDataView::Dynamic(idx@));
                    }
                    if !crate::digest::digest_eq(idx.index_csum(), &entry.csum) || idx.index_bytes()
                        != entry.size {
                        proof {
                            lemma_group_idx_unique(self@.groups, backup_dir@.group.ty,
                                backup_dir@.group.id, gi as int);
                            lemma_snapshot_idx_unique(self@.groups[gi as int].snapshots,
                                backup_dir@.time, si as int);
                            assert(!manifest_entry_matches(fs, manifest@.files[k as int]));
                        }
                        return Err(StoreError::Integrity);
                    }
                }
                FileData::Blob(_) => {
                    proof {
                        assert(manifest_entry_matches(fs, manifest@.files[k as int]));
                    }
                }
            }
            k = k + 1;
        }
        Ok(())
    }

    /// A snapshot's index file, dispatched on the file extension: `.fidx`
    /// opens a fixed index, `.didx` a dynamic one, and any other name is
    /// refused as an index of unknown type.
    pub fn open_index(&self, backup_dir: &BackupDir, filename: &str) -> (r: Result<
        &FileData,
        StoreError,
    >)
        requires
            self.wf(),
        ensures
            ({
                let gs = self@.groups;
                let gi = group_idx(gs, backup_dir@.group.ty, backup_dir@.group.id);
                let ss = gs[gi].snapshots;
                let si = snapshot_idx(ss, backup_dir@.time);
                let fs = ss[si].files;
                let fi = file_idx(fs, filename@);
                let present = has_group(gs, backup_dir@.group.ty, backup_dir@.group.id)
                    && has_snapshot(ss, backup_dir@.time) && has_file(fs, filename@);
                let fidx = spec_ends_with(filename@, ".fidx"@);
                let didx = spec_ends_with(filename@, ".didx"@);
                &&& (!fidx && !didx ==> r == Err::<&FileData, StoreError>(StoreError::Protocol))
                &&& ((fidx || didx) && !present ==> r == Err::<&FileData, StoreError>(
                    StoreError::NotFound,
                ))
                &&& (fidx && present && fs[fi].data is Fixed ==> r is Ok)
                &&& (didx && present && fs[fi].data is Dynamic ==> r is Ok)
                &&& (fidx && present && !(fs[fi].data is Fixed) ==> r == Err::<
                    &FileData,
                    StoreError,
                >(StoreError::Protocol))
                &&& (didx && present && !(fs[fi].data is Dynamic) ==> r == Err::<
                    &FileData,
                    StoreError,
                >(StoreError::Protocol))
                &&& (r matches Ok(d) ==> present && d@ == fs[fi].data && file_data_wf(d@))
            }),
    {
        let fidx = str_ends_with(filename, ".fidx");
        let didx = str_ends_with(filename, ".didx");
        proof {
            reveal_strlit(".fidx");
            reveal_strlit(".didx");
            if spec_ends_with(filename@, ".fidx"@) && spec_ends_with(filename@, ".didx"@) {
                assert(filename@.subrange(filename@.len() - 5, filename@.len() as int)
                    == ".fidx"@);
                assert(filename@.subrange(filename@.len() - 5, filename@.len() as int)
                    == ".didx"@);
                assert(".fidx"@[1] != ".didx"@[1]);
            }
        }
        if !fidx && !didx {
            return Err(StoreError::Protocol);
        }
        let data = self.find_file_data(backup_dir, filename)?;
        match data {
            FileData::Fixed(_) => {
                if fidx {
                    Ok(data)
                } else {
                    Err(StoreError::Protocol)
                }
            }
            FileData::Dynamic(_) => {
                if didx {
                    Ok(data)
                } else {
                    Err(StoreError::Protocol)
                }
            }
            FileData::Blob(_) => Err(StoreError::Protocol),
        }
    }

    /// The framed bytes of a snapshot's blob file: fails exactly when no
    /// blob file of that name exists, or its frame has lost its magic.
    pub fn load_blob(&self, backup_dir: &BackupDir, filename: &str) -> (r: Result<
        DataBlob,
        StoreError,
    >)
        requires
            self.wf(),
        ensures
            ({
                let gs = self@.groups;
                let gi = group_idx(gs, backup_dir@.group.ty, backup_dir@.group.id);
                let ss = gs[gi].snapshots;
                let si = snapshot_idx(ss, backup_dir@.time);
                let fs = ss[si].files;
                let fi = file_idx(fs, filename@);
                let present = has_group(gs, backup_dir@.group.ty, backup_dir@.group.id)
                    && has_snapshot(ss, backup_dir@.time) && has_file(fs, filename@);
                &&& (r matches Ok(b) ==> fs[fi].data == FileDataView::Blob(b@))
                &&& (r is Ok <==> present && (fs[fi].data matches FileDataView::Blob(raw)
                    && crate::blob::blob_magic_known(raw)))
                &&& (r == Err::<DataBlob, StoreError>(StoreError::NotFound) <==> !(present
                    && fs[fi].data is Blob))
                &&& (r == Err::<DataBlob, StoreError>(StoreError::Integrity) <==> present
                    && (fs[fi].data matches FileDataView::Blob(raw)
                    && !crate::blob::blob_magic_known(raw)))
            }),
    {
        match self.find_file_data(backup_dir, filename) {
            Ok(FileData::Blob(raw)) => {
                let copy = vstd::slice::slice_to_vec(raw.as_slice());
                match DataBlob::from_raw(copy) {
                    Ok(b) => Ok(b),
                    Err(_) => Err(StoreError::Integrity),
                }
            }
            Ok(_) => Err(StoreError::NotFound),
            Err(_) => Err(StoreError::NotFound),
        }
    }

    /// Remove a whole group: every unprotected snapshot goes; the group
    /// directory itself goes only when nothing is left. Fails while a
    /// session holds the group or any unprotected snapshot.
    pub fn remove_backup_group(&mut self, backup_group: &BackupGroup) -> (r: Result<
        bool,
        StoreError,
    >)
        requires
            old(self).wf(),
        ensures
            final(self).wf(),
            final(self).spec_name() == old(self).spec_name(),
            final(self).spec_path() == old(self).spec_path(),
            ({
                let gs = old(self)@.groups;
                let gi = group_idx(gs, backup_group@.ty, backup_group@.id);
                let ss = gs[gi].snapshots;
                let kept = ss.filter(|s: SnapshotView| s.protected);
                let present = has_group(gs, backup_group@.ty, backup_group@.id);
                &&& (r is Err ==> final(self)@ == old(self)@)
                &&& (!present ==> r is Err && r->Err_0 == StoreError::NotFound)
                &&& (present && gs[gi].locked ==> r is Err && r->Err_0 == StoreError::Conflict)
                &&& (present && !gs[gi].locked && (exists|i: int|
                    0 <= i < ss.len() && !(#[trigger] ss[i]).protected && ss[i].locked) ==> r is Err
                    && r->Err_0 == StoreError::Conflict)
                &&& (present && !gs[gi].locked && (forall|i: int|
                    0 <= i < ss.len() && !(#[trigger] ss[i]).protected ==> !ss[i].locked) ==> {
                    &&& r is Ok
                    &&& r->Ok_0 == (kept.len() == 0)
                    &&& (kept.len() == 0 ==> final(self)@ == (DataStoreView {
                        groups: gs.remove(gi),
                        ..old(self)@
                    }))
                    &&& (kept.len() > 0 ==> final(self)@ == (DataStoreView {
                        groups: gs.update(
                            gi,
                            GroupEntryView { snapshots: kept, ..gs[gi] },
                        ),
                        ..old(self)@
                    }))
                })
            }),
    {
        let ghost old_view = self@;
        let gi = match self.find_group(backup_group) {
            Some(gi) => gi,
            None => {
                return Err(StoreError::NotFound);
            }
        };
        proof {
            lemma_group_idx_unique(self@.groups, backup_group@.ty, backup_group@.id, gi as int);
        }
        if self.groups[gi].locked {
            return Err(StoreError::Conflict);
        }
        let ghost old_g = self@.groups[gi as int];
        let ghost orig = old_g.snapshots;
        let n = self.groups[gi].snapshots.len();
        let mut k: usize = 0;
        while k < n
            invariant
                old(self).wf(),
                self.wf(),
                old_view == old(self)@,
                gi < self@.groups.len(),
                self@ == old_view,
                self.spec_name() == old(self).spec_name(),
                self.spec_path() == old(self).spec_path(),
                old_view.groups[gi as int].ty == backup_group@.ty,
                old_view.groups[gi as int].id == backup_group@.id,
                !old_view.groups[gi as int].locked,
                orig == self@.groups[gi as int].snapshots,
                n == orig.len(),
                k <= n,
                forall|j: int| 0 <= j < k ==> !(!(#[trigger] orig[j]).protected && orig[j].locked),
            decreases n - k,
        {
            if !self.groups[gi].snapshots[k].protected && self.groups[gi].snapshots[k].locked {
                proof {
                    assert(!old_view.groups[gi as int].snapshots[k as int].protected
                        && old_view.groups[gi as int].snapshots[k as int].locked);
                    lemma_group_idx_unique(old(self)@.groups, backup_group@.ty,
                        backup_group@.id, gi as int);
                    let gs = old(self)@.groups;
                    let gidx = group_idx(gs, backup_group@.ty, backup_group@.id);
                    assert(gidx == gi as int);
                    let ss = gs[gidx].snapshots;
                    assert(ss == orig);
                    assert(0 <= k && (k as int) < ss.len() && !ss[k as int].protected
                        && ss[k as int].locked);
                    assert(exists|q: int|
                        0 <= q < ss.len() && !(#[trigger] ss[q]).protected && ss[q].locked);
                }
                return Err(StoreError::Conflict);
            }
            k = k + 1;
        }
        let ghost keep_pred = |s: SnapshotView| s.protected;
        let mut j: usize = 0;
        let mut i: usize = 0;
        proof {
            reveal_with_fuel(Seq::<SnapshotView>::filter, 1);
            assert(orig.take(0) =~= Seq::<SnapshotView>::empty());
            assert(orig.take(0).filter(keep_pred) =~= Seq::<SnapshotView>::empty());
            assert(orig.skip(0) =~= orig);
            assert(self@.groups[gi as int].snapshots =~= orig.take(0).filter(keep_pred)
                + orig.skip(0));
        }
        while i < self.groups[gi].snapshots.len()
            invariant
                old(self).wf(),
                self.wf(),
                old_view == old(self)@,
                gi < self@.groups.len(),
                self.spec_name() == old(self).spec_name(),
                self.spec_path() == old(self).spec_path(),
                old_view.groups[gi as int].ty == backup_group@.ty,
                old_view.groups[gi as int].id == backup_group@.id,
                !old_view.groups[gi as int].locked,
                forall|q: int|
                    0 <= q < orig.len() && !(#[trigger] orig[q]).protected ==> !orig[q].locked,
                self@.groups[gi as int].ty == backup_group@.ty,
                self@.groups[gi as int].id == backup_group@.id,
                self@ == (DataStoreView { groups: self@.groups, ..old_view }),
                self@.groups.len() == old_view.groups.len(),
                self@.groups =~= old_view.groups.update(gi as int, self@.groups[gi as int]),
                self@.groups[gi as int] == (GroupEntryView {
                    snapshots: self@.groups[gi as int].snapshots,
                    ..old_g
                }),
                keep_pred == (|s: SnapshotView| s.protected),
                orig == old_g.snapshots,
                old_g == old_view.groups[gi as int],
                n == orig.len(),
                0 <= i <= j <= orig.len(),
                self@.groups[gi as int].snapshots =~= orig.take(j as int).filter(keep_pred)
                    + orig.skip(j as int),
                i == orig.take(j as int).filter(keep_pred).len(),
            decreases orig.len() - j,
        {
            proof {
                assert(self@.groups[gi as int].snapshots.len() == i + (orig.len() - j));
                assert(j < orig.len());
                assert(orig.skip(j as int).len() > 0);
                assert(self@.groups[gi as int].snapshots[i as int] == orig.skip(j as int)[0]);
                assert(orig.skip(j as int)[0] == orig[j as int]);
                lemma_filter_take_step_snap(orig, keep_pred, j as int);
            }
            if self.groups[gi].snapshots[i].protected {
                i = i + 1;
                proof {
                    assert(self@.groups[gi as int].snapshots =~= orig.take(j + 1).filter(keep_pred)
                        + orig.skip(j + 1));
                }
            } else {
                let ghost pre = self@.groups[gi as int].snapshots;
                let ghost pre_map = self@.groups;
                let g = vstd::std_specs::vec::vec_index_mut(&mut self.groups, gi);
                let _snap = g.snapshots.remove(i);
                proof {
                    assert(self@.groups[gi as int].snapshots =~= pre.remove(i as int));
                    assert(self@.groups[gi as int] == (GroupEntryView {
                        snapshots: self@.groups[gi as int].snapshots,
                        ..old_g
                    }));
                    assert(self@.groups =~= pre_map.update(
                        gi as int,
                        self@.groups[gi as int],
                    ));
                    assert forall|k: int|
                        0 <= k < self@.groups.len() && k != gi as int
                            implies self@.groups[k] == old_view.groups[k] by {
                        assert(self@.groups[k] == pre_map[k]);
                        assert(pre_map[k] == old_view.groups.update(
                            gi as int,
                            pre_map[gi as int],
                        )[k]);
                    }
                    assert(self@.groups =~= old_view.groups.update(
                        gi as int,
                        self@.groups[gi as int],
                    ));
                    assert(self@ == (DataStoreView { groups: self@.groups, ..old_view }));
                    assert(self@.groups[gi as int].snapshots =~= orig.take(j + 1).filter(keep_pred)
                        + orig.skip(j + 1));
                    lemma_group_wf_snapshot_remove(
                        GroupEntryView { snapshots: pre, ..old_g },
                        i as int,
                    );
                    lemma_groups_wf_update(old_view.groups, gi as int, self@.groups[gi as int]);
                }
            }
            j = j + 1;
        }
        proof {
            assert(self@.groups[gi as int].snapshots.len() == i + (orig.len() - j));
            assert(j == orig.len());
            assert(orig.take(orig.len() as int) =~= orig);
            assert(orig.skip(orig.len() as int) =~= Seq::<SnapshotView>::empty());
            assert(self@.groups[gi as int].snapshots =~= orig.filter(keep_pred));
        }
        let removed_all = self.groups[gi].snapshots.len() == 0;
        if removed_all {
            let ghost pre_groups = self@.groups;
            let _g = self.groups.remove(gi);
            proof {
                assert(self@.groups =~= pre_groups.remove(gi as int));
                assert(self@ == (DataStoreView { groups: self@.groups, ..old_view }));
                assert(self@.groups =~= old_view.groups.remove(gi as int));
                lemma_groups_wf_remove(pre_groups, gi as int);
            }
        }
        Ok(removed_all)
    }
}

/// With unique names, a matching position is the chosen one.
pub proof fn lemma_file_idx_unique(fs: Seq<FileView>, name: Seq<char>, i: int)
    requires
        files_unique(fs),
        0 <= i < fs.len(),
        fs[i].name == name,
    ensures
        has_file(fs, name),
        file_idx(fs, name) == i,
{
    assert(has_file(fs, name));
    let j = file_idx(fs, name);
    if j != i {
        if j < i {
            assert(fs[j].name != fs[i].name);
        } else {
            assert(fs[i].name != fs[j].name);
        }
    }
}

/// Removing a group keeps the tree well formed.
pub proof fn lemma_groups_wf_remove(gs: Seq<GroupEntryView>, i: int)
    requires
        groups_wf(gs),
        0 <= i < gs.len(),
    ensures
        groups_wf(gs.remove(i)),
{
    let t = gs.remove(i);
    assert forall|a: int, b: int|
        0 <= a < b < t.len() implies !(t[a].ty == t[b].ty && t[a].id == t[b].id) by {
        let oa = if a < i { a } else { a + 1 };
        let ob = if b < i { b } else { b + 1 };
        assert(t[a] == gs[oa]);
        assert(t[b] == gs[ob]);
    }
    assert forall|a: int| 0 <= a < t.len() implies group_wf(#[trigger] t[a]) by {
        let oa = if a < i { a } else { a + 1 };
        assert(t[a] == gs[oa]);
    }
}

impl DataStore {
    /// Place a chunk in the store; a present digest is only touched.
    pub fn insert_chunk(&mut self, chunk: &DataBlob, digest: &[u8; 32], now: i64) -> (r: Result<
        (bool, u64),
        StoreError,
    >)
        requires
            old(self).wf(),
            blob_decodes_to(chunk@) is Some,
            sha256_of(blob_decodes_to(chunk@)->Some_0) == digest@,
            chunk@.len() <= u64::MAX,
        ensures
            final(self).wf(),
            final(self).spec_name() == old(self).spec_name(),
            final(self).spec_path() == old(self).spec_path(),
            r is Ok,
            ({
                let (existed, new_chunks) = spec_insert_chunk(
                    old(self)@.store.chunks,
                    digest@,
                    chunk@,
                    now as int,
                );
                &&& final(self)@ == (DataStoreView {
                    store: (ChunkStoreView { chunks: new_chunks, ..old(self)@.store }),
                    ..old(self)@
                })
                &&& r->Ok_0.0 == existed
                &&& r->Ok_0.1 == chunk_data(final(self)@.store.chunks, digest@).len()
                &&& (!existed ==> r->Ok_0.1 == chunk@.len())
            }),
            store_consistent(old(self)@.store.chunks) ==> store_consistent(
                final(self)@.store.chunks,
            ),
    {
        let ghost old_view = self@;
        let r = self.chunk_store.insert_chunk(chunk, digest, now);
        proof {
            assert(self@ == (DataStoreView { store: self@.store, ..old_view }));
        }
        r
    }

    /// Update the access time of a stored chunk.
    pub fn cond_touch_chunk(&mut self, digest: &[u8; 32], fail_if_not_exist: bool, now: i64) -> (r:
        Result<bool, StoreError>)
        requires
            old(self).wf(),
        ensures
            final(self).wf(),
            final(self).spec_name() == old(self).spec_name(),
            final(self).spec_path() == old(self).spec_path(),
            r matches Ok(found) ==> found == has_chunk(old(self)@.store.chunks, digest@),
            has_chunk(old(self)@.store.chunks, digest@) ==> r is Ok && final(self)@
                == (DataStoreView {
                store: (ChunkStoreView {
                    chunks: old(self)@.store.chunks.update(
                        crate::chunk_store::chunk_idx(old(self)@.store.chunks, digest@),
                        ChunkView {
                            atime: now as int,
                            ..old(self)@.store.chunks[crate::chunk_store::chunk_idx(
                                old(self)@.store.chunks,
                                digest@,
                            )]
                        },
                    ),
                    ..old(self)@.store
                }),
                ..old(self)@
            }),
            !has_chunk(old(self)@.store.chunks, digest@) ==> final(self)@ == old(self)@,
            r is Err <==> (fail_if_not_exist && !has_chunk(old(self)@.store.chunks, digest@)),
            r matches Err(e) ==> e == StoreError::NotFound,
    {
        let ghost old_view = self@;
        let r = self.chunk_store.cond_touch_chunk(digest, fail_if_not_exist, now);
        proof {
            assert(self@ == (DataStoreView { store: self@.store, ..old_view }));
        }
        r
    }

    /// Whether a chunk is stored, and its size.
    pub fn stat_chunk(&self, digest: &[u8; 32]) -> (r: Result<u64, StoreError>)
        requires
            self.wf(),
        ensures
            r matches Ok(n) ==> has_chunk(self@.store.chunks, digest@) && n == chunk_data(
                self@.store.chunks,
                digest@,
            ).len(),
            r is Err ==> !has_chunk(self@.store.chunks, digest@) && r->Err_0
                == StoreError::NotFound,
    {
        self.chunk_store.stat_chunk(digest)
    }

    /// The framed bytes of a stored chunk, as a fresh blob: fails exactly
    /// when the chunk is missing or its frame has lost its magic.
    pub fn load_chunk(&self, digest: &[u8; 32]) -> (r: Result<DataBlob, StoreError>)
        requires
            self.wf(),
        ensures
            r matches Ok(b) ==> b@ == chunk_data(self@.store.chunks, digest@),
            r is Ok <==> has_chunk(self@.store.chunks, digest@)
                && crate::blob::blob_magic_known(chunk_data(self@.store.chunks, digest@)),
            r == Err::<DataBlob, StoreError>(StoreError::NotFound) <==> !has_chunk(
                self@.store.chunks,
                digest@,
            ),
            r == Err::<DataBlob, StoreError>(StoreError::Integrity) <==> has_chunk(
                self@.store.chunks,
                digest@,
            ) && !crate::blob::blob_magic_known(chunk_data(self@.store.chunks, digest@)),
    {
        self.chunk_store.load_chunk(digest)
    }

    /// Record framed bytes under a digest without a content check, as
    /// when an existing directory tree is adopted.
    pub fn adopt_chunk_file(&mut self, digest: &[u8; 32], data: Vec<u8>, atime: i64)
        requires
            old(self).wf(),
            data@.len() <= u64::MAX,
        ensures
            final(self).wf(),
            final(self).spec_name() == old(self).spec_name(),
            final(self).spec_path() == old(self).spec_path(),
            has_chunk(old(self)@.store.chunks, digest@) ==> final(self)@ == old(self)@,
            !has_chunk(old(self)@.store.chunks, digest@) ==> final(self)@ == (DataStoreView {
                store: (ChunkStoreView {
                    chunks: old(self)@.store.chunks.push(
                        ChunkView { digest: digest@, data: data@, atime: atime as int },
                    ),
                    ..old(self)@.store
                }),
                ..old(self)@
            }),
    {
        let ghost old_view = self@;
        self.chunk_store.adopt_chunk_file(digest, data, atime);
        proof {
            assert(self@ == (DataStoreView { store: self@.store, ..old_view }));
        }
    }

    /// Overwrite the framed bytes of a stored chunk in place: the shape
    /// of outside damage to a chunk file.
    pub fn corrupt_chunk_file(&mut self, digest: &[u8; 32], data: Vec<u8>) -> (r: bool)
        requires
            old(self).wf(),
            data@.len() <= u64::MAX,
        ensures
            final(self).wf(),
            final(self).spec_name() == old(self).spec_name(),
            final(self).spec_path() == old(self).spec_path(),
            r == has_chunk(old(self)@.store.chunks, digest@),
            r ==> final(self)@ == (DataStoreView {
                store: (ChunkStoreView {
                    chunks: old(self)@.store.chunks.update(
                        crate::chunk_store::chunk_idx(old(self)@.store.chunks, digest@),
                        ChunkView {
                            data: data@,
                            ..old(self)@.store.chunks[crate::chunk_store::chunk_idx(
                                old(self)@.store.chunks,
                                digest@,
                            )]
                        },
                    ),
                    ..old(self)@.store
                }),
                ..old(self)@
            }),
            !r ==> final(self)@ == old(self)@,
    {
        let ghost old_view = self@;
        let r = self.chunk_store.corrupt_chunk_file(digest, data);
        proof {
            assert(self@ == (DataStoreView { store: self@.store, ..old_view }));
        }
        r
    }

    /// Take a shared lock on the chunk store for a session.
    pub fn try_shared_chunk_store_lock(&mut self, lock_time: i64) -> (r: Result<u64, StoreError>)
        requires
            old(self).wf(),
        ensures
            final(self).wf(),
            final(self).spec_name() == old(self).spec_name(),
            final(self).spec_path() == old(self).spec_path(),
            r is Err <==> old(self)@.store.exclusive || old(self)@.store.next_token == u64::MAX,
            r matches Err(e) ==> e == StoreError::Conflict && final(self)@ == old(self)@,
            r matches Ok(token) ==> final(self)@ == (DataStoreView {
                store: (ChunkStoreView {
                    writers: old(self)@.store.writers.push(
                        GuardView { token, lock_time: lock_time as int },
                    ),
                    next_token: (old(self)@.store.next_token + 1) as u64,
                    ..old(self)@.store
                }),
                ..old(self)@
            }),
    {
        let ghost old_view = self@;
        let r = self.chunk_store.try_shared_lock(lock_time);
        proof {
            assert(self@ == (DataStoreView { store: self@.store, ..old_view }));
        }
        r
    }

    /// Give a shared chunk store lock back.
    pub fn release_shared_chunk_store_lock(&mut self, token: u64)
        requires
            old(self).wf(),
        ensures
            final(self).wf(),
            final(self).spec_name() == old(self).spec_name(),
            final(self).spec_path() == old(self).spec_path(),
            final(self)@ == (DataStoreView {
                store: (ChunkStoreView {
                    writers: old(self)@.store.writers.filter(|g: GuardView| g.token != token),
                    ..old(self)@.store
                }),
                ..old(self)@
            }),
    {
        let ghost old_view = self@;
        self.chunk_store.release_shared_lock(token);
        proof {
            assert(self@ == (DataStoreView { store: self@.store, ..old_view }));
        }
    }

    /// Begin a fixed index for an image.
    pub fn create_fixed_writer(&self, size: u64, chunk_size: u64, uuid: [u8; 16], ctime: i64) -> (r:
        Result<FixedIndexWriter, StoreError>)
        ensures
            r matches Ok(w) ==> {
                &&& w.wf()
                &&& w@.uuid == uuid@
                &&& w@.ctime == ctime
                &&& w@.size == size
                &&& w@.chunk_size == chunk_size
                &&& forall|i: int| 0 <= i < w@.written.len() ==> !(#[trigger] w@.written[i])
            },
            r is Err <==> !(chunk_size > 0 && ctime >= 0 && size + chunk_size <= u64::MAX
                && crate::fixed_index::index_count(size as int, chunk_size as int) <= usize::MAX),
            r matches Err(e) ==> e == StoreError::Protocol,
    {
        FixedIndexWriter::create(size, chunk_size, uuid, ctime)
    }

    /// Begin a dynamic index.
    pub fn create_dynamic_writer(&self, uuid: [u8; 16], ctime: i64) -> (r: Result<
        DynamicIndexWriter,
        StoreError,
    >)
        ensures
            r matches Ok(w) ==> {
                &&& w.wf()
                &&& w@.uuid == uuid@
                &&& w@.ctime == ctime
                &&& w@.entries == Seq::<crate::dynamic_index::DynEntryView>::empty()
            },
            r is Err <==> ctime < 0,
            r matches Err(e) ==> e == StoreError::Protocol,
    {
        DynamicIndexWriter::create(uuid, ctime)
    }
}

/// Whether a snapshot file references a digest.
pub open spec fn file_refs(f: FileView, d: Seq<u8>) -> bool {
    match f.data {
        FileDataView::Fixed(v) => v.digests.contains(d),
        FileDataView::Dynamic(v) => exists|i: int|
            0 <= i < v.entries.len() && (#[trigger] v.entries[i]).digest == d,
        FileDataView::Blob(_) => false,
    }
}

/// Whether any file of a snapshot references a digest.
pub open spec fn snapshot_refs(s: SnapshotView, d: Seq<u8>) -> bool {
    exists|i: int| 0 <= i < s.files.len() && file_refs(#[trigger] s.files[i], d)
}

/// Whether any snapshot of a group references a digest.
pub open spec fn group_refs(g: GroupEntryView, d: Seq<u8>) -> bool {
    exists|i: int| 0 <= i < g.snapshots.len() && snapshot_refs(#[trigger] g.snapshots[i], d)
}

/// Whether any index in the store references a digest: the live set of
/// the collector.
pub open spec fn store_refs(gs: Seq<GroupEntryView>, d: Seq<u8>) -> bool {
    exists|i: int| 0 <= i < gs.len() && group_refs(#[trigger] gs[i], d)
}

/// The chunks after the mark phase: every referenced chunk touched to
/// the mark time, the rest untouched.
pub open spec fn marked_chunks_by_refs(
    chunks: Seq<ChunkView>,
    gs: Seq<GroupEntryView>,
    now: int,
) -> Seq<ChunkView> {
    Seq::new(
        chunks.len(),
        |i: int|
            if store_refs(gs, chunks[i].digest) {
                ChunkView { atime: now, ..chunks[i] }
            } else {
                chunks[i]
            },
    )
}

/// How many index files one snapshot holds.
pub open spec fn files_index_count(fs: Seq<FileView>) -> int
    decreases fs.len(),
{
    if fs.len() == 0 {
        0
    } else {
        files_index_count(fs.drop_last()) + (if fs.last().data is Blob {
            0int
        } else {
            1int
        })
    }
}

/// The logical bytes one file's index describes.
pub open spec fn file_index_bytes(f: FileView) -> int {
    match f.data {
        FileDataView::Fixed(v) => v.size,
        FileDataView::Dynamic(v) => crate::dynamic_index::entries_size(v.entries),
        FileDataView::Blob(_) => 0,
    }
}

/// The logical bytes of one snapshot's indexes.
pub open spec fn files_index_bytes(fs: Seq<FileView>) -> int
    decreases fs.len(),
{
    if fs.len() == 0 {
        0
    } else {
        files_index_bytes(fs.drop_last()) + file_index_bytes(fs.last())
    }
}

/// How many index files one group holds.
pub open spec fn snaps_index_count(ss: Seq<SnapshotView>) -> int
    decreases ss.len(),
{
    if ss.len() == 0 {
        0
    } else {
        snaps_index_count(ss.drop_last()) + files_index_count(ss.last().files)
    }
}

/// The logical bytes of one group's indexes.
pub open spec fn snaps_index_bytes(ss: Seq<SnapshotView>) -> int
    decreases ss.len(),
{
    if ss.len() == 0 {
        0
    } else {
        snaps_index_bytes(ss.drop_last()) + files_index_bytes(ss.last().files)
    }
}

/// How many index files the store holds.
pub open spec fn store_index_count(gs: Seq<GroupEntryView>) -> int
    decreases gs.len(),
{
    if gs.len() == 0 {
        0
    } else {
        store_index_count(gs.drop_last()) + snaps_index_count(gs.last().snapshots)
    }
}

/// The logical bytes of all indexes of the store.
pub open spec fn store_index_bytes(gs: Seq<GroupEntryView>) -> int
    decreases gs.len(),
{
    if gs.len() == 0 {
        0
    } else {
        store_index_bytes(gs.drop_last()) + snaps_index_bytes(gs.last().snapshots)
    }
}

/// An element of a concatenation comes from one of the parts.
proof fn lemma_seq_contains_concat<T>(a: Seq<T>, b: Seq<T>, x: T)
    ensures
        (a + b).contains(x) <==> a.contains(x) || b.contains(x),
{
    if (a + b).contains(x) {
        let i = choose|i: int| 0 <= i < (a + b).len() && (a + b)[i] == x;
        if i < a.len() {
            assert(a[i] == x);
        } else {
            assert(b[i - a.len()] == x);
        }
    }
    if a.contains(x) {
        let i = choose|i: int| 0 <= i < a.len() && a[i] == x;
        assert((a + b)[i] == x);
    }
    if b.contains(x) {
        let i = choose|i: int| 0 <= i < b.len() && b[i] == x;
        assert((a + b)[a.len() + i] == x);
    }
}

/// Prefix sums of the index counters never pass the whole.
proof fn lemma_files_counters_step(fs: Seq<FileView>, j: int)
    requires
        0 <= j < fs.len(),
    ensures
        files_index_count(fs.take(j + 1)) == files_index_count(fs.take(j)) + (if fs[j].data is Blob {
            0int
        } else {
            1int
        }),
        files_index_bytes(fs.take(j + 1)) == files_index_bytes(fs.take(j)) + file_index_bytes(
            fs[j],
        ),
{
    assert(fs.take(j + 1).drop_last() =~= fs.take(j));
    assert(fs.take(j + 1).last() == fs[j]);
}

/// One step of the per-group counters.
proof fn lemma_snaps_counters_step(ss: Seq<SnapshotView>, j: int)
    requires
        0 <= j < ss.len(),
    ensures
        snaps_index_count(ss.take(j + 1)) == snaps_index_count(ss.take(j)) + files_index_count(
            ss[j].files,
        ),
        snaps_index_bytes(ss.take(j + 1)) == snaps_index_bytes(ss.take(j)) + files_index_bytes(
            ss[j].files,
        ),
{
    assert(ss.take(j + 1).drop_last() =~= ss.take(j));
    assert(ss.take(j + 1).last() == ss[j]);
}

/// One step of the store-wide counters.
proof fn lemma_store_counters_step(gs: Seq<GroupEntryView>, j: int)
    requires
        0 <= j < gs.len(),
    ensures
        store_index_count(gs.take(j + 1)) == store_index_count(gs.take(j)) + snaps_index_count(
            gs[j].snapshots,
        ),
        store_index_bytes(gs.take(j + 1)) == store_index_bytes(gs.take(j)) + snaps_index_bytes(
            gs[j].snapshots,
        ),
{
    assert(gs.take(j + 1).drop_last() =~= gs.take(j));
    assert(gs.take(j + 1).last() == gs[j]);
}

/// The index counters are never negative.
proof fn lemma_counters_nonneg(gs: Seq<GroupEntryView>)
    ensures
        store_index_count(gs) >= 0,
    decreases gs.len(),
{
    if gs.len() > 0 {
        lemma_counters_nonneg(gs.drop_last());
        lemma_snaps_count_nonneg(gs.last().snapshots);
    }
}

/// The index byte totals are never negative.
proof fn lemma_bytes_nonneg(gs: Seq<GroupEntryView>)
    requires
        forall|i: int| 0 <= i < gs.len() ==> group_wf(#[trigger] gs[i]),
    ensures
        store_index_bytes(gs) >= 0,
    decreases gs.len(),
{
    if gs.len() > 0 {
        assert(forall|i: int|
            0 <= i < gs.drop_last().len() ==> group_wf(#[trigger] gs.drop_last()[i]));
        lemma_bytes_nonneg(gs.drop_last());
        assert(group_wf(gs.last()));
        lemma_snaps_bytes_nonneg(gs.last().snapshots);
    }
}

/// The per-group index counter is never negative.
proof fn lemma_snaps_count_nonneg(ss: Seq<SnapshotView>)
    ensures
        snaps_index_count(ss) >= 0,
    decreases ss.len(),
{
    if ss.len() > 0 {
        lemma_snaps_count_nonneg(ss.drop_last());
        lemma_files_count_nonneg(ss.last().files);
    }
}

/// The per-snapshot index counter is never negative.
proof fn lemma_files_count_nonneg(fs: Seq<FileView>)
    ensures
        files_index_count(fs) >= 0,
    decreases fs.len(),
{
    if fs.len() > 0 {
        lemma_files_count_nonneg(fs.drop_last());
    }
}

impl DataStore {
    /// Every digest some index of the store references, with the index
    /// counters of the walk.
    fn collect_referenced_digests(&self, status: &mut GarbageCollectionStatus) -> (r: Vec<[u8; 32]>)
        requires
            self.wf(),
            old(status).index_file_count + store_index_count(self@.groups) <= usize::MAX,
            old(status).index_data_bytes + store_index_bytes(self@.groups) <= u64::MAX,
            store_index_bytes(self@.groups) >= 0,
        ensures
            forall|d: Seq<u8>|
                #![trigger store_refs(self@.groups, d)]
                r@.map_values(|x: [u8; 32]| x@).contains(d) <==> store_refs(self@.groups, d),
            final(status).index_file_count == old(status).index_file_count + store_index_count(
                self@.groups,
            ),
            final(status).index_data_bytes == old(status).index_data_bytes + store_index_bytes(
                self@.groups,
            ),
            final(status).upid == old(status).upid,
            final(status).disk_bytes == old(status).disk_bytes,
            final(status).disk_chunks == old(status).disk_chunks,
            final(status).removed_bytes == old(status).removed_bytes,
            final(status).removed_chunks == old(status).removed_chunks,
            final(status).pending_bytes == old(status).pending_bytes,
            final(status).pending_chunks == old(status).pending_chunks,
            final(status).removed_bad == old(status).removed_bad,
            final(status).still_bad == old(status).still_bad,
    {
        let ghost gs = self@.groups;
        let mut r: Vec<[u8; 32]> = Vec::new();
        let ng = self.groups.len();
        let mut gi: usize = 0;
        proof {
            assert(gs.take(0) =~= Seq::<GroupEntryView>::empty());
        }
        while gi < ng
            invariant
                self.wf(),
                gs == self@.groups,
                ng == gs.len(),
                gi <= ng,
                old(status).index_file_count + store_index_count(gs) <= usize::MAX,
                old(status).index_data_bytes + store_index_bytes(gs) <= u64::MAX,
                store_index_bytes(gs) >= 0,
                forall|k: int|
                    0 <= k < r@.len() ==> store_refs(gs, (#[trigger] r@[k])@),
                forall|d: Seq<u8>, g: int|
                    0 <= g < gi && #[trigger] group_refs(gs[g], d) ==> r@.map_values(
                        |x: [u8; 32]| x@,
                    ).contains(d),
                status.index_file_count == old(status).index_file_count + store_index_count(
                    gs.take(gi as int),
                ),
                status.index_data_bytes == old(status).index_data_bytes + store_index_bytes(
                    gs.take(gi as int),
                ),
                status.upid == old(status).upid,
                status.disk_bytes == old(status).disk_bytes,
                status.disk_chunks == old(status).disk_chunks,
                status.removed_bytes == old(status).removed_bytes,
                status.removed_chunks == old(status).removed_chunks,
                status.pending_bytes == old(status).pending_bytes,
                status.pending_chunks == old(status).pending_chunks,
                status.removed_bad == old(status).removed_bad,
                status.still_bad == old(status).still_bad,
            decreases ng - gi,
        {
            let ghost ss = gs[gi as int].snapshots;
            let ns = self.groups[gi].snapshots.len();
            let mut si: usize = 0;
            proof {
                assert(ss.take(0) =~= Seq::<SnapshotView>::empty());
                lemma_store_counters_step(gs, gi as int);
                lemma_counters_bound(gs, gi as int);
            }
            while si < ns
                invariant
                    self.wf(),
                    gs == self@.groups,
                    gi < gs.len(),
                    ss == gs[gi as int].snapshots,
                    ns == ss.len(),
                    si <= ns,
                    old(status).index_file_count + store_index_count(gs) <= usize::MAX,
                    old(status).index_data_bytes + store_index_bytes(gs) <= u64::MAX,
                    forall|k: int|
                        0 <= k < r@.len() ==> store_refs(gs, (#[trigger] r@[k])@),
                    forall|d: Seq<u8>, g: int|
                        0 <= g < gi && #[trigger] group_refs(gs[g], d) ==> r@.map_values(
                            |x: [u8; 32]| x@,
                        ).contains(d),
                    forall|d: Seq<u8>, s: int|
                        0 <= s < si && #[trigger] snapshot_refs(ss[s], d) ==> r@.map_values(
                            |x: [u8; 32]| x@,
                        ).contains(d),
                    status.index_file_count == old(status).index_file_count + store_index_count(
                        gs.take(gi as int),
                    ) + snaps_index_count(ss.take(si as int)),
                    status.index_data_bytes == old(status).index_data_bytes + store_index_bytes(
                        gs.take(gi as int),
                    ) + snaps_index_bytes(ss.take(si as int)),
                    status.upid == old(status).upid,
                    status.disk_bytes == old(status).disk_bytes,
                    status.disk_chunks == old(status).disk_chunks,
                    status.removed_bytes == old(status).removed_bytes,
                    status.removed_chunks == old(status).removed_chunks,
                    status.pending_bytes == old(status).pending_bytes,
                    status.pending_chunks == old(status).pending_chunks,
                    status.removed_bad == old(status).removed_bad,
                    status.still_bad == old(status).still_bad,
                decreases ns - si,
            {
                let ghost fs = ss[si as int].files;
                let nf = self.groups[gi].snapshots[si].files.len();
                let mut fi: usize = 0;
                proof {
                    assert(fs.take(0) =~= Seq::<FileView>::empty());
                    lemma_snaps_counters_step(ss, si as int);
                    lemma_snaps_bound(ss, si as int);
                }
                while fi < nf
                    invariant
                        self.wf(),
                        gs == self@.groups,
                        gi < gs.len(),
                        ss == gs[gi as int].snapshots,
                        si < ss.len(),
                        fs == ss[si as int].files,
                        nf == fs.len(),
                        fi <= nf,
                        old(status).index_file_count + store_index_count(gs) <= usize::MAX,
                        old(status).index_data_bytes + store_index_bytes(gs) <= u64::MAX,
                        forall|k: int|
                            0 <= k < r@.len() ==> store_refs(gs, (#[trigger] r@[k])@),
                        forall|d: Seq<u8>, g: int|
                            0 <= g < gi && #[trigger] group_refs(gs[g], d) ==> r@.map_values(
                                |x: [u8; 32]| x@,
                            ).contains(d),
                        forall|d: Seq<u8>, s: int|
                            0 <= s < si && #[trigger] snapshot_refs(ss[s], d) ==> r@.map_values(
                                |x: [u8; 32]| x@,
                            ).contains(d),
                        forall|d: Seq<u8>, f: int|
                            0 <= f < fi && #[trigger] file_refs(fs[f], d) ==> r@.map_values(
                                |x: [u8; 32]| x@,
                            ).contains(d),
                        status.index_file_count == old(status).index_file_count
                            + store_index_count(gs.take(gi as int)) + snaps_index_count(
                            ss.take(si as int),
                        ) + files_index_count(fs.take(fi as int)),
                        status.index_data_bytes == old(status).index_data_bytes
                            + store_index_bytes(gs.take(gi as int)) + snaps_index_bytes(
                            ss.take(si as int),
                        ) + files_index_bytes(fs.take(fi as int)),
                        status.upid == old(status).upid,
                        status.disk_bytes == old(status).disk_bytes,
                        status.disk_chunks == old(status).disk_chunks,
                        status.removed_bytes == old(status).removed_bytes,
                        status.removed_chunks == old(status).removed_chunks,
                        status.pending_bytes == old(status).pending_bytes,
                        status.pending_chunks == old(status).pending_chunks,
                        status.removed_bad == old(status).removed_bad,
                        status.still_bad == old(status).still_bad,
                    decreases nf - fi,
                {
                    let ghost rs_pre = r@.map_values(|x: [u8; 32]| x@);
                    proof {
                        assert(groups_wf(gs));
                        assert(group_wf(gs[gi as int]));
                        assert(snapshot_wf(ss[si as int]));
                        lemma_files_counters_step(fs, fi as int);
                        lemma_files_bound(fs, fi as int + 1);
                        lemma_snaps_counters_step(ss, si as int);
                        lemma_snaps_bound(ss, si as int + 1);
                        lemma_store_counters_step(gs, gi as int);
                        lemma_counters_bound(gs, gi as int + 1);
                    }
                    match &self.groups[gi].snapshots[si].files[fi].data {
                        FileData::Fixed(idx) => {
                            proof {
                                assert(fs[fi as int].data == FileDataView::Fixed(idx@));
                            }
                            let mut dv = idx.clone_digests();
                            let ghost dvs = dv@.map_values(|x: [u8; 32]| x@);
                            r.append(&mut dv);
                            status.index_file_count = status.index_file_count + 1;
                            status.index_data_bytes = status.index_data_bytes
                                + idx.index_bytes();
                            proof {
                                assert(r@.map_values(|x: [u8; 32]| x@) =~= rs_pre + dvs);
                                assert(dvs == idx@.digests);
                                assert(forall|d: Seq<u8>|
                                    dvs.contains(d) <==> file_refs(fs[fi as int], d));
                                lemma_collect_file_step(gs, gi as int, si as int, fi as int,
                                    rs_pre, dvs);
                                assert forall|k: int|
                                    0 <= k < r@.len() implies store_refs(
                                    gs,
                                    (#[trigger] r@[k])@,
                                ) by {
                                    assert((r@[k])@ == (rs_pre + dvs)[k]);
                                }
                            }
                        }
                        FileData::Dynamic(idx) => {
                            proof {
                                assert(fs[fi as int].data == FileDataView::Dynamic(idx@));
                            }
                            let mut dv = idx.clone_digests();
                            let ghost dvs = dv@.map_values(|x: [u8; 32]| x@);
                            r.append(&mut dv);
                            status.index_file_count = status.index_file_count + 1;
                            status.index_data_bytes = status.index_data_bytes
                                + idx.index_bytes();
                            proof {
                                assert(r@.map_values(|x: [u8; 32]| x@) =~= rs_pre + dvs);
                                let es = idx@.entries;
                                assert(dvs == es.map_values(
                                    |e: crate::dynamic_index::DynEntryView| e.digest,
                                ));
                                assert forall|d: Seq<u8>|
                                    dvs.contains(d) <==> file_refs(fs[fi as int], d) by {
                                    if dvs.contains(d) {
                                        let k = choose|k: int|
                                            0 <= k < dvs.len() && dvs[k] == d;
                                        assert(es[k].digest == d);
                                    }
                                    if file_refs(fs[fi as int], d) {
                                        let k = choose|k: int|
                                            0 <= k < es.len() && (#[trigger] es[k]).digest == d;
                                        assert(dvs[k] == d);
                                    }
                                }
                                lemma_collect_file_step(gs, gi as int, si as int, fi as int,
                                    rs_pre, dvs);
                                assert forall|k: int|
                                    0 <= k < r@.len() implies store_refs(
                                    gs,
                                    (#[trigger] r@[k])@,
                                ) by {
                                    assert((r@[k])@ == (rs_pre + dvs)[k]);
                                }
                            }
                        }
                        FileData::Blob(_) => {
                            proof {
                                assert(forall|d: Seq<u8>| !file_refs(fs[fi as int], d));
                            }
                        }
                    }
                    fi = fi + 1;
                }
                proof {
                    assert(fs.take(nf as int) =~= fs);
                    assert forall|d: Seq<u8>, s: int|
                        0 <= s < si + 1 && #[trigger] snapshot_refs(ss[s], d) implies r@.map_values(
                        |x: [u8; 32]| x@,
                    ).contains(d) by {
                        if s == si as int {
                            let f = choose|f: int|
                                0 <= f < ss[s].files.len() && file_refs(
                                    #[trigger] ss[s].files[f],
                                    d,
                                );
                            assert(file_refs(fs[f], d));
                        }
                    }
                }
                si = si + 1;
            }
            proof {
                assert(ss.take(ns as int) =~= ss);
                assert forall|d: Seq<u8>, g: int|
                    0 <= g < gi + 1 && #[trigger] group_refs(gs[g], d) implies r@.map_values(
                    |x: [u8; 32]| x@,
                ).contains(d) by {
                    if g == gi as int {
                        let s = choose|s: int|
                            0 <= s < gs[g].snapshots.len() && snapshot_refs(
                                #[trigger] gs[g].snapshots[s],
                                d,
                            );
                        assert(snapshot_refs(ss[s], d));
                    }
                }
            }
            gi = gi + 1;
        }
        proof {
            assert(gs.take(ng as int) =~= gs);
            assert forall|d: Seq<u8>|
                #![trigger store_refs(self@.groups, d)]
                r@.map_values(|x: [u8; 32]| x@).contains(d) <==> store_refs(self@.groups, d) by {
                let rs = r@.map_values(|x: [u8; 32]| x@);
                if rs.contains(d) {
                    let k = choose|k: int| 0 <= k < rs.len() && rs[k] == d;
                    assert(rs[k] == (r@[k])@);
                    assert(store_refs(gs, (r@[k])@));
                }
                if store_refs(gs, d) {
                    let g = choose|g: int| 0 <= g < gs.len() && group_refs(#[trigger] gs[g], d);
                    assert(rs.contains(d));
                }
            }
        }
        r
    }
}

/// The digests appended for one index file cover exactly its references,
/// and everything collected stays referenced.
proof fn lemma_collect_file_step(
    gs: Seq<GroupEntryView>,
    gi: int,
    si: int,
    fi: int,
    rs_pre: Seq<Seq<u8>>,
    dvs: Seq<Seq<u8>>,
)
    requires
        0 <= gi < gs.len(),
        0 <= si < gs[gi].snapshots.len(),
        0 <= fi < gs[gi].snapshots[si].files.len(),
        forall|d: Seq<u8>| dvs.contains(d) <==> file_refs(gs[gi].snapshots[si].files[fi], d),
        forall|k: int| 0 <= k < rs_pre.len() ==> store_refs(gs, #[trigger] rs_pre[k]),
    ensures
        forall|k: int| 0 <= k < (rs_pre + dvs).len() ==> store_refs(gs, #[trigger] (rs_pre
            + dvs)[k]),
        forall|d: Seq<u8>|
            rs_pre.contains(d) ==> #[trigger] (rs_pre + dvs).contains(d),
        forall|d: Seq<u8>|
            file_refs(gs[gi].snapshots[si].files[fi], d) ==> #[trigger] (rs_pre + dvs).contains(
                d,
            ),
{
    assert forall|k: int| 0 <= k < (rs_pre + dvs).len() implies store_refs(
        gs,
        #[trigger] (rs_pre + dvs)[k],
    ) by {
        if k < rs_pre.len() {
            assert((rs_pre + dvs)[k] == rs_pre[k]);
        } else {
            let d = (rs_pre + dvs)[k];
            assert(dvs[k - rs_pre.len()] == d);
            assert(dvs.contains(d));
            assert(file_refs(gs[gi].snapshots[si].files[fi], d));
            assert(snapshot_refs(gs[gi].snapshots[si], d));
            assert(group_refs(gs[gi], d));
            assert(store_refs(gs, d));
        }
    }
    assert forall|d: Seq<u8>| rs_pre.contains(d) implies #[trigger] (rs_pre + dvs).contains(
        d,
    ) by {
        lemma_seq_contains_concat(rs_pre, dvs, d);
    }
    assert forall|d: Seq<u8>|
        file_refs(gs[gi].snapshots[si].files[fi], d) implies #[trigger] (rs_pre + dvs).contains(
        d,
    ) by {
        assert(dvs.contains(d));
        lemma_seq_contains_concat(rs_pre, dvs, d);
    }
}

/// A prefix of the store counters never exceeds the whole.
proof fn lemma_counters_bound(gs: Seq<GroupEntryView>, j: int)
    requires
        0 <= j <= gs.len(),
        forall|i: int| 0 <= i < gs.len() ==> group_wf(#[trigger] gs[i]),
    ensures
        store_index_count(gs.take(j)) >= 0,
        store_index_count(gs.take(j)) <= store_index_count(gs),
        store_index_bytes(gs.take(j)) <= store_index_bytes(gs),
    decreases gs.len() - j,
{
    if j == gs.len() {
        assert(gs.take(j) =~= gs);
        lemma_store_nonneg_take(gs, j);
    } else {
        lemma_store_counters_step(gs, j);
        assert(group_wf(gs[j]));
        lemma_snaps_count_nonneg(gs[j].snapshots);
        lemma_snaps_bytes_nonneg(gs[j].snapshots);
        lemma_counters_bound(gs, j + 1);
        lemma_store_nonneg_take(gs, j);
    }
}

/// A prefix count is never negative.
proof fn lemma_store_nonneg_take(gs: Seq<GroupEntryView>, j: int)
    requires
        0 <= j <= gs.len(),
        forall|i: int| 0 <= i < gs.len() ==> group_wf(#[trigger] gs[i]),
    ensures
        store_index_count(gs.take(j)) >= 0,
        store_index_bytes(gs.take(j)) >= 0,
    decreases j,
{
    if j > 0 {
        lemma_store_counters_step(gs, j - 1);
        lemma_store_nonneg_take(gs, j - 1);
        assert(group_wf(gs[j - 1]));
        lemma_snaps_count_nonneg(gs[j - 1].snapshots);
        lemma_snaps_bytes_nonneg(gs[j - 1].snapshots);
    } else {
        assert(gs.take(0) =~= Seq::<GroupEntryView>::empty());
    }
}

/// Per-group byte sums are never negative.
proof fn lemma_snaps_bytes_nonneg(ss: Seq<SnapshotView>)
    requires
        forall|i: int| 0 <= i < ss.len() ==> snapshot_wf(#[trigger] ss[i]),
    ensures
        snaps_index_bytes(ss) >= 0,
    decreases ss.len(),
{
    if ss.len() > 0 {
        assert(forall|i: int|
            0 <= i < ss.drop_last().len() ==> snapshot_wf(#[trigger] ss.drop_last()[i]));
        lemma_snaps_bytes_nonneg(ss.drop_last());
        assert(snapshot_wf(ss.last()));
        lemma_files_bytes_nonneg(ss.last().files);
    }
}

/// A well-formed file describes a nonnegative number of bytes.
proof fn lemma_file_bytes_nonneg(f: FileView)
    requires
        file_data_wf(f.data),
    ensures
        file_index_bytes(f) >= 0,
{
    match f.data {
        FileDataView::Fixed(v) => {}
        FileDataView::Dynamic(v) => {
            if v.entries.len() > 0 {
                assert(0 < v.entries[v.entries.len() - 1].end);
            }
        }
        FileDataView::Blob(_) => {}
    }
}

/// Per-snapshot byte sums are never negative.
proof fn lemma_files_bytes_nonneg(fs: Seq<FileView>)
    requires
        forall|i: int| 0 <= i < fs.len() ==> file_data_wf((#[trigger] fs[i]).data),
    ensures
        files_index_bytes(fs) >= 0,
    decreases fs.len(),
{
    if fs.len() > 0 {
        assert(forall|i: int|
            0 <= i < fs.drop_last().len() ==> file_data_wf((#[trigger] fs.drop_last()[i]).data));
        lemma_files_bytes_nonneg(fs.drop_last());
        lemma_file_bytes_nonneg(fs.last());
    }
}

/// A prefix of the per-group counters never exceeds the whole.
proof fn lemma_snaps_bound(ss: Seq<SnapshotView>, j: int)
    requires
        0 <= j <= ss.len(),
        forall|i: int| 0 <= i < ss.len() ==> snapshot_wf(#[trigger] ss[i]),
    ensures
        snaps_index_count(ss.take(j)) >= 0,
        snaps_index_count(ss.take(j)) <= snaps_index_count(ss),
        snaps_index_bytes(ss.take(j)) <= snaps_index_bytes(ss),
        snaps_index_bytes(ss.take(j)) >= 0,
    decreases ss.len() - j,
{
    if j == ss.len() {
        assert(ss.take(j) =~= ss);
        lemma_snaps_take_nonneg(ss, j);
    } else {
        lemma_snaps_counters_step(ss, j);
        assert(snapshot_wf(ss[j]));
        lemma_files_count_nonneg(ss[j].files);
        lemma_files_bytes_nonneg(ss[j].files);
        lemma_snaps_bound(ss, j + 1);
        lemma_snaps_take_nonneg(ss, j);
    }
}

/// A prefix of the per-group counters is never negative.
proof fn lemma_snaps_take_nonneg(ss: Seq<SnapshotView>, j: int)
    requires
        0 <= j <= ss.len(),
        forall|i: int| 0 <= i < ss.len() ==> snapshot_wf(#[trigger] ss[i]),
    ensures
        snaps_index_count(ss.take(j)) >= 0,
        snaps_index_bytes(ss.take(j)) >= 0,
    decreases j,
{
    if j > 0 {
        lemma_snaps_counters_step(ss, j - 1);
        lemma_snaps_take_nonneg(ss, j - 1);
        assert(snapshot_wf(ss[j - 1]));
        lemma_files_count_nonneg(ss[j - 1].files);
        lemma_files_bytes_nonneg(ss[j - 1].files);
    } else {
        assert(ss.take(0) =~= Seq::<SnapshotView>::empty());
    }
}

/// A prefix of the per-snapshot counters never exceeds the whole.
proof fn lemma_files_bound(fs: Seq<FileView>, j: int)
    requires
        0 <= j <= fs.len(),
        forall|i: int| 0 <= i < fs.len() ==> file_data_wf((#[trigger] fs[i]).data),
    ensures
        files_index_count(fs.take(j)) >= 0,
        files_index_count(fs.take(j)) <= files_index_count(fs),
        files_index_bytes(fs.take(j)) <= files_index_bytes(fs),
        files_index_bytes(fs.take(j)) >= 0,
    decreases fs.len() - j,
{
    if j == fs.len() {
        assert(fs.take(j) =~= fs);
        lemma_files_take_nonneg(fs, j);
    } else {
        lemma_files_counters_step(fs, j);
        lemma_files_bound(fs, j + 1);
        lemma_files_take_nonneg(fs, j);
        lemma_file_bytes_nonneg(fs[j]);
    }
}

/// A prefix of the per-snapshot counters is never negative.
proof fn lemma_files_take_nonneg(fs: Seq<FileView>, j: int)
    requires
        0 <= j <= fs.len(),
        forall|i: int| 0 <= i < fs.len() ==> file_data_wf((#[trigger] fs[i]).data),
    ensures
        files_index_count(fs.take(j)) >= 0,
        files_index_bytes(fs.take(j)) >= 0,
    decreases j,
{
    if j > 0 {
        lemma_files_counters_step(fs, j - 1);
        lemma_files_take_nonneg(fs, j - 1);
        lemma_file_bytes_nonneg(fs[j - 1]);
    } else {
        assert(fs.take(0) =~= Seq::<FileView>::empty());
    }
}

/// The chunks after touching a list of digests: listed digests carry the
/// mark time.
pub open spec fn marked_chunks_list(chunks: Seq<ChunkView>, ds: Seq<Seq<u8>>, now: int) -> Seq<
    ChunkView,
> {
    Seq::new(
        chunks.len(),
        |i: int|
            if ds.contains(chunks[i].digest) {
                ChunkView { atime: now, ..chunks[i] }
            } else {
                chunks[i]
            },
    )
}

/// Containment in a one-longer prefix: the old prefix or the new element.
proof fn lemma_take_one_more_contains<T>(s: Seq<T>, i: int, x: T)
    requires
        0 <= i < s.len(),
    ensures
        s.take(i + 1).contains(x) <==> (s.take(i).contains(x) || s[i] == x),
{
    if s.take(i + 1).contains(x) {
        let k = choose|k: int| 0 <= k < s.take(i + 1).len() && #[trigger] s.take(i + 1)[k] == x;
        if k < i {
            assert(s.take(i)[k] == x);
        }
    }
    if s.take(i).contains(x) {
        let k = choose|k: int| 0 <= k < s.take(i).len() && s.take(i)[k] == x;
        assert(s.take(i + 1)[k] == x);
    }
    if s[i] == x {
        assert(s.take(i + 1)[i] == x);
    }
}

/// Outcome of reading one on-disk index file into the model before a
/// collection.
#[derive(Clone, Copy, Debug, PartialEq, Eq, Structural)]
pub enum AdoptResult {
    /// The file parsed and its snapshot stands in the model.
    Adopted,
    /// The file could not be read in.
    Unreadable,
}

/// Whether a collection may proceed after a tree walk: a single file the
/// walk could not read in forbids the sweep, which would otherwise
/// delete the chunks that file still references.
pub fn gc_admissible(adoptions: &Vec<AdoptResult>) -> (r: bool)
    ensures
        r <==> forall|i: int|
            0 <= i < adoptions@.len() ==> adoptions@[i] == AdoptResult::Adopted,
{
    let n = adoptions.len();
    let mut i: usize = 0;
    while i < n
        invariant
            n == adoptions@.len(),
            i <= n,
            forall|j: int| 0 <= j < i ==> adoptions@[j] == AdoptResult::Adopted,
        decreases n - i,
    {
        if !matches!(adoptions[i], AdoptResult::Adopted) {
            proof {
                assert(adoptions@[i as int] != AdoptResult::Adopted);
            }
            return false;
        }
        i = i + 1;
    }
    true
}

/// Whether the store grants a collection run: no other run, and the
/// exclusive lock free.
pub open spec fn gc_allowed(pre: DataStoreView) -> bool {
    !pre.gc_running && !pre.store.exclusive
}

/// The floor of the sweep cutoff: the oldest live writer's lock time.
pub open spec fn writer_floor(ws: Seq<GuardView>, t: int) -> bool {
    &&& exists|i: int| 0 <= i < ws.len() && (#[trigger] ws[i]).lock_time == t
    &&& forall|i: int| 0 <= i < ws.len() ==> (#[trigger] ws[i]).lock_time >= t
}

/// What one collection run does: mark every referenced chunk at the run
/// time, sweep with the cutoff under the oldest writer, and record the
/// counters; the tree itself is untouched.
pub open spec fn gc_ok(pre: DataStoreView, post: DataStoreView, ow: int, now: int) -> bool {
    let marked = marked_chunks_by_refs(pre.store.chunks, pre.groups, now);
    let cutoff = crate::chunk_store::sweep_cutoff(ow, now);
    let floor = cutoff + crate::chunk_store::GC_SAFE_MARGIN;
    let kept = crate::chunk_store::swept_chunks(marked, cutoff);
    &&& post.groups == pre.groups
    &&& post.verify_new == pre.verify_new
    &&& post.chunk_order == pre.chunk_order
    &&& !post.gc_running
    &&& post.store.writers == pre.store.writers
    &&& post.store.next_token == pre.store.next_token
    &&& !post.store.exclusive
    &&& post.store.chunks == kept
    &&& post.last_gc.index_file_count == store_index_count(pre.groups)
    &&& post.last_gc.index_data_bytes == store_index_bytes(pre.groups)
    &&& post.last_gc.removed_chunks == crate::chunk_store::removed_chunks_of(
        marked,
        cutoff,
    ).len()
    &&& post.last_gc.removed_bytes == crate::chunk_store::chunk_bytes(
        crate::chunk_store::removed_chunks_of(marked, cutoff),
    )
    &&& post.last_gc.pending_chunks == crate::chunk_store::pending_chunks_of(
        marked,
        cutoff,
        floor,
    ).len()
    &&& post.last_gc.pending_bytes == crate::chunk_store::chunk_bytes(
        crate::chunk_store::pending_chunks_of(marked, cutoff, floor),
    )
    &&& post.last_gc.disk_chunks == crate::chunk_store::disk_chunks_of(marked, floor).len()
    &&& post.last_gc.disk_bytes == crate::chunk_store::chunk_bytes(
        crate::chunk_store::disk_chunks_of(marked, floor),
    )
}

impl DataStore {
    /// The mark phase: touch every chunk some index references, touch the
    /// `.bad` files of referenced but missing chunks, and count the
    /// indexes walked.
    fn mark_used_chunks(&mut self, now: i64, status: &mut GarbageCollectionStatus)
        requires
            old(self).wf(),
            old(status).index_file_count + store_index_count(old(self)@.groups) <= usize::MAX,
            old(status).index_data_bytes + store_index_bytes(old(self)@.groups) <= u64::MAX,
        ensures
            final(self).wf(),
            final(self).spec_name() == old(self).spec_name(),
            final(self).spec_path() == old(self).spec_path(),
            final(self)@.groups == old(self)@.groups,
            final(self)@.gc_running == old(self)@.gc_running,
            final(self)@.verify_new == old(self)@.verify_new,
            final(self)@.chunk_order == old(self)@.chunk_order,
            final(self)@.last_gc == old(self)@.last_gc,
            final(self)@.store.writers == old(self)@.store.writers,
            final(self)@.store.next_token == old(self)@.store.next_token,
            final(self)@.store.exclusive == old(self)@.store.exclusive,
            final(self)@.store.chunks == marked_chunks_by_refs(
                old(self)@.store.chunks,
                old(self)@.groups,
                now as int,
            ),
            final(self)@.store.bad.len() == old(self)@.store.bad.len(),
            forall|i: int|
                0 <= i < old(self)@.store.bad.len() ==> (#[trigger] final(self)@.store.bad[i]).digest
                    == old(self)@.store.bad[i].digest && (final(self)@.store.bad[i].atime == old(
                    self,
                )@.store.bad[i].atime || final(self)@.store.bad[i].atime == now),
            final(status).index_file_count == old(status).index_file_count + store_index_count(
                old(self)@.groups,
            ),
            final(status).index_data_bytes == old(status).index_data_bytes + store_index_bytes(
                old(self)@.groups,
            ),
            final(status).upid == old(status).upid,
            final(status).disk_bytes == old(status).disk_bytes,
            final(status).disk_chunks == old(status).disk_chunks,
            final(status).removed_bytes == old(status).removed_bytes,
            final(status).removed_chunks == old(status).removed_chunks,
            final(status).pending_bytes == old(status).pending_bytes,
            final(status).pending_chunks == old(status).pending_chunks,
            final(status).removed_bad == old(status).removed_bad,
            final(status).still_bad == old(status).still_bad,
            store_consistent(old(self)@.store.chunks) ==> store_consistent(
                final(self)@.store.chunks,
            ),
    {
        let ghost old_view = self@;
        let ghost orig = self@.store.chunks;
        proof {
            lemma_bytes_nonneg(self@.groups);
        }
        let digests = self.collect_referenced_digests(status);
        let ghost ds = digests@.map_values(|x: [u8; 32]| x@);
        let n = digests.len();
        let mut i: usize = 0;
        proof {
            assert(ds.take(0) =~= Seq::<Seq<u8>>::empty());
            assert(self@.store.chunks =~= marked_chunks_list(orig, ds.take(0), now as int));
        }
        while i < n
            invariant
                old(self).wf(),
                self.wf(),
                old_view == old(self)@,
                self.spec_name() == old(self).spec_name(),
                self.spec_path() == old(self).spec_path(),
                orig == old_view.store.chunks,
                ds == digests@.map_values(|x: [u8; 32]| x@),
                n == ds.len(),
                i <= n,
                self@ == (DataStoreView { store: self@.store, ..old_view }),
                self@.store.writers == old_view.store.writers,
                self@.store.next_token == old_view.store.next_token,
                self@.store.exclusive == old_view.store.exclusive,
                self@.store.chunks =~= marked_chunks_list(orig, ds.take(i as int), now as int),
                self@.store.bad.len() == old_view.store.bad.len(),
                forall|k: int|
                    0 <= k < old_view.store.bad.len()
                        ==> (#[trigger] self@.store.bad[k]).digest
                        == old_view.store.bad[k].digest && (self@.store.bad[k].atime
                        == old_view.store.bad[k].atime || self@.store.bad[k].atime == now),
                store_consistent(orig) ==> store_consistent(self@.store.chunks),
            decreases n - i,
        {
            let ghost pre_chunks = self@.store.chunks;
            proof {
                assert(ds[i as int] == (digests@[i as int])@);
                lemma_take_one_more_contains(ds, i as int, ds[i as int]);
            }
            let d = digests[i];
            let found = match self.chunk_store.cond_touch_chunk(&d, false, now) {
                Ok(f) => f,
                Err(_) => false,
            };
            proof {
                assert(self@ == (DataStoreView { store: self@.store, ..old_view }));
                let cur = self@.store.chunks;
                let target = marked_chunks_list(orig, ds.take(i + 1), now as int);
                assert forall|k: int| 0 <= k < orig.len() implies #[trigger] target[k]
                    == cur[k] by {
                    lemma_take_one_more_contains(ds, i as int, orig[k].digest);
                    assert(pre_chunks[k].digest == orig[k].digest);
                    assert(pre_chunks[k].data == orig[k].data);
                    if found {
                        let idx = crate::chunk_store::chunk_idx(pre_chunks, d@);
                        assert(has_chunk(pre_chunks, d@));
                        assert(pre_chunks[idx].digest == d@);
                        if k == idx {
                            assert(orig[k].digest == d@);
                            assert(ds.take(i + 1).contains(orig[k].digest));
                            assert(cur[k] == ChunkView { atime: now as int, ..pre_chunks[k] });
                        } else {
                            assert(cur[k] == pre_chunks[k]);
                            assert(orig[k].digest != d@) by {
                                if orig[k].digest == d@ {
                                    assert(pre_chunks[k].digest == d@);
                                    assert(pre_chunks[idx].digest == d@);
                                    assert(crate::chunk_store::unique_digests(pre_chunks));
                                }
                            }
                        }
                    } else {
                        assert(!has_chunk(pre_chunks, d@));
                        assert(cur[k] == pre_chunks[k]);
                        assert(orig[k].digest != d@) by {
                            if orig[k].digest == d@ {
                                assert(pre_chunks[k].digest == d@);
                            }
                        }
                    }
                }
                assert(cur =~= target);
            }
            if !found {
                self.chunk_store.touch_bad_chunks(&d, now);
                proof {
                    assert(self@ == (DataStoreView { store: self@.store, ..old_view }));
                    assert(self@.store.chunks =~= marked_chunks_list(
                        orig,
                        ds.take(i + 1),
                        now as int,
                    ));
                }
            }
            i = i + 1;
        }
        proof {
            assert(ds.take(n as int) =~= ds);
            let marked = marked_chunks_by_refs(orig, old_view.groups, now as int);
            assert forall|k: int| 0 <= k < orig.len() implies #[trigger] marked[k]
                == self@.store.chunks[k] by {
                assert(ds.contains(orig[k].digest) <==> store_refs(
                    old_view.groups,
                    orig[k].digest,
                ));
            }
            assert(self@.store.chunks =~= marked);
        }
    }

    /// One mark-and-sweep collection: refuse a second concurrent run,
    /// read the oldest writer under the exclusive lock, touch every
    /// referenced chunk, sweep the rest, and record the counters.
    pub fn garbage_collection(&mut self, upid: Option<String>, now: i64) -> (r: Result<
        (),
        StoreError,
    >)
        requires
            old(self).wf(),
            now >= i64::MIN + crate::chunk_store::GC_SAFE_MARGIN,
            forall|i: int|
                0 <= i < old(self)@.store.writers.len()
                    ==> (#[trigger] old(self)@.store.writers[i]).lock_time >= i64::MIN
                    + crate::chunk_store::GC_SAFE_MARGIN && old(self)@.store.writers[i].lock_time
                    <= i64::MAX,
            store_index_count(old(self)@.groups) <= usize::MAX,
            store_index_bytes(old(self)@.groups) <= u64::MAX,
            old(self)@.store.chunks.len() <= usize::MAX,
            old(self)@.store.bad.len() <= usize::MAX,
            crate::chunk_store::chunk_bytes(old(self)@.store.chunks) <= u64::MAX,
        ensures
            final(self).wf(),
            final(self).spec_name() == old(self).spec_name(),
            final(self).spec_path() == old(self).spec_path(),
            r is Err <==> !gc_allowed(old(self)@),
            r matches Err(e) ==> e == StoreError::Conflict && final(self)@ == old(self)@,
            r is Ok ==> final(self)@.last_gc.upid == upid,
            r is Ok && old(self)@.store.writers.len() == 0 ==> gc_ok(
                old(self)@,
                final(self)@,
                now as int,
                now as int,
            ),
            r is Ok && old(self)@.store.writers.len() > 0 ==> exists|ow: int|
                writer_floor(old(self)@.store.writers, ow) && gc_ok(
                    old(self)@,
                    final(self)@,
                    ow,
                    now as int,
                ),
            store_consistent(old(self)@.store.chunks) ==> store_consistent(
                final(self)@.store.chunks,
            ),
    {
        let ghost old_view = self@;
        if self.gc_running {
            return Err(StoreError::Conflict);
        }
        match self.chunk_store.try_exclusive_lock() {
            Ok(_) => {}
            Err(e) => {
                return Err(e);
            }
        }
        self.gc_running = true;
        proof {
            assert(self@ == (DataStoreView {
                gc_running: true,
                store: self@.store,
                ..old_view
            }));
        }
        let ghost locked_view = self@;
        let phase1_start = now;
        let oldest_writer = match self.chunk_store.oldest_writer() {
            Some(t) => t,
            None => now,
        };
        let mut status = GarbageCollectionStatus::empty();
        status.upid = upid;
        self.mark_used_chunks(now, &mut status);
        let ghost marked = self@.store.chunks;
        proof {
            lemma_marked_preserves_bytes(old_view.store.chunks, old_view.groups, now as int);
            lemma_counters_nonneg(old_view.groups);
            lemma_bytes_nonneg(old_view.groups);
        }
        let _ = self.chunk_store.sweep_unused_chunks(oldest_writer, phase1_start, &mut status);
        self.last_gc_status = status;
        self.chunk_store.release_exclusive_lock();
        self.gc_running = false;
        proof {
            let ow = oldest_writer as int;
            assert(marked == marked_chunks_by_refs(
                old_view.store.chunks,
                old_view.groups,
                now as int,
            ));
            assert(gc_ok(old_view, self@, ow, now as int));
            if old_view.store.writers.len() > 0 {
                assert(writer_floor(old_view.store.writers, ow));
            }
        }
        Ok(())
    }
}

/// Marking changes no chunk's bytes, so the total is unchanged.
proof fn lemma_marked_preserves_bytes(
    chunks: Seq<ChunkView>,
    gs: Seq<GroupEntryView>,
    now: int,
)
    ensures
        crate::chunk_store::chunk_bytes(marked_chunks_by_refs(chunks, gs, now))
            == crate::chunk_store::chunk_bytes(chunks),
        marked_chunks_by_refs(chunks, gs, now).len() == chunks.len(),
    decreases chunks.len(),
{
    let m = marked_chunks_by_refs(chunks, gs, now);
    if chunks.len() > 0 {
        lemma_marked_preserves_bytes(chunks.drop_last(), gs, now);
        assert(m.drop_last() =~= marked_chunks_by_refs(chunks.drop_last(), gs, now));
        assert(m.last().data == chunks.last().data);
    } else {
        assert(m =~= Seq::<ChunkView>::empty());
    }
}

/// Every element of a filtered chunk list comes from the original.
proof fn lemma_chunk_filter_elem_from(
    s: Seq<ChunkView>,
    pred: spec_fn(ChunkView) -> bool,
    i: int,
)
    requires
        0 <= i < s.filter(pred).len(),
    ensures
        exists|j: int| 0 <= j < s.len() && s[j] == s.filter(pred)[i],
    decreases s.len(),
{
    reveal_with_fuel(Seq::<ChunkView>::filter, 2);
    if s.len() > 0 {
        let f = s.filter(pred);
        let fd = s.drop_last().filter(pred);
        if pred(s.last()) && i == f.len() - 1 {
            assert(s[s.len() - 1] == f[i]);
        } else {
            assert(f[i] == fd[i]);
            lemma_chunk_filter_elem_from(s.drop_last(), pred, i);
            let j = choose|j: int| 0 <= j < s.drop_last().len() && s.drop_last()[j] == fd[i];
            assert(s[j] == f[i]);
        }
    }
}

/// Filtering keeps chunk digests unique.
proof fn lemma_chunk_filter_unique(s: Seq<ChunkView>, pred: spec_fn(ChunkView) -> bool)
    requires
        crate::chunk_store::unique_digests(s),
    ensures
        crate::chunk_store::unique_digests(s.filter(pred)),
    decreases s.len(),
{
    reveal_with_fuel(Seq::<ChunkView>::filter, 2);
    if s.len() > 0 {
        lemma_chunk_filter_unique(s.drop_last(), pred);
        let f = s.filter(pred);
        let fd = s.drop_last().filter(pred);
        if pred(s.last()) {
            assert(f == fd.push(s.last()));
            assert forall|a: int, b: int|
                0 <= a < b < f.len() implies f[a].digest != f[b].digest by {
                if b < f.len() - 1 {
                    assert(f[a] == fd[a] && f[b] == fd[b]);
                } else {
                    assert(f[a] == fd[a]);
                    lemma_chunk_filter_elem_from(s.drop_last(), pred, a);
                    let j = choose|j: int|
                        0 <= j < s.drop_last().len() && s.drop_last()[j] == fd[a];
                    assert(s[j].digest != s[s.len() - 1].digest);
                }
            }
        }
    }
}

/// Content addressing: in a consistent store, the bytes stored under any
/// digest decode to a plaintext whose digest is exactly that name.
pub proof fn lemma_content_addressing(s: Seq<ChunkView>, d: Seq<u8>)
    requires
        store_consistent(s),
        has_chunk(s, d),
    ensures
        blob_decodes_to(chunk_data(s, d)) is Some,
        sha256_of(blob_decodes_to(chunk_data(s, d))->Some_0) == d,
{
    let i = crate::chunk_store::chunk_idx(s, d);
    assert(0 <= i < s.len() && s[i].digest == d);
}

/// No data loss under a concurrent collection: a chunk that was touched
/// or inserted no earlier than the oldest writer's lock time — as every
/// chunk of a running session is — survives the sweep with its bytes
/// unchanged, and so does every chunk an index still references.
pub proof fn lemma_gc_session_chunk_survives(
    pre: DataStoreView,
    post: DataStoreView,
    d: Seq<u8>,
    ow: int,
    now: int,
)
    requires
        crate::chunk_store::store_wf(pre.store),
        gc_ok(pre, post, ow, now),
        has_chunk(pre.store.chunks, d),
        crate::chunk_store::chunk_atime(pre.store.chunks, d) >= ow || store_refs(pre.groups, d),
    ensures
        has_chunk(post.store.chunks, d),
        chunk_data(post.store.chunks, d) == chunk_data(pre.store.chunks, d),
{
    let marked = marked_chunks_by_refs(pre.store.chunks, pre.groups, now);
    let cutoff = crate::chunk_store::sweep_cutoff(ow, now);
    let pred = |e: ChunkView| e.atime >= cutoff;
    let i = crate::chunk_store::chunk_idx(pre.store.chunks, d);
    assert(0 <= i < pre.store.chunks.len() && pre.store.chunks[i].digest == d);
    assert(marked[i].digest == d && marked[i].data == pre.store.chunks[i].data);
    assert(marked[i].atime >= cutoff) by {
        if store_refs(pre.groups, d) {
            assert(marked[i].atime == now);
        } else {
            assert(marked[i].atime == pre.store.chunks[i].atime);
            assert(pre.store.chunks[i].atime >= ow);
        }
    }
    assert(crate::chunk_store::unique_digests(marked)) by {
        assert forall|a: int, b: int|
            0 <= a < b < marked.len() implies marked[a].digest != marked[b].digest by {
            assert(marked[a].digest == pre.store.chunks[a].digest);
            assert(marked[b].digest == pre.store.chunks[b].digest);
        }
    }
    marked.lemma_filter_contains(pred, i);
    let kept = marked.filter(pred);
    assert(kept.contains(marked[i]));
    let j = choose|j: int| 0 <= j < kept.len() && kept[j] == marked[i];
    assert(has_chunk(post.store.chunks, d)) by {
        assert(kept[j].digest == d);
    }
    lemma_chunk_filter_unique(marked, pred);
    crate::chunk_store::lemma_chunk_idx_unique(kept, d, j);
    assert(chunk_data(post.store.chunks, d) == kept[j].data);
}

/// No orphans after a quiet collection: with no live writer and every
/// chunk resting longer than the safety margin, exactly the chunks some
/// index references remain after the run.
pub proof fn lemma_gc_removes_all_orphans(pre: DataStoreView, post: DataStoreView, now: int)
    requires
        crate::chunk_store::store_wf(pre.store),
        gc_ok(pre, post, now, now),
        forall|i: int|
            0 <= i < pre.store.chunks.len() ==> (#[trigger] pre.store.chunks[i]).atime
                < crate::chunk_store::sweep_cutoff(now, now),
    ensures
        forall|d: Seq<u8>|
            #![trigger has_chunk(post.store.chunks, d)]
            has_chunk(post.store.chunks, d) <==> (has_chunk(pre.store.chunks, d) && store_refs(
                pre.groups,
                d,
            )),
{
    let marked = marked_chunks_by_refs(pre.store.chunks, pre.groups, now);
    let cutoff = crate::chunk_store::sweep_cutoff(now, now);
    let pred = |e: ChunkView| e.atime >= cutoff;
    let kept = marked.filter(pred);
    assert forall|d: Seq<u8>|
        #![trigger has_chunk(post.store.chunks, d)]
        has_chunk(post.store.chunks, d) <==> (has_chunk(pre.store.chunks, d) && store_refs(
            pre.groups,
            d,
        )) by {
        if has_chunk(post.store.chunks, d) {
            let j = choose|j: int| 0 <= j < kept.len() && kept[j].digest == d;
            marked.lemma_filter_pred(pred, j);
            lemma_chunk_filter_elem_from(marked, pred, j);
            let k = choose|k: int| 0 <= k < marked.len() && marked[k] == kept[j];
            assert(pre.store.chunks[k].digest == d);
            assert(has_chunk(pre.store.chunks, d));
            assert(store_refs(pre.groups, d)) by {
                if !store_refs(pre.groups, pre.store.chunks[k].digest) {
                    assert(marked[k].atime == pre.store.chunks[k].atime);
                    assert(marked[k].atime < cutoff);
                }
            }
        }
        if has_chunk(pre.store.chunks, d) && store_refs(pre.groups, d) {
            lemma_gc_session_chunk_survives(pre, post, d, now, now);
        }
    }
}

/// The stream a dynamic index reads back: the plaintext of each
/// referenced chunk, in entry order.
pub open spec fn read_back(chunks: Seq<ChunkView>, entries: Seq<crate::dynamic_index::DynEntryView>) -> Seq<
    Seq<u8>,
> {
    Seq::new(
        entries.len(),
        |i: int| blob_decodes_to(chunk_data(chunks, entries[i].digest))->Some_0,
    )
}

/// A chunked stream, put back together.
pub open spec fn flatten_stream(cs: Seq<Seq<u8>>) -> Seq<u8>
    decreases cs.len(),
{
    if cs.len() == 0 {
        Seq::empty()
    } else {
        flatten_stream(cs.drop_last()) + cs.last()
    }
}

/// Index round trip: a stream cut into chunks, stored content-addressed
/// and referenced by a dynamic index, reads back as the same stream.
pub proof fn lemma_stream_round_trip(
    chunks: Seq<ChunkView>,
    entries: Seq<crate::dynamic_index::DynEntryView>,
    cs: Seq<Seq<u8>>,
)
    requires
        entries.len() == cs.len(),
        forall|i: int|
            0 <= i < entries.len() ==> has_chunk(chunks, (#[trigger] entries[i]).digest)
                && blob_decodes_to(chunk_data(chunks, entries[i].digest)) == Some(cs[i]),
    ensures
        read_back(chunks, entries) == cs,
        flatten_stream(read_back(chunks, entries)) == flatten_stream(cs),
{
    assert(read_back(chunks, entries) =~= cs);
}

/// The owner of a group is written exactly once: the first session on a
/// missing group records its caller, and any later session start, which
/// only takes the group lock, hands the record back unchanged.
pub proof fn lemma_owner_written_once(
    gs0: Seq<GroupEntryView>,
    ty: Seq<char>,
    id: Seq<char>,
    first: AuthidView,
)
    requires
        groups_unique(gs0),
        !has_group(gs0, ty, id),
    ensures
        ({
            let created = GroupEntryView {
                ty: ty,
                id: id,
                owner: Some(first),
                locked: true,
                snapshots: Seq::empty(),
            };
            let gs1 = gs0.push(created);
            let gi = group_idx(gs1, ty, id);
            let gs2 = gs1.update(gi, GroupEntryView { locked: true, ..gs1[gi] });
            &&& gs1[gi].owner == Some(first)
            &&& gs2[group_idx(gs2, ty, id)].owner == Some(first)
        }),
{
    let created = GroupEntryView {
        ty: ty,
        id: id,
        owner: Some(first),
        locked: true,
        snapshots: Seq::empty(),
    };
    let gs1 = gs0.push(created);
    assert(groups_unique(gs1)) by {
        assert forall|a: int, b: int|
            0 <= a < b < gs1.len() implies !(gs1[a].ty == gs1[b].ty && gs1[a].id == gs1[b].id) by {
            assert(gs1[a] == gs0[a]);
            if b < gs1.len() - 1 {
                assert(gs1[b] == gs0[b]);
            }
        }
    }
    assert(gs1[gs1.len() - 1].ty == ty && gs1[gs1.len() - 1].id == id);
    lemma_group_idx_unique(gs1, ty, id, gs1.len() - 1);
    let gi = group_idx(gs1, ty, id);
    let gs2 = gs1.update(gi, GroupEntryView { locked: true, ..gs1[gi] });
    assert(groups_unique(gs2)) by {
        assert forall|a: int, b: int|
            0 <= a < b < gs2.len() implies !(gs2[a].ty == gs2[b].ty && gs2[a].id == gs2[b].id) by {
            assert(gs2[a].ty == gs1[a].ty && gs2[a].id == gs1[a].id);
            assert(gs2[b].ty == gs1[b].ty && gs2[b].id == gs1[b].id);
        }
    }
    assert(gs2[gi].ty == ty && gs2[gi].id == id);
    lemma_group_idx_unique(gs2, ty, id, gi);
}

impl DataStore {
    /// Check that every chunk an index references is stored, keeping a
    /// list of digests already seen so repeated references are not
    /// stat'ed twice. Fails exactly on the first digest that is neither
    /// seen nor stored.
    pub fn fast_index_verification(&self, index: &FileData, checked: &mut Vec<[u8; 32]>) -> (r:
        Result<(), StoreError>)
        requires
            self.wf(),
            file_data_wf(index@),
        ensures
            index@ is Blob ==> r == Err::<(), StoreError>(StoreError::Protocol) && final(checked)@
                == old(checked)@,
            !(index@ is Blob) ==> {
                let ds = index_digest_list(index@);
                &&& (r is Ok <==> forall|i: int|
                    0 <= i < ds.len() ==> knows_digest(old(checked)@, #[trigger] ds[i])
                        || has_chunk(self@.store.chunks, ds[i]))
                &&& (r matches Err(e) ==> e == StoreError::NotFound)
            },
            old(checked)@.len() <= final(checked)@.len(),
            forall|k: int| 0 <= k < old(checked)@.len() ==> final(checked)@[k] == old(checked)@[k],
            forall|k: int|
                old(checked)@.len() <= k < final(checked)@.len() ==> has_chunk(
                    self@.store.chunks,
                    (#[trigger] final(checked)@[k])@,
                ),
    {
        let digests = match index {
            FileData::Fixed(idx) => idx.clone_digests(),
            FileData::Dynamic(idx) => idx.clone_digests(),
            FileData::Blob(_) => {
                return Err(StoreError::Protocol);
            }
        };
        let ghost ds = index_digest_list(index@);
        proof {
            assert(digests@.map_values(|d: [u8; 32]| d@) == ds);
        }
        let ghost old_checked = checked@;
        let n = digests.len();
        let mut i: usize = 0;
        while i < n
            invariant
                self.wf(),
                !(index@ is Blob),
                ds == index_digest_list(index@),
                ds == digests@.map_values(|d: [u8; 32]| d@),
                n == ds.len(),
                i <= n,
                old_checked == old(checked)@,
                old_checked.len() <= checked@.len(),
                forall|k: int| 0 <= k < old_checked.len() ==> checked@[k] == old_checked[k],
                forall|k: int|
                    old_checked.len() <= k < checked@.len() ==> has_chunk(
                        self@.store.chunks,
                        (#[trigger] checked@[k])@,
                    ),
                forall|j: int|
                    0 <= j < i ==> knows_digest(old_checked, #[trigger] ds[j]) || has_chunk(
                        self@.store.chunks,
                        ds[j],
                    ),
            decreases n - i,
        {
            let d = digests[i];
            proof {
                assert(d@ == ds[i as int]);
            }
            let seen = digest_in_list(checked, &d);
            if !seen {
                match self.stat_chunk(&d) {
                    Ok(_) => {}
                    Err(_) => {
                        proof {
                            assert(!knows_digest(old_checked, ds[i as int])) by {
                                if knows_digest(old_checked, ds[i as int]) {
                                    let q = choose|q: int|
                                        0 <= q < old_checked.len()
                                            && (#[trigger] old_checked[q])@ == ds[i as int];
                                    assert((checked@[q])@ == d@);
                                }
                            }
                        }
                        return Err(StoreError::NotFound);
                    }
                }
                let ghost pre = checked@;
                checked.push(d);
                proof {
                    assert(checked@ =~= pre.push(d));
                }
            } else {
                proof {
                    assert(knows_digest(old_checked, ds[i as int]) || has_chunk(
                        self@.store.chunks,
                        ds[i as int],
                    )) by {
                        let q = choose|q: int|
                            0 <= q < checked@.len() && (#[trigger] checked@[q])@ == ds[i as int];
                        if q < old_checked.len() {
                            assert(old_checked[q]@ == ds[i as int]);
                        }
                    }
                }
            }
            i = i + 1;
        }
        Ok(())
    }
}

/// Whether a digest already stands in the seen list.
pub open spec fn knows_digest(ks: Seq<[u8; 32]>, d: Seq<u8>) -> bool {
    exists|i: int| 0 <= i < ks.len() && (#[trigger] ks[i])@ == d
}

/// Scan the seen list for a digest.
fn digest_in_list(ks: &Vec<[u8; 32]>, d: &[u8; 32]) -> (r: bool)
    ensures
        r == knows_digest(ks@, d@),
{
    let n = ks.len();
    let mut k: usize = 0;
    while k < n
        invariant
            n == ks@.len(),
            k <= n,
            forall|q: int| 0 <= q < k ==> (#[trigger] ks@[q])@ != d@,
        decreases n - k,
    {
        if crate::digest::digest_eq(&ks[k], d) {
            proof {
                assert((ks@[k as int])@ == d@);
            }
            return true;
        }
        k = k + 1;
    }
    false
}

/// The digests an index file references, in order.
pub open spec fn index_digest_list(d: FileDataView) -> Seq<Seq<u8>> {
    match d {
        FileDataView::Fixed(v) => v.digests,
        FileDataView::Dynamic(v) => v.entries.map_values(
            |e: crate::dynamic_index::DynEntryView| e.digest,
        ),
        FileDataView::Blob(_) => Seq::empty(),
    }
}

} // verus!
