//! The manifest of one snapshot: its file list with integrity metadata.

use vstd::prelude::*;

use crate::digest::digest_eq;
use crate::error::StoreError;

verus! {

/// How a file's chunks are protected.
#[derive(Clone, Copy, Debug, PartialEq, Eq, Structural)]
pub enum CryptMode {
    /// Stored in the clear.
    Plain,
    /// Encrypted and authenticated.
    Encrypt,
    /// Stored in the clear with a signature.
    SignOnly,
}

/// One file of a snapshot, as the manifest lists it.
pub struct FileInfo {
    pub filename: String,
    pub size: u64,
    pub csum: [u8; 32],
    pub crypt_mode: CryptMode,
}

/// Ghost image of one manifest entry.
pub struct FileInfoView {
    pub filename: Seq<char>,
    pub size: int,
    pub csum: Seq<u8>,
    pub crypt_mode: CryptMode,
}

impl View for FileInfo {
    type V = FileInfoView;

    open spec fn view(&self) -> FileInfoView {
        FileInfoView {
            filename: self.filename@,
            size: self.size as int,
            csum: self.csum@,
            crypt_mode: self.crypt_mode,
        }
    }
}

/// Ghost image of a manifest.
pub struct ManifestView {
    pub ty: Seq<char>,
    pub id: Seq<char>,
    pub time: int,
    pub files: Seq<FileInfoView>,
}

/// Whether some listed file carries the name.
pub open spec fn manifest_has_file(files: Seq<FileInfoView>, name: Seq<char>) -> bool {
    exists|i: int| 0 <= i < files.len() && files[i].filename == name
}

/// The position of the listed file with the name.
pub open spec fn manifest_file_idx(files: Seq<FileInfoView>, name: Seq<char>) -> int {
    choose|i: int| 0 <= i < files.len() && files[i].filename == name
}

/// No two listed files share a name.
pub open spec fn manifest_files_unique(files: Seq<FileInfoView>) -> bool {
    forall|i: int, j: int| 0 <= i < j < files.len() ==> files[i].filename != files[j].filename
}

/// The description of one snapshot: which snapshot it is, and each of
/// its files with size and digest-list checksum.
pub struct BackupManifest {
    backup_type: String,
    backup_id: String,
    backup_time: i64,
    files: Vec<FileInfo>,
}

impl View for BackupManifest {
    type V = ManifestView;

    closed spec fn view(&self) -> ManifestView {
        ManifestView {
            ty: self.backup_type@,
            id: self.backup_id@,
            time: self.backup_time as int,
            files: self.files@.map_values(|f: FileInfo| f@),
        }
    }
}

impl BackupManifest {
    /// File names are unique.
    pub open spec fn wf(&self) -> bool {
        manifest_files_unique(self@.files)
    }

    /// An empty manifest for one snapshot.
    pub fn new(backup_type: String, backup_id: String, backup_time: i64) -> (r: BackupManifest)
        ensures
            r.wf(),
            r@.ty == backup_type@,
            r@.id == backup_id@,
            r@.time == backup_time,
            r@.files == Seq::<FileInfoView>::empty(),
    {
        let r = BackupManifest { backup_type, backup_id, backup_time, files: Vec::new() };
        proof {
            assert(r@.files =~= Seq::<FileInfoView>::empty());
        }
        r
    }

    /// What is backed up.
    pub fn backup_type(&self) -> (r: &str)
        ensures
            r@ == self@.ty,
    {
        self.backup_type.as_str()
    }

    /// Which instance is backed up.
    pub fn backup_id(&self) -> (r: &str)
        ensures
            r@ == self@.id,
    {
        self.backup_id.as_str()
    }

    /// When the snapshot was taken.
    pub fn backup_time(&self) -> (r: i64)
        ensures
            r == self@.time,
    {
        self.backup_time
    }

    /// The listed files.
    pub fn files(&self) -> (r: &Vec<FileInfo>)
        ensures
            r@.map_values(|f: FileInfo| f@) == self@.files,
    {
        &self.files
    }

    /// How many files are listed.
    pub fn file_count(&self) -> (r: usize)
        ensures
            r == self@.files.len(),
    {
        self.files.len()
    }

    /// Position of the file with a name, if listed.
    fn find_file(&self, name: &str) -> (r: Option<usize>)
        ensures
            r matches Some(i) ==> i < self@.files.len() && self@.files[i as int].filename == name@,
            r is None <==> !manifest_has_file(self@.files, name@),
    {
        let n = self.files.len();
        let mut i: usize = 0;
        while i < n
            invariant
                n == self@.files.len(),
                i <= n,
                forall|j: int| 0 <= j < i ==> (#[trigger] self@.files[j]).filename != name@,
            decreases n - i,
        {
            if self.files[i].filename.as_str().eq(name) {
                return Some(i);
            }
            i = i + 1;
        }
        None
    }

    /// List a file; a name listed twice is refused.
    pub fn add_file(&mut self, filename: String, size: u64, csum: [u8; 32], crypt_mode: CryptMode)
        -> (r: Result<(), StoreError>)
        requires
            old(self).wf(),
        ensures
            final(self).wf(),
            r is Err <==> manifest_has_file(old(self)@.files, filename@),
            r matches Err(e) ==> e == StoreError::AlreadyExists && final(self)@ == old(self)@,
            r is Ok ==> final(self)@ == (ManifestView {
                files: old(self)@.files.push(
                    FileInfoView { filename: filename@, size: size as int, csum: csum@, crypt_mode },
                ),
                ..old(self)@
            }),
    {
        let ghost old_view = self@;
        match self.find_file(filename.as_str()) {
            Some(_) => Err(StoreError::AlreadyExists),
            None => {
                self.files.push(FileInfo { filename, size, csum, crypt_mode });
                proof {
                    let fv = self@.files;
                    assert(fv =~= old_view.files.push(fv[fv.len() - 1]));
                    assert(self@ == (ManifestView { files: self@.files, ..old_view }));
                    assert(manifest_files_unique(fv)) by {
                        assert forall|i: int, j: int|
                            0 <= i < j < fv.len() implies fv[i].filename != fv[j].filename by {
                            if j < fv.len() - 1 {
                                assert(fv[i] == old_view.files[i]);
                                assert(fv[j] == old_view.files[j]);
                            } else {
                                assert(fv[i] == old_view.files[i]);
                            }
                        }
                    }
                }
                Ok(())
            }
        }
    }

    /// The listed entry for a name.
    pub fn lookup_file_info(&self, name: &str) -> (r: Option<&FileInfo>)
        requires
            self.wf(),
        ensures
            r matches Some(f) ==> manifest_has_file(self@.files, name@) && f@ == self@.files[
                manifest_file_idx(self@.files, name@)
            ],
            r is None <==> !manifest_has_file(self@.files, name@),
    {
        match self.find_file(name) {
            Some(i) => {
                proof {
                    lemma_manifest_file_idx_unique(self@.files, name@, i as int);
                }
                Some(&self.files[i])
            }
            None => None,
        }
    }

    /// Check a file's recorded size and checksum against given values.
    pub fn verify_file(&self, name: &str, csum: &[u8; 32], size: u64) -> (r: Result<
        (),
        StoreError,
    >)
        requires
            self.wf(),
        ensures
            r is Ok <==> manifest_has_file(self@.files, name@) && {
                let f = self@.files[manifest_file_idx(self@.files, name@)];
                f.size == size && f.csum == csum@
            },
            r matches Err(e) ==> (e == StoreError::NotFound && !manifest_has_file(
                self@.files,
                name@,
            )) || e == StoreError::Integrity,
    {
        match self.find_file(name) {
            Some(i) => {
                proof {
                    lemma_manifest_file_idx_unique(self@.files, name@, i as int);
                }
                if self.files[i].size == size && digest_eq(&self.files[i].csum, csum) {
                    Ok(())
                } else {
                    Err(StoreError::Integrity)
                }
            }
            None => Err(StoreError::NotFound),
        }
    }

    /// An identical copy.
    pub fn clone_manifest(&self) -> (r: BackupManifest)
        ensures
            r@ == self@,
    {
        let mut files: Vec<FileInfo> = Vec::new();
        let n = self.files.len();
        let mut i: usize = 0;
        while i < n
            invariant
                n == self@.files.len(),
                i <= n,
                files@.len() == i,
                forall|j: int| 0 <= j < i ==> (#[trigger] files@[j])@ == self@.files[j],
            decreases n - i,
        {
            let f = &self.files[i];
            files.push(
                FileInfo {
                    filename: f.filename.clone(),
                    size: f.size,
                    csum: f.csum,
                    crypt_mode: f.crypt_mode,
                },
            );
            i = i + 1;
        }
        let r = BackupManifest {
            backup_type: self.backup_type.clone(),
            backup_id: self.backup_id.clone(),
            backup_time: self.backup_time,
            files,
        };
        proof {
            assert(r@.files =~= self@.files);
        }
        r
    }
}

/// With unique names, a matching position is the chosen one.
pub proof fn lemma_manifest_file_idx_unique(files: Seq<FileInfoView>, name: Seq<char>, i: int)
    requires
        manifest_files_unique(files),
        0 <= i < files.len(),
        files[i].filename == name,
    ensures
        manifest_has_file(files, name),
        manifest_file_idx(files, name) == i,
{
    assert(manifest_has_file(files, name));
    let j = manifest_file_idx(files, name);
    if j != i {
        if j < i {
            assert(files[j].filename != files[i].filename);
        } else {
            assert(files[i].filename != files[j].filename);
        }
    }
}

} // verus!
