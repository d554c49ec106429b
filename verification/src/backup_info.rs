//! Names of backup groups and snapshots, and owner identities.

use vstd::prelude::*;

use crate::error::StoreError;
use crate::time::{epoch_to_rfc3339, rfc3339_str, year_of_epoch};

verus! {

/// Whether a name ends in the given suffix.
pub open spec fn spec_ends_with(s: Seq<char>, suffix: Seq<char>) -> bool {
    s.len() >= suffix.len() && s.subrange(s.len() - suffix.len(), s.len() as int) == suffix
}

/// Compare a name's tail against a suffix.
pub fn str_ends_with(s: &str, suffix: &str) -> (r: bool)
    ensures
        r == spec_ends_with(s@, suffix@),
{
    let n = s.unicode_len();
    let m = suffix.unicode_len();
    if m > n {
        return false;
    }
    let mut i: usize = 0;
    while i < m
        invariant
            n == s@.len(),
            m == suffix@.len(),
            m <= n,
            i <= m,
            forall|j: int| 0 <= j < i ==> s@[n - m + j] == suffix@[j],
        decreases m - i,
    {
        if s.get_char(n - m + i) != suffix.get_char(i) {
            proof {
                assert(s@.subrange(s@.len() - suffix@.len(), s@.len() as int)[i as int]
                    != suffix@[i as int]);
            }
            return false;
        }
        i = i + 1;
    }
    proof {
        assert(s@.subrange(s@.len() - suffix@.len(), s@.len() as int) =~= suffix@);
    }
    true
}

/// An authenticated identity: a user of a realm, or one of the user's
/// API tokens.
pub struct Authid {
    user: String,
    token: Option<String>,
}

/// Ghost image of an identity.
pub struct AuthidView {
    pub user: Seq<char>,
    pub token: Option<Seq<char>>,
}

impl View for Authid {
    type V = AuthidView;

    closed spec fn view(&self) -> AuthidView {
        AuthidView {
            user: self.user@,
            token: match self.token {
                Some(ref t) => Some(t@),
                None => None,
            },
        }
    }
}

impl Authid {
    /// An identity from its user part and an optional token name.
    pub fn new(user: String, token: Option<String>) -> (r: Authid)
        ensures
            r@.user == user@,
            r@.token is Some <==> token is Some,
            token matches Some(t) ==> r@.token == Some(t@),
    {
        Authid { user, token }
    }

    /// Whether this identity is an API token.
    pub fn is_token(&self) -> (r: bool)
        ensures
            r == (self@.token is Some),
    {
        self.token.is_some()
    }

    /// The user part of the identity.
    pub fn user(&self) -> (r: &str)
        ensures
            r@ == self@.user,
    {
        self.user.as_str()
    }

    /// An identical copy.
    pub fn clone_id(&self) -> (r: Authid)
        ensures
            r@ == self@,
    {
        let token = match &self.token {
            Some(t) => {
                let c = t.clone();
                assert(c@ == t@);
                Some(c)
            }
            None => None,
        };
        Authid { user: self.user.clone(), token }
    }

    /// Whether two identities are the same user and token.
    pub fn same_as(&self, other: &Authid) -> (r: bool)
        ensures
            r == (self@ == other@),
    {
        if !self.user.eq(&other.user) {
            return false;
        }
        match (&self.token, &other.token) {
            (Some(a), Some(b)) => a.eq(b),
            (None, None) => true,
            _ => false,
        }
    }
}

/// Whether an identity may write to a group owned by another: they are
/// the same, or the owner is a token of the acting user.
pub open spec fn owner_allows(owner: AuthidView, auth: AuthidView) -> bool {
    owner == auth || (owner.token is Some && auth.token is None && owner.user == auth.user)
}

/// Check that an identity is the owner, or that the owner is one of the
/// identity's tokens.
pub fn check_backup_owner(owner: &Authid, auth_id: &Authid) -> (r: Result<(), StoreError>)
    ensures
        r is Ok <==> owner_allows(owner@, auth_id@),
        r matches Err(e) ==> e == StoreError::Conflict,
{
    if owner.same_as(auth_id) {
        return Ok(());
    }
    match (&owner.token, &auth_id.token) {
        (Some(_), None) => {
            if owner.user.eq(&auth_id.user) {
                Ok(())
            } else {
                Err(StoreError::Conflict)
            }
        }
        _ => Err(StoreError::Conflict),
    }
}

/// The pair naming a backup group: what is backed up, and which instance.
pub struct BackupGroup {
    backup_type: String,
    backup_id: String,
}

/// Ghost image of a group name.
pub struct GroupView {
    pub ty: Seq<char>,
    pub id: Seq<char>,
}

impl View for BackupGroup {
    type V = GroupView;

    closed spec fn view(&self) -> GroupView {
        GroupView { ty: self.backup_type@, id: self.backup_id@ }
    }
}

impl BackupGroup {
    /// A group name from its parts.
    pub fn new(backup_type: String, backup_id: String) -> (r: BackupGroup)
        ensures
            r@.ty == backup_type@,
            r@.id == backup_id@,
    {
        BackupGroup { backup_type, backup_id }
    }

    /// What is backed up.
    pub fn backup_type(&self) -> (r: &str)
        ensures
            r@ == self@.ty,
    {
        self.backup_type.as_str()
    }

    /// Which instance is backed up.
    pub fn backup_id(&self) -> (r: &str)
        ensures
            r@ == self@.id,
    {
        self.backup_id.as_str()
    }

    /// An identical copy.
    pub fn clone_group(&self) -> (r: BackupGroup)
        ensures
            r@ == self@,
    {
        BackupGroup { backup_type: self.backup_type.clone(), backup_id: self.backup_id.clone() }
    }

    /// The group's directory below the store: `type/id`.
    pub fn group_path(&self) -> (r: String)
        ensures
            r@ == self@.ty + "/"@ + self@.id,
    {
        let mut r = self.backup_type.clone();
        r.append("/");
        r.append(self.backup_id.as_str());
        r
    }
}

/// One snapshot: a group and its backup time.
pub struct BackupDir {
    group: BackupGroup,
    backup_time: i64,
}

/// Ghost image of a snapshot name.
pub struct BackupDirView {
    pub group: GroupView,
    pub time: int,
}

impl View for BackupDir {
    type V = BackupDirView;

    closed spec fn view(&self) -> BackupDirView {
        BackupDirView { group: self.group@, time: self.backup_time as int }
    }
}

impl BackupDir {
    /// A snapshot name from its group and time.
    pub fn new_with_group(group: BackupGroup, backup_time: i64) -> (r: BackupDir)
        ensures
            r@.group == group@,
            r@.time == backup_time,
    {
        BackupDir { group, backup_time }
    }

    /// The group the snapshot belongs to.
    pub fn group(&self) -> (r: &BackupGroup)
        ensures
            r@ == self@.group,
    {
        &self.group
    }

    /// When the snapshot was taken.
    pub fn backup_time(&self) -> (r: i64)
        ensures
            r == self@.time,
    {
        self.backup_time
    }

    /// An identical copy.
    pub fn clone_dir(&self) -> (r: BackupDir)
        ensures
            r@ == self@,
    {
        BackupDir { group: self.group.clone_group(), backup_time: self.backup_time }
    }

    /// The snapshot's directory name: its time in RFC 3339 form.
    pub fn backup_time_string(&self) -> (r: Result<String, StoreError>)
        ensures
            r is Ok <==> 0 <= self@.time && year_of_epoch(self@.time) <= 9999,
            r matches Ok(s) ==> s@ == rfc3339_str(self@.time),
            r matches Err(e) ==> e == StoreError::Protocol,
    {
        if self.backup_time < 0 {
            return Err(StoreError::Protocol);
        }
        epoch_to_rfc3339(self.backup_time)
    }

    /// The snapshot's directory below the store: `type/id/time`.
    pub fn relative_path(&self) -> (r: Result<String, StoreError>)
        ensures
            r is Ok <==> 0 <= self@.time && year_of_epoch(self@.time) <= 9999,
            r matches Ok(s) ==> s@ == self@.group.ty + "/"@ + self@.group.id + "/"@ + rfc3339_str(
                self@.time,
            ),
            r matches Err(e) ==> e == StoreError::Protocol,
    {
        let time_str = self.backup_time_string()?;
        let mut r = self.group.group_path();
        r.append("/");
        r.append(time_str.as_str());
        Ok(r)
    }
}

} // verus!
