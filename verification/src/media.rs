//! Listing types for removable backup media.

use vstd::prelude::*;

verus! {

/// Where a medium currently is.
#[derive(Clone, Copy, Debug, PartialEq, Eq, Structural)]
pub enum MediaLocationKind {
    /// Ready for use, inside a library.
    Online,
    /// At hand, but not inside a drive or library.
    Offline,
    /// Stored away in a vault.
    Vault,
}

/// What state a medium is in.
#[derive(Clone, Copy, Debug, PartialEq, Eq, Structural)]
pub enum MediaStatus {
    /// Nothing known yet.
    Unknown,
    /// May take more data.
    Writable,
    /// Filled up.
    Full,
    /// Found damaged.
    Damaged,
    /// Taken out of service.
    Retired,
}

/// One row of a media listing.
pub struct MediaListEntry {
    /// Label the changer reads.
    pub changer_id: String,
    /// Unique identifier of the medium.
    pub uuid: String,
    pub location: MediaLocationKind,
    /// Vault or changer name, where one applies.
    pub location_hint: Option<String>,
    pub status: MediaStatus,
    /// Whether the retention time has passed.
    pub expired: bool,
    /// Name of the media set, if the medium belongs to one.
    pub media_set_name: Option<String>,
    /// Identifier of the media set, if the medium belongs to one.
    pub media_set_uuid: Option<String>,
    /// Position within the media set.
    pub seq_nr: Option<u64>,
    /// The pool the medium is assigned to.
    pub pool: Option<String>,
}

/// A medium's label as read from it.
pub struct MediaLabelInfoFlat {
    /// Unique identifier of the medium.
    pub uuid: String,
    /// Label the changer reads, or the barcode.
    pub changer_id: String,
    /// When the label was written.
    pub ctime: i64,
    /// The pool recorded in the media-set label, if any.
    pub pool: Option<String>,
    /// Identifier of the media set; the all-zero value reserves an empty
    /// medium for a pool.
    pub media_set_uuid: Option<String>,
    /// Position within the media set.
    pub seq_nr: Option<u64>,
    /// When the media set was created.
    pub media_set_ctime: Option<i64>,
}

/// A label with the identifier of the medium that carries it, if known.
pub struct LabelUuidMap {
    /// Label the changer reads.
    pub changer_id: String,
    /// The medium found under that label, if any.
    pub uuid: Option<String>,
}

} // verus!
