//! The failure kinds a drive operation can report.

use vstd::prelude::*;

verus! {

/// Every drive operation that can fail reports one of these kinds.
///
/// The kinds are designed to be mechanically mappable by a caller:
/// `EntryNameInvalid` and `EntryExists` are caller-caused, `EntryNotFound`
/// means the target is absent, `EntryUnexpectedType` means a file stood
/// where a directory was expected (or the reverse), and the remaining
/// kinds surface a failure of the store beneath the drive.
#[derive(Debug, Clone, Copy, PartialEq, Eq, Structural)]
pub enum DriveError {
    /// The raw path is not contained in the drive: it is absolute, or one of
    /// its segments names a parent or current directory, or a segment is
    /// empty.
    EntryNameInvalid,
    /// A file stood where a directory was expected, or the reverse.
    EntryUnexpectedType,
    /// The target already exists though it was required to be absent.
    EntryExists,
    /// The target does not exist though it was required to be present.
    EntryNotFound,
    /// Metadata could not be read for an entry.
    EntryMetadata,
    /// The store refused a rename of an entry.
    EntryRename,
    /// The store refused a walk over a directory's entries.
    EntryWalk,
    /// The store refused the creation of an entry.
    EntryCreate,
}

impl DriveError {
    /// A short, fixed description of the failure kind, for presentation
    /// layers outside the drive.
    pub fn message(&self) -> (r: &'static str)
        ensures
            self is EntryNameInvalid ==> r@ == "entry name is invalid"@,
            self is EntryUnexpectedType ==> r@ == "entry has an unexpected type"@,
            self is EntryExists ==> r@ == "entry already exists"@,
            self is EntryNotFound ==> r@ == "entry not found"@,
            self is EntryMetadata ==> r@ == "error retrieving metadata"@,
            self is EntryRename ==> r@ == "error performing entry rename operation"@,
            self is EntryWalk ==> r@ == "error performing entry walk operation"@,
            self is EntryCreate ==> r@ == "error performing entry create operation"@,
    {
        match self {
            DriveError::EntryNameInvalid => "entry name is invalid",
            DriveError::EntryUnexpectedType => "entry has an unexpected type",
            DriveError::EntryExists => "entry already exists",
            DriveError::EntryNotFound => "entry not found",
            DriveError::EntryMetadata => "error retrieving metadata",
            DriveError::EntryRename => "error performing entry rename operation",
            DriveError::EntryWalk => "error performing entry walk operation",
            DriveError::EntryCreate => "error performing entry create operation",
        }
    }
}

} // verus!
