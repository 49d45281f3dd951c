//! The request and view shapes of the browsing layer: what the directory
//! pages take in and what they show. Serialization and templating live with
//! the caller; these are the plain values they carry.

use vstd::prelude::*;

use crate::boxpath::{anchor, anchor_bytes, BoxPath};
use crate::path::{clone_bytes, join_segs, joined, push_bytes, split_bytes, split_full, SEPARATOR};

verus! {

/// A body wrapper for JSON responses.
pub struct AppJson<T>(pub T);

/// The path a listing shows for a child: the listed directory's path, a
/// separator, and the child's name; just the name at the root.
pub fn display_child_path(base: &Vec<u8>, name: &Vec<u8>) -> (r: Vec<u8>)
    ensures
        base@.len() == 0 ==> r@ == name@,
        base@.len() > 0 ==> r@ == base@ + seq![SEPARATOR] + name@,
{
    if base.len() == 0 {
        clone_bytes(name)
    } else {
        let mut r = clone_bytes(base);
        r.push(SEPARATOR);
        push_bytes(&mut r, name);
        r
    }
}

/// The display path one level up from `path`: everything before its final
/// segment, or the anchor name when there is at most one segment.
pub open spec fn spec_previous_display(path: Seq<u8>) -> Seq<u8> {
    if path.len() == 0 || split_full(path).len() <= 1 {
        anchor()
    } else {
        joined(split_full(path).drop_last())
    }
}

/// The display path one level up from `path`.
pub fn previous_display(path: &Vec<u8>) -> (r: Vec<u8>)
    ensures
        r@ == spec_previous_display(path@),
{
    if path.len() == 0 {
        return anchor_bytes();
    }
    let mut segs = split_bytes(path);
    proof {
        crate::path::lemma_split_full_shape(path@);
    }
    if segs.len() <= 1 {
        return anchor_bytes();
    }
    segs.pop();
    proof {
        assert(segs.deep_view() =~~= split_full(path@).drop_last());
    }
    join_segs(&segs)
}

/// A request that names a directory to list.
pub struct ListParameters {
    /// The raw, untrusted path.
    pub path: String,
}

/// One listed entry as a view shows it.
pub struct EntryView {
    /// The entry's path below the root.
    pub path: String,
    /// The display name.
    pub name: String,
    /// Whether the entry is a directory.
    pub is_directory: bool,
}

/// A whole listing as a view shows it.
pub struct DirectoryView {
    /// The listed entries, in listing order.
    pub results: Vec<EntryView>,
}

/// One listed entry of the drive page.
pub struct DriveView {
    /// The entry's path below the root.
    pub path: String,
    /// Whether the entry is a directory.
    pub is_directory: bool,
}

/// The landing page; it carries no data.
pub struct HomeTemplate {}

/// A request to create a directory at a raw path.
pub struct CreateDirParameters {
    /// The raw, untrusted path.
    pub path: String,
}

/// A submitted create-directory form: the base to create under and the new
/// directory's name.
pub struct CreateDirForm {
    /// The base path the form was opened at.
    pub base: String,
    /// The name of the directory to create.
    pub directory_name: String,
}

/// A request to remove a directory at a raw path.
pub struct RemoveDirParameters {
    /// The raw, untrusted path.
    pub path: String,
}

/// A request to rename a directory.
pub struct UpdateDirParameters {
    /// The raw, untrusted path to rename.
    pub from: String,
    /// The raw, untrusted path to rename it to.
    pub to: String,
}

/// A request to delete a file at a raw path.
pub struct DeleteParameters {
    /// The raw, untrusted path.
    pub path: String,
}

/// A request to download the file at a raw path.
pub struct DownloadParameters {
    /// The raw, untrusted path.
    pub path: String,
}

/// A request to upload to a raw path.
pub struct UploadParameters {
    /// The raw, untrusted path.
    pub path: String,
}

/// A request that names a file to upload, for the multipart form handler.
pub struct Parameters {
    /// The raw, untrusted path.
    pub path: String,
}

/// A request to create a directory, as a display path.
pub struct CreateDirectoryParameters {
    /// The display path.
    pub path: BoxPath,
}

/// A submitted create-directory form over display paths.
pub struct CreateDirectoryForm {
    /// The display path the form was opened at.
    pub base: BoxPath,
    /// The name of the directory to create.
    pub directory_name: String,
}

/// A request to remove a directory, as a display path.
pub struct RemoveDirectoryParameters {
    /// The display path.
    pub path: BoxPath,
}

} // verus!
