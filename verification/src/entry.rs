//! A resolved, existing entry of the drive: its path text, display name and
//! directory flag.

use vstd::prelude::*;

verus! {

/// The mathematical content of an [`Entry`].
pub struct EntryV {
    /// The absolute text of the entry's path.
    pub path: Seq<u8>,
    /// The display name: the final segment of the entry's path.
    pub name: Seq<u8>,
    /// Whether the entry is a directory.
    pub is_directory: bool,
}

/// A resolved, existing entry: absolute path text, display name, and a
/// directory flag taken from the store's metadata. Entries are ephemeral:
/// one is built per lookup and never cached.
pub struct Entry {
    path: Vec<u8>,
    name: Vec<u8>,
    is_directory: bool,
}

impl View for Entry {
    type V = EntryV;

    closed spec fn view(&self) -> EntryV {
        EntryV { path: self.path@, name: self.name@, is_directory: self.is_directory }
    }
}

impl Entry {
    /// Builds an entry from its parts.
    pub fn new(path: Vec<u8>, name: Vec<u8>, is_directory: bool) -> (r: Entry)
        ensures
            r@.path == path@,
            r@.name == name@,
            r@.is_directory == is_directory,
    {
        Entry { path, name, is_directory }
    }

    /// Whether the entry is a directory.
    pub fn is_directory(&self) -> (r: bool)
        ensures
            r == self@.is_directory,
    {
        self.is_directory
    }

    /// The absolute text of the entry's path.
    pub fn path(&self) -> (r: &Vec<u8>)
        ensures
            r@ == self@.path,
    {
        &self.path
    }

    /// The display name, as an owned byte string.
    pub fn file_name(&self) -> (r: Vec<u8>)
        ensures
            r@ == self@.name,
    {
        crate::path::clone_bytes(&self.name)
    }

    /// The display name.
    pub fn name(&self) -> (r: &Vec<u8>)
        ensures
            r@ == self@.name,
    {
        &self.name
    }
}

} // verus!
