//! A verified core for a sandboxed file-storage drive.
//!
//! Clients supply untrusted relative path strings; the drive validates them
//! lexically, resolves entries, lists and searches directories with stable
//! ordering and pagination, manages directory lifecycle, and transfers file
//! contents chunk by chunk. Paths and names are byte strings, as the
//! operating system stores them.

pub mod boxpath;
pub mod bytestr;
pub mod catalog;
pub mod configuration;
pub mod drive;
pub mod drive_file;
pub mod entry;
pub mod error;
pub mod laws;
pub mod params;
pub mod path;
pub mod views;
