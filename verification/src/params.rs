//! The parameter shapes the drive's callers hand in, and the page-size bound
//! the caller owns: a listing or search window must be positive and at most
//! fifty entries wide.

use vstd::prelude::*;

verus! {

/// The widest page a caller may request.
pub const MAX_PAGE_COUNT: usize = 50;

/// A page size is accepted exactly when it is positive and at most the
/// widest page.
pub open spec fn count_ok(count: int) -> bool {
    0 < count <= MAX_PAGE_COUNT
}

/// Whether a requested page size is within the accepted bounds.
pub fn count_in_bounds(count: usize) -> (r: bool)
    ensures
        r == count_ok(count as int),
{
    count > 0 && count <= MAX_PAGE_COUNT
}

/// A search request: the name prefix to match, and the page window.
pub struct QueryParams {
    /// The prefix searched names must begin with.
    pub query: String,
    /// The zero-based page index.
    pub page: usize,
    /// The page size.
    pub count: usize,
}

impl QueryParams {
    /// Whether the request's page size is within the accepted bounds.
    pub fn is_valid(&self) -> (r: bool)
        ensures
            r == count_ok(self.count as int),
    {
        count_in_bounds(self.count)
    }
}

/// A listing request with an absolute offset window.
pub struct ListQueryParams {
    /// The page size.
    pub count: usize,
    /// The absolute offset of the window's first entry.
    pub offset: usize,
}

/// One page of display names, ready for transport.
pub struct Page {
    /// The page's names, in listing order.
    pub page: Vec<String>,
}

impl From<Vec<String>> for Page {
    fn from(page: Vec<String>) -> (r: Page) {
        Page { page }
    }
}

impl vstd::std_specs::convert::FromSpecImpl<Vec<String>> for Page {
    open spec fn obeys_from_spec() -> bool {
        true
    }

    open spec fn from_spec(v: Vec<String>) -> Page {
        Page { page: v }
    }
}

/// A download request: the path of the file to read.
pub struct DownloadQueryParams {
    /// The raw, untrusted path.
    pub path: String,
}

/// A removal request: the path of the file to delete.
pub struct RemoveQueryParams {
    /// The raw, untrusted path.
    pub path: String,
}

/// An upload request: the path of the file to write.
pub struct UploadQueryParams {
    /// The raw, untrusted path.
    pub path: String,
}

} // verus!
