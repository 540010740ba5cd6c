//! Directory-tree indexing, search projection, tri-state selection and
//! cost-metric caching for a prompt-assembly backend.
//!
//! The library owns the pure engine: a flat, immutable tree index with
//! stable identifiers, pruned search projections over keep-sets,
//! checkbox-style selection with parent/child propagation, and
//! signature-validated cost caches.  Filesystem walking, version-control
//! access, persistence and event transport stay outside; they hand the
//! engine plain values and take plain values back.

use vstd::prelude::*;

pub mod clipboard;
pub mod costcache;
pub mod gitmodel;
pub mod index;
pub mod instructions;
pub mod lifecycle;
pub mod model;
pub mod paths;
pub mod picker;
pub mod projection;
pub mod recent;
pub mod render;
pub mod scrape;
pub mod search;
pub mod select;
pub mod selection_id;
pub mod strutil;
pub mod tree_facts;

verus! {

/// Error code: the directory listing could not be read.
pub const DIRECTORY_READ_ERROR: u8 = 1;

/// Error code: the user cancelled the directory dialog.
pub const DIALOG_CANCELLED: u8 = 2;

/// Error code: the persistent store could not be opened or read.
pub const STORE_READ_ERROR: u8 = 3;

/// Error code: the persistent store could not be written.
pub const STORE_WRITE_ERROR: u8 = 4;

/// Error code: a file's contents could not be read.
pub const FILE_READ_ERROR: u8 = 5;

/// Error returned from engine operations; `code` selects the failure class.
pub struct ApplicationError {
    pub code: u8,
    pub message: Option<String>,
}

impl ApplicationError {
    /// The failure class of this error.
    pub fn code(&self) -> (c: u8)
        ensures
            c == self.code,
    {
        self.code
    }
}

} // verus!
