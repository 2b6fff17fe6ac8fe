//! The failures that the tracker reports.

use vstd::prelude::*;

verus! {

/// Why an operation of the tracker failed.
#[derive(Debug, PartialEq, Eq)]
pub enum TrackError {
    /// The registry's store could not be located, opened or initialised.
    StorageUnavailable { reason: String },
    /// A read or write of the registry failed after it was opened.
    Storage { reason: String },
    /// A path handed to the registry is not absolute.
    PathResolution { path: Vec<u8> },
    /// A tracked root could not be walked.
    Match { root: Vec<u8>, reason: String },
    /// A matched file could not be exported.
    Export { path: Vec<u8>, reason: String },
    /// The name of an export kind was not recognised.
    UnknownExportKind { given: String },
    /// The requested export format is not provided.
    Unimplemented,
}

} // verus!
