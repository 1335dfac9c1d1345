//! What can go wrong in a scan, and how it is reported.

use vstd::prelude::*;
use vstd::string::*;

verus! {

/// What can go wrong in a scan.
#[derive(Debug)]
pub enum ScanError {
    /// The target of the scan does not exist.
    PathNotFound { path: String },
    /// The target of the scan is neither a regular file nor a directory.
    UnsupportedPathType { path: String },
    /// A directory met during the walk could not be listed.
    DirectoryReadError { path: String, reason: String },
    /// The metadata of a file could not be read.
    FileMetadataError { path: String, reason: String },
}

/// The text that reports an error.
pub open spec fn message_of(error: ScanError) -> Seq<char> {
    match error {
        ScanError::PathNotFound { path } => "Invalid path: "@ + path@,
        ScanError::UnsupportedPathType { path } => "Unknown type "@ + path@,
        ScanError::DirectoryReadError { path, reason } => "Error reading "@ + path@ + ": "@
            + reason@,
        ScanError::FileMetadataError { path, reason } => "Error reading file: "@ + reason@,
    }
}

/// Whether `error` says that there is nothing at `path`.
pub open spec fn is_not_found(error: ScanError, path: Seq<char>) -> bool {
    match error {
        ScanError::PathNotFound { path: p } => p@ == path,
        _ => false,
    }
}

/// Whether `error` says that what is at `path` cannot be scanned.
pub open spec fn is_unsupported(error: ScanError, path: Seq<char>) -> bool {
    match error {
        ScanError::UnsupportedPathType { path: p } => p@ == path,
        _ => false,
    }
}

/// Whether `error` says that the metadata of the file at `path` could not
/// be read, for the reason given.
pub open spec fn is_metadata_error(error: ScanError, path: Seq<char>, reason: Seq<char>) -> bool {
    match error {
        ScanError::FileMetadataError { path: p, reason: r } => p@ == path && r@ == reason,
        _ => false,
    }
}

/// Whether `error` says that the directory at `path` could not be listed,
/// for the reason given.
pub open spec fn is_directory_error(error: ScanError, path: Seq<char>, reason: Seq<char>) -> bool {
    match error {
        ScanError::DirectoryReadError { path: p, reason: r } => p@ == path && r@ == reason,
        _ => false,
    }
}

impl ScanError {
    /// Whether the error ends the scan. Only an error about the target itself
    /// does; one met during the walk costs the file or the directory it is
    /// about, and the walk goes on.
    pub fn is_fatal(&self) -> (fatal: bool)
        ensures
            fatal == (*self is PathNotFound || *self is UnsupportedPathType),
    {
        match self {
            ScanError::PathNotFound { .. } => true,
            ScanError::UnsupportedPathType { .. } => true,
            ScanError::DirectoryReadError { .. } => false,
            ScanError::FileMetadataError { .. } => false,
        }
    }

    /// The text that reports the error.
    pub fn message(&self) -> (text: String)
        ensures
            text@ == message_of(*self),
    {
        match self {
            ScanError::PathNotFound { path } => {
                let mut text = String::from_str("Invalid path: ");
                text.append(path.as_str());
                text
            },
            ScanError::UnsupportedPathType { path } => {
                let mut text = String::from_str("Unknown type ");
                text.append(path.as_str());
                text
            },
            ScanError::DirectoryReadError { path, reason } => {
                let mut text = String::from_str("Error reading ");
                text.append(path.as_str());
                text.append(": ");
                text.append(reason.as_str());
                text
            },
            ScanError::FileMetadataError { path, reason } => {
                let mut text = String::from_str("Error reading file: ");
                text.append(reason.as_str());
                text
            },
        }
    }
}

} // verus!
