//! The class of the target of a scan.

use crate::errors::{is_not_found, is_unsupported, ScanError};
use vstd::prelude::*;

verus! {

/// What the target of a scan turned out to be.
#[derive(Clone, Copy, Debug, PartialEq, Eq, Structural)]
pub enum PathType {
    NotFound,
    File,
    Directory,
    Unknown,
}

/// The three facts a caller gathers about a path before a scan starts.
#[derive(Clone, Copy, Debug)]
pub struct PathFacts {
    pub exists: bool,
    pub is_file: bool,
    pub is_dir: bool,
}

/// The class of a path with the given facts. Existence is tested first, then
/// "regular file", then "directory"; whatever is left is `Unknown`.
pub open spec fn classify_spec(facts: PathFacts) -> PathType {
    if !facts.exists {
        PathType::NotFound
    } else if facts.is_file {
        PathType::File
    } else if facts.is_dir {
        PathType::Directory
    } else {
        PathType::Unknown
    }
}

/// The class of the path that the facts are about.
pub fn classify_path(facts: PathFacts) -> (kind: PathType)
    ensures
        kind == classify_spec(facts),
{
    if !facts.exists {
        PathType::NotFound
    } else if facts.is_file {
        PathType::File
    } else if facts.is_dir {
        PathType::Directory
    } else {
        PathType::Unknown
    }
}

/// The error that ends a scan before it starts, where the target is of a
/// class that cannot be scanned: there is nothing at the path, or something
/// that is neither a regular file nor a directory.
pub fn refusal(kind: PathType, path: &str) -> (error: Option<ScanError>)
    ensures
        kind == PathType::NotFound ==> (error matches Some(e) && is_not_found(e, path@)),
        kind == PathType::Unknown ==> (error matches Some(e) && is_unsupported(e, path@)),
        kind == PathType::File || kind == PathType::Directory ==> error is None,
{
    match kind {
        PathType::NotFound => Some(ScanError::PathNotFound { path: path.to_owned() }),
        PathType::Unknown => Some(ScanError::UnsupportedPathType { path: path.to_owned() }),
        PathType::File => None,
        PathType::Directory => None,
    }
}

} // verus!
