//! The error kinds of serialization.

use vstd::prelude::*;
use crate::types::KnotId;
use std::path::PathBuf;

verus! {

/// Why a serialization failed.
#[derive(Debug)]
pub enum Error {
    /// A host construct outside the supported subset.
    Unsupported,
    /// A `Knot` whose identity has no registered unfolding.
    UnknownKnot(KnotId),
    /// A reference to a constructed type that the table does not hold.
    UnknownType,
    /// Two members of one record or variant whose names hash alike.
    HashCollision,
    /// The output sink did not accept the bytes.
    Io,
    /// A failure reported by a schema provider.
    Custom(String),
}

#[verifier::external_type_specification]
#[verifier::external_body]
pub struct ExPathBuf(PathBuf);

#[verifier::external_type_specification]
#[verifier::external_body]
pub struct ExIoError(std::io::Error);

/// A failed file-system operation, with the paths involved and the
/// underlying I/O error.
#[derive(Debug)]
pub enum IoError {
    CopyFileFailed(PathBuf, PathBuf, std::io::Error),
    CreateDirectoryFailed(PathBuf, std::io::Error),
    NoParent(PathBuf),
    ReadFileFailed(PathBuf, std::io::Error),
    ReadPermissionsFailed(PathBuf, std::io::Error),
    RemoveDirectoryFailed(PathBuf, std::io::Error),
    RemoveFileFailed(PathBuf, std::io::Error),
    RenameFailed(PathBuf, PathBuf, std::io::Error),
    WriteFileFailed(PathBuf, std::io::Error),
    WritePermissionsFailed(PathBuf, std::io::Error),
}

} // verus!
