//! Core logic of a small package manager: the archive codec that turns a
//! directory tree into a compressed archive and back, the project manifest
//! record with its dependency map, the registry's id-keyed content store,
//! and the transfer-protocol decisions around upload, download and listing.

use vstd::prelude::*;

pub mod accounts;
pub mod archive;
pub mod paths;
pub mod manifest;
pub mod manifest_text;
pub mod project;
pub mod protocol;
pub mod store;

verus! {

/// The failure taxonomy of the whole pipeline.
#[derive(Clone, Copy, Debug, PartialEq, Eq, Structural)]
pub enum PkgError {
    /// A requested id, version or path is absent.
    NotFound,
    /// A malformed or incomplete upload request.
    BadRequest,
    /// A byte stream that cannot be parsed as an archive.
    CorruptArchive,
    /// Manifest text that fails to parse.
    MalformedManifest,
    /// An archive entry whose path would escape the extraction root.
    PathTraversal,
    /// A filesystem or network failure.
    IoError,
    /// A duplicate registration.
    Conflict,
}

/// The HTTP status code with which the registry reports a failure.
pub fn status_code(e: &PkgError) -> (code: u16)
    ensures
        code == status_code_spec(*e),
{
    match e {
        PkgError::NotFound => 404,
        PkgError::BadRequest => 400,
        PkgError::CorruptArchive => 400,
        PkgError::MalformedManifest => 400,
        PkgError::PathTraversal => 400,
        PkgError::IoError => 500,
        PkgError::Conflict => 409,
    }
}

/// Not-found maps to 404, client faults to 400, duplicates to 409,
/// and filesystem failure to 500.
pub open spec fn status_code_spec(e: PkgError) -> u16 {
    match e {
        PkgError::NotFound => 404,
        PkgError::BadRequest => 400,
        PkgError::CorruptArchive => 400,
        PkgError::MalformedManifest => 400,
        PkgError::PathTraversal => 400,
        PkgError::IoError => 500,
        PkgError::Conflict => 409,
    }
}

} // verus!
