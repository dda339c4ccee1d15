//! Error kinds of the repository.

use vstd::prelude::*;

verus! {

/// Everything a repository operation can fail with.
#[derive(Clone, Copy, Debug, PartialEq, Eq, Structural, Hash)]
pub enum RepoError {
    /// A malformed request: a block number on a non-blocky entity, an
    /// unaligned LSN, or a request above the last-record LSN.
    InvalidRequest,
    /// The entity or page does not exist at the requested LSN.
    NotFound,
    /// The store contents violate an invariant: a redo chain without a
    /// base, a bad checksum, a metadata file of the wrong size.
    Corruption,
    /// An underlying storage failure, reported by the unverified rim.
    Io,
    /// Waiting for the last-record LSN ran out of time.
    Timeout,
    /// The timeline to be created already exists.
    AlreadyExists,
}

impl RepoError {
    /// A short description, for the unverified rim to print.
    pub fn describe(&self) -> &'static str {
        match self {
            RepoError::InvalidRequest => "invalid request",
            RepoError::NotFound => "not found",
            RepoError::Corruption => "storage is corrupted",
            RepoError::Io => "I/O failure",
            RepoError::Timeout => "timed out",
            RepoError::AlreadyExists => "already exists",
        }
    }
}

} // verus!
