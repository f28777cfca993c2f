use vstd::prelude::*;

verus! {

/// Errors reported by the library.
#[derive(Debug)]
pub enum OxenError {
    /// The compressor could not produce a frame for the content.
    CompressionFailed,
    /// The stored frame could not be decompressed.
    DecompressionFailed,
    /// The decoded content does not have the size that the metadata records.
    DecodedSizeMismatch { expected_size: u64, actual_size: u64 },
    /// The decoded content does not hash to the hash that the metadata records.
    DecodedHashMismatch { expected_hash: String, actual_hash: String },
    /// No commit of the history explains this line of the head version.
    BlameUnresolved { line_number: usize },
    /// A node of the committed tree that holds no file list was walked.
    UnexpectedNodeType,
    /// The commit holds nothing at this path.
    EntryNotInCommit { path: crate::paths::RepoPath, commit_id: String },
    /// The version store does not hold the content of this file.
    VersionUnavailable { path: crate::paths::RepoPath, hash: String },
    /// The working file differs from the committed one: dropping it would lose work.
    RefusingToDropModified { path: crate::paths::RepoPath },
    /// The working file is missing and is not recorded offline at this version.
    MissingNonOfflineFile { path: crate::paths::RepoPath },
    /// The working file differs from the committed one: restoring would overwrite it.
    RefusingToOverwriteModified { path: crate::paths::RepoPath },
    /// The staging area holds nothing at this path.
    NoStagedEntry { path: crate::paths::RepoPath },
    /// The file at this path is staged for removal: it has no staged content.
    StagedFileRemoved { path: crate::paths::RepoPath },
}

} // verus!
