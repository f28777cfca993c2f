//! Which stored version `cat --staged` prints.

use crate::error::OxenError;
use crate::paths::RepoPath;
use crate::status::StagedEntryStatus;
use vstd::prelude::*;

verus! {

/// What the staging area holds at a path: the staged status, and the hash of
/// the staged content where the node is a file.
#[derive(Debug)]
pub struct StagedNode {
    pub status: StagedEntryStatus,
    pub file_hash: Option<String>,
}

/// The hash of the staged content at `path`, whose bytes `cat --staged`
/// prints. There is none where nothing is staged at the path, where the file
/// is staged for removal, or where the staged node is not a file.
pub fn staged_version_hash(path: &RepoPath, staged: Option<StagedNode>) -> (result: Result<
    String,
    OxenError,
>)
    ensures
        match staged {
            None => result matches Err(OxenError::NoStagedEntry { path: p }) && p@ == path@,
            Some(n) => if n.status == StagedEntryStatus::Removed {
                result matches Err(OxenError::StagedFileRemoved { path: p }) && p@ == path@
            } else {
                match n.file_hash {
                    Some(h) => result matches Ok(r) && r@ == h@,
                    None => result matches Err(OxenError::UnexpectedNodeType),
                }
            },
        },
{
    match staged {
        None => Err(OxenError::NoStagedEntry { path: path.duplicate() }),
        Some(node) => {
            if node.status == StagedEntryStatus::Removed {
                return Err(OxenError::StagedFileRemoved { path: path.duplicate() });
            }
            match node.file_hash {
                Some(h) => Ok(h),
                None => Err(OxenError::UnexpectedNodeType),
            }
        },
    }
}

} // verus!
