//! The commands of the command-line tool, each known by its name.

use vstd::prelude::*;

verus! {

/// `blame`: which commit last changed each line of a file.
pub struct BlameCmd;

/// `cat`: the raw content of a file at a revision or in the staging area.
pub struct CatCmd;

/// `get`: restore tracked content from the version store.
pub struct GetCmd;

/// `log`: the history of commits.
pub struct LogCmd;

/// `offline`: the files whose working content was dropped.
pub struct OfflineCmd;

/// `reset`: discard local changes.
pub struct ResetCmd;

/// `root`: the repository root path.
pub struct RootCmd;

/// `show`: a commit and the files it changed.
pub struct ShowCmd;

/// `status`: staged and working-tree changes.
pub struct StatusCmd;

impl BlameCmd {
    pub fn name(&self) -> (n: &'static str)
        ensures
            n@ == "blame"@,
    {
        "blame"
    }
}

impl CatCmd {
    pub fn name(&self) -> (n: &'static str)
        ensures
            n@ == "cat"@,
    {
        "cat"
    }
}

impl GetCmd {
    pub fn name(&self) -> (n: &'static str)
        ensures
            n@ == "get"@,
    {
        "get"
    }
}

impl LogCmd {
    pub fn name(&self) -> (n: &'static str)
        ensures
            n@ == "log"@,
    {
        "log"
    }
}

impl OfflineCmd {
    pub fn name(&self) -> (n: &'static str)
        ensures
            n@ == "offline"@,
    {
        "offline"
    }
}

impl ResetCmd {
    pub fn name(&self) -> (n: &'static str)
        ensures
            n@ == "reset"@,
    {
        "reset"
    }
}

impl RootCmd {
    pub fn name(&self) -> (n: &'static str)
        ensures
            n@ == "root"@,
    {
        "root"
    }
}

impl ShowCmd {
    pub fn name(&self) -> (n: &'static str)
        ensures
            n@ == "show"@,
    {
        "show"
    }
}

impl StatusCmd {
    pub fn name(&self) -> (n: &'static str)
        ensures
            n@ == "status"@,
    {
        "status"
    }
}

} // verus!
