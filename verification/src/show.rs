//! The files that a commit changed, as `show` reports them.

use crate::model::Commit;
use vstd::prelude::*;

verus! {

/// An entry of the diff between a commit and its first parent.
#[derive(Debug)]
pub struct DiffEntry {
    pub filename: String,
    pub status: String,
    pub is_dir: bool,
}

/// A file or directory that a commit changed.
#[derive(Debug, Clone)]
pub struct ChangedFile {
    pub path: String,
    pub status: String,
    pub is_directory: bool,
}

pub struct ChangedFileView {
    pub path: Seq<char>,
    pub status: Seq<char>,
    pub is_directory: bool,
}

impl View for ChangedFile {
    type V = ChangedFileView;

    open spec fn view(&self) -> ChangedFileView {
        ChangedFileView { path: self.path@, status: self.status@, is_directory: self.is_directory }
    }
}

/// The changed file that a diff entry reports.
pub open spec fn changed_file_of(e: DiffEntry) -> ChangedFileView {
    ChangedFileView { path: e.filename@, status: e.status@, is_directory: e.is_dir }
}

pub open spec fn changed_views(files: Seq<ChangedFile>) -> Seq<ChangedFileView> {
    files.map_values(|f: ChangedFile| f@)
}

/// The commit that `show` compares a commit with: its first parent. A commit
/// without parents changed nothing that `show` lists.
pub fn parent_to_compare(commit: &Commit) -> (parent: Option<String>)
    ensures
        match parent {
            Some(p) => commit@.parent_ids.len() > 0 && p@ == commit@.parent_ids[0],
            None => commit@.parent_ids.len() == 0,
        },
{
    if commit.parent_ids.len() == 0 {
        None
    } else {
        proof {
            assert(commit@.parent_ids[0] == commit.parent_ids[0]@);
        }
        Some(commit.parent_ids[0].clone())
    }
}

/// The changed files that the diff entries report, in their order.
pub fn changed_files(entries: Vec<DiffEntry>) -> (files: Vec<ChangedFile>)
    ensures
        changed_views(files@) == entries@.map_values(|e: DiffEntry| changed_file_of(e)),
        files.len() == entries.len(),
        forall|i: int|
            0 <= i < files.len() ==> (#[trigger] files@[i]).path@ == entries@[i].filename@
                && files@[i].status@ == entries@[i].status@ && files@[i].is_directory
                == entries@[i].is_dir,
{
    let mut files: Vec<ChangedFile> = Vec::new();
    let ghost expected = entries@.map_values(|e: DiffEntry| changed_file_of(e));
    for i in 0..entries.len()
        invariant
            expected == entries@.map_values(|e: DiffEntry| changed_file_of(e)),
            changed_views(files@) == expected.take(i as int),
    {
        let e = &entries[i];
        let f = ChangedFile {
            path: e.filename.clone(),
            status: e.status.clone(),
            is_directory: e.is_dir,
        };
        let ghost before = changed_views(files@);
        let ghost fv = f@;
        files.push(f);
        proof {
            assert(changed_views(files@) =~= before.push(fv));
            assert(expected.take(i + 1) =~= expected.take(i as int).push(expected[i as int]));
        }
    }
    proof {
        assert(expected.take(entries.len() as int) =~= expected);
        assert forall|i: int| 0 <= i < files.len() implies (#[trigger] files@[i]).path@
            == entries@[i].filename@ && files@[i].status@ == entries@[i].status@
            && files@[i].is_directory == entries@[i].is_dir by {
            assert(changed_views(files@)[i] == files@[i]@);
            assert(expected[i] == changed_file_of(entries@[i]));
        }
    }
    files
}

/// A changed file reports its diff entry as it is: the same path and status
/// word, and a directory exactly when the entry is one.
pub proof fn lemma_changed_file_keeps_entry(e: DiffEntry)
    ensures
        changed_file_of(e).path == e.filename@,
        changed_file_of(e).status == e.status@,
        changed_file_of(e).is_directory == e.is_dir,
{
}

} // verus!
