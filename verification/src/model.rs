//! Records shared by the commands: commits.

use vstd::prelude::*;

verus! {

/// A commit of the repository history. The timestamp is in seconds since the
/// Unix epoch, UTC.
#[derive(Debug, Clone, PartialEq, Eq)]
pub struct Commit {
    pub id: String,
    pub parent_ids: Vec<String>,
    pub message: String,
    pub author: String,
    pub email: String,
    pub timestamp: i64,
}

/// The mathematical content of a [`Commit`].
pub struct CommitView {
    pub id: Seq<char>,
    pub parent_ids: Seq<Seq<char>>,
    pub message: Seq<char>,
    pub author: Seq<char>,
    pub email: Seq<char>,
    pub timestamp: i64,
}

impl View for Commit {
    type V = CommitView;

    open spec fn view(&self) -> CommitView {
        CommitView {
            id: self.id@,
            parent_ids: self.parent_ids.deep_view(),
            message: self.message@,
            author: self.author@,
            email: self.email@,
            timestamp: self.timestamp,
        }
    }
}

/// The views of a list of commits.
pub open spec fn commit_views(commits: Seq<Commit>) -> Seq<CommitView> {
    commits.map_values(|c: Commit| c@)
}

/// A copy of each string of a list.
pub fn clone_strings(v: &Vec<String>) -> (r: Vec<String>)
    ensures
        r.deep_view() == v.deep_view(),
{
    let mut r: Vec<String> = Vec::new();
    for i in 0..v.len()
        invariant
            r.deep_view() == v.deep_view().take(i as int),
    {
        let ghost before = r.deep_view();
        r.push(v[i].clone());
        proof {
            assert(r.deep_view() =~= before.push(v[i as int]@));
            assert(v.deep_view().take(i + 1) =~= v.deep_view().take(i as int).push(v[i as int]@));
        }
    }
    proof {
        assert(v.deep_view().take(v.len() as int) =~= v.deep_view());
    }
    r
}

/// Whether two lists of strings are equal.
pub fn strings_equal(a: &Vec<String>, b: &Vec<String>) -> (r: bool)
    ensures
        r == (a.deep_view() == b.deep_view()),
{
    if a.len() != b.len() {
        proof {
            assert(a.deep_view().len() != b.deep_view().len());
        }
        return false;
    }
    for i in 0..a.len()
        invariant
            a.len() == b.len(),
            forall|j: int| 0 <= j < i ==> a[j]@ == b[j]@,
    {
        if !(a[i] == b[i]) {
            proof {
                assert(a.deep_view()[i as int] != b.deep_view()[i as int]);
            }
            return false;
        }
    }
    proof {
        assert(a.deep_view() =~= b.deep_view());
    }
    true
}

impl Commit {
    /// A copy of the commit.
    pub fn duplicate(&self) -> (c: Commit)
        ensures
            c@ == self@,
    {
        Commit {
            id: self.id.clone(),
            parent_ids: clone_strings(&self.parent_ids),
            message: self.message.clone(),
            author: self.author.clone(),
            email: self.email.clone(),
            timestamp: self.timestamp,
        }
    }
}

} // verus!
