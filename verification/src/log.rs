//! Which commits `log` lists, and which page of them it shows.

use crate::model::{commit_views, Commit};
use crate::paths::RepoPath;
use vstd::prelude::*;

verus! {

/// What the user asked `log` for.
#[derive(Debug)]
pub struct LogOptions {
    /// The branch or commit to start from; `main` where absent.
    pub revision: Option<String>,
    /// How many of the newest commits to leave out.
    pub skip: usize,
    /// How many commits to show.
    pub num_commits: usize,
    pub as_json: bool,
    /// Whether to list without reading or writing the commit count cache.
    pub no_count_cache: bool,
    /// Limit the history to commits that changed this path.
    pub path: Option<RepoPath>,
}

/// `skip + num_commits`, saturating at `usize::MAX`, and at least one.
pub open spec fn page_size_spec(skip: int, num_commits: int) -> int {
    let total = if skip + num_commits > usize::MAX { usize::MAX as int } else { skip + num_commits };
    if total < 1 {
        1
    } else {
        total
    }
}

/// The size of the first page to list so that it holds the skipped commits
/// and those shown.
pub fn page_size(skip: usize, num_commits: usize) -> (n: usize)
    ensures
        n == page_size_spec(skip as int, num_commits as int),
{
    let total = skip.saturating_add(num_commits);
    if total < 1 {
        1
    } else {
        total
    }
}

/// How the commits are listed from a revision.
#[derive(Debug)]
pub enum CommitListing {
    /// The first page of the commits that changed `path`.
    ByPath { revision: String, path: RepoPath, page_size: usize },
    /// `count` commits after the first `skip`, without the count cache.
    WithoutCountCache { revision: String, skip: usize, count: usize },
    /// The first page of the history.
    FirstPage { revision: String, page_size: usize },
}

pub enum CommitListingView {
    ByPath { revision: Seq<char>, path: Seq<Seq<char>>, page_size: int },
    WithoutCountCache { revision: Seq<char>, skip: int, count: int },
    FirstPage { revision: Seq<char>, page_size: int },
}

impl View for CommitListing {
    type V = CommitListingView;

    open spec fn view(&self) -> CommitListingView {
        match self {
            CommitListing::ByPath { revision, path, page_size } => CommitListingView::ByPath {
                revision: revision@,
                path: path@,
                page_size: *page_size as int,
            },
            CommitListing::WithoutCountCache { revision, skip, count } =>
                CommitListingView::WithoutCountCache {
                revision: revision@,
                skip: *skip as int,
                count: *count as int,
            },
            CommitListing::FirstPage { revision, page_size } => CommitListingView::FirstPage {
                revision: revision@,
                page_size: *page_size as int,
            },
        }
    }
}

/// The listing that the options ask for, from this revision.
pub open spec fn listing_for(opts: LogOptions, revision: Seq<char>) -> CommitListingView {
    match opts.path {
        Some(path) => CommitListingView::ByPath {
            revision,
            path: path@,
            page_size: page_size_spec(opts.skip as int, opts.num_commits as int),
        },
        None => if opts.no_count_cache {
            CommitListingView::WithoutCountCache {
                revision,
                skip: opts.skip as int,
                count: opts.num_commits as int,
            }
        } else {
            CommitListingView::FirstPage {
                revision,
                page_size: page_size_spec(opts.skip as int, opts.num_commits as int),
            }
        },
    }
}

fn listing(opts: &LogOptions, revision: String) -> (l: CommitListing)
    ensures
        l@ == listing_for(*opts, revision@),
{
    match &opts.path {
        Some(path) => CommitListing::ByPath {
            revision,
            path: path.duplicate(),
            page_size: page_size(opts.skip, opts.num_commits),
        },
        None => if opts.no_count_cache {
            CommitListing::WithoutCountCache { revision, skip: opts.skip, count: opts.num_commits }
        } else {
            CommitListing::FirstPage { revision, page_size: page_size(opts.skip, opts.num_commits) }
        },
    }
}

/// The revision `log` lists from when none is given.
pub const DEFAULT_REVISION: &'static str = "main";

/// The revision the options ask for: the one given, else `main`.
pub open spec fn requested_revision(opts: LogOptions) -> Seq<char> {
    match opts.revision {
        Some(r) => r@,
        None => DEFAULT_REVISION@,
    }
}

/// How `log` lists the commits: from the requested revision (`main` when
/// none is given), by path, without the count cache, or as a first page.
pub fn commit_listing(opts: &LogOptions) -> (l: CommitListing)
    ensures
        l@ == listing_for(*opts, requested_revision(*opts)),
{
    let revision = match &opts.revision {
        Some(r) => r.clone(),
        None => DEFAULT_REVISION.to_owned(),
    };
    listing(opts, revision)
}

/// The `count` items after the first `skip` (fewer where the list ends).
pub open spec fn page_window<A>(s: Seq<A>, skip: int, count: int) -> Seq<A> {
    let start = if skip < s.len() { skip } else { s.len() as int };
    let end = if start + count < s.len() { start + count } else { s.len() as int };
    s.subrange(start, end)
}

/// The commits that `log` shows out of those that its listing returned: a
/// listing without the count cache has already skipped and counted; a page
/// starts at the newest commit, so the skipped ones are dropped from it.
pub fn commits_to_show(opts: &LogOptions, listed: Vec<Commit>) -> (shown: Vec<Commit>)
    ensures
        commit_views(shown@) == if opts.path is None && opts.no_count_cache {
            commit_views(listed@)
        } else {
            page_window(commit_views(listed@), opts.skip as int, opts.num_commits as int)
        },
{
    if opts.path.is_none() && opts.no_count_cache {
        return listed;
    }
    let n = listed.len();
    let start = if opts.skip < n {
        opts.skip
    } else {
        n
    };
    let end = if opts.num_commits < n - start {
        start + opts.num_commits
    } else {
        n
    };
    let ghost all = commit_views(listed@);
    let mut shown: Vec<Commit> = Vec::new();
    let mut i = start;
    while i < end
        invariant
            start <= i <= end <= n == listed.len(),
            all == commit_views(listed@),
            commit_views(shown@) == all.subrange(start as int, i as int),
        decreases end - i,
    {
        let ghost before = commit_views(shown@);
        shown.push(listed[i].duplicate());
        proof {
            assert(commit_views(shown@) =~= before.push(all[i as int]));
            assert(all.subrange(start as int, i + 1) =~= all.subrange(start as int, i as int).push(
                all[i as int],
            ));
        }
        i = i + 1;
    }
    shown
}

/// A page shows at most `count` items: those after the first `skip`, as
/// many as remain up to `count`, and none when `skip` reaches past the end.
pub proof fn lemma_page_window_len<A>(s: Seq<A>, skip: int, count: int)
    requires
        0 <= skip,
        0 <= count,
    ensures
        page_window(s, skip, count).len() == if skip >= s.len() {
            0
        } else if s.len() - skip < count {
            s.len() - skip
        } else {
            count
        },
        forall|i: int|
            0 <= i < page_window(s, skip, count).len() ==> #[trigger] page_window(s, skip, count)[i]
                == s[skip + i],
{
}

/// How `log` lists commits: whenever the options give a path, the commits
/// that changed that path, on a first page of `skip + num_commits` (at least
/// one, at most `usize::MAX`), whatever `no_count_cache` says; without a
/// path, `num_commits` commits after the first `skip` when the count cache is
/// not to be used, else a first page of that size. The revision is the one
/// given, or `main`.
pub proof fn lemma_listing_follows_options(opts: LogOptions)
    ensures
        ({
            let total = opts.skip + opts.num_commits;
            let size = if total == 0 {
                1
            } else if total > usize::MAX {
                usize::MAX as int
            } else {
                total
            };
            let rev = match opts.revision {
                Some(r) => r@,
                None => "main"@,
            };
            let l = listing_for(opts, requested_revision(opts));
            &&& opts.path matches Some(p) ==> l == (CommitListingView::ByPath {
                revision: rev,
                path: p@,
                page_size: size,
            })
            &&& opts.path is None && opts.no_count_cache ==> l == (CommitListingView::WithoutCountCache {
                revision: rev,
                skip: opts.skip as int,
                count: opts.num_commits as int,
            })
            &&& opts.path is None && !opts.no_count_cache ==> l == (CommitListingView::FirstPage {
                revision: rev,
                page_size: size,
            })
        }),
{
}

} // verus!
