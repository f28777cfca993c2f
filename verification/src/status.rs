//! The repository status report: staged entries and working-tree entries in a
//! path order, and the scope that status paths given on the command line
//! stand for.

use crate::paths::{path_le, path_lt, sort_by_path, sorted_by_path, RepoPath};
use vstd::prelude::*;

verus! {

/// How a staged entry differs from the head commit.
#[derive(Clone, Copy, Debug, PartialEq, Eq, Structural)]
pub enum StagedEntryStatus {
    Added,
    Modified,
    Removed,
    Unmodified,
}

pub open spec fn status_text(status: StagedEntryStatus) -> Seq<char> {
    match status {
        StagedEntryStatus::Added => "added"@,
        StagedEntryStatus::Modified => "modified"@,
        StagedEntryStatus::Removed => "removed"@,
        StagedEntryStatus::Unmodified => "unmodified"@,
    }
}

/// The word a status report uses for a staged status.
pub fn staged_entry_status_str(status: &StagedEntryStatus) -> (s: &'static str)
    ensures
        s@ == status_text(*status),
{
    match status {
        StagedEntryStatus::Added => "added",
        StagedEntryStatus::Modified => "modified",
        StagedEntryStatus::Removed => "removed",
        StagedEntryStatus::Unmodified => "unmodified",
    }
}

/// A staged directory with the number of files staged under it.
#[derive(Debug)]
pub struct StagedDirStats {
    pub path: RepoPath,
    pub status: StagedEntryStatus,
    pub num_files_staged: usize,
}

/// What the status computation found. `untracked_dirs` holds, for each
/// untracked directory, its number of files and the files under it that are
/// not ignored (empty when they were not listed).
#[derive(Debug)]
pub struct StagedData {
    pub staged_dirs: Vec<(RepoPath, Vec<StagedDirStats>)>,
    pub staged_files: Vec<(RepoPath, StagedEntryStatus)>,
    pub modified_files: Vec<RepoPath>,
    pub moved_files: Vec<(RepoPath, RepoPath)>,
    pub untracked_files: Vec<RepoPath>,
    pub untracked_dirs: Vec<(RepoPath, (usize, Vec<RepoPath>))>,
    pub removed_files: Vec<RepoPath>,
}

/// One line of a status report.
#[derive(Debug)]
pub struct StatusEntry {
    pub path: RepoPath,
    pub status: String,
    pub is_directory: bool,
    pub num_files: Option<usize>,
    pub from_path: Option<RepoPath>,
}

pub struct StatusEntryView {
    pub path: Seq<Seq<char>>,
    pub status: Seq<char>,
    pub is_directory: bool,
    pub num_files: Option<usize>,
    pub from_path: Option<Seq<Seq<char>>>,
}

impl View for StatusEntry {
    type V = StatusEntryView;

    open spec fn view(&self) -> StatusEntryView {
        StatusEntryView {
            path: self.path@,
            status: self.status@,
            is_directory: self.is_directory,
            num_files: self.num_files,
            from_path: match self.from_path {
                Some(p) => Some(p@),
                None => None,
            },
        }
    }
}

pub open spec fn entries_view(v: Seq<StatusEntry>) -> Seq<StatusEntryView> {
    v.map_values(|e: StatusEntry| e@)
}

pub open spec fn plain_entry(path: Seq<Seq<char>>, status: Seq<char>) -> StatusEntryView {
    StatusEntryView { path, status, is_directory: false, num_files: None, from_path: None }
}

/// The entries of the staged directories, in the given order, without the
/// group of the repository root.
pub open spec fn staged_dir_entries(dirs: Seq<(RepoPath, Vec<StagedDirStats>)>) -> Seq<
    StatusEntryView,
>
    decreases dirs.len(),
{
    if dirs.len() == 0 {
        Seq::empty()
    } else {
        let prev = staged_dir_entries(dirs.drop_last());
        let (key, group) = dirs.last();
        if key@.len() == 0 {
            prev
        } else {
            prev + group@.map_values(
                |d: StagedDirStats|
                    StatusEntryView {
                        path: d.path@,
                        status: status_text(d.status),
                        is_directory: true,
                        num_files: Some(d.num_files_staged),
                        from_path: None,
                    },
            )
        }
    }
}

/// Whether `e` reports the staged directory `d`: its path, as a directory,
/// with the status word of its own staged status and its count of staged
/// files.
pub open spec fn reports_staged_dir(e: StatusEntryView, d: StagedDirStats) -> bool {
    &&& e.path == d.path@
    &&& e.status == status_text(d.status)
    &&& e.is_directory
    &&& e.num_files == Some(d.num_files_staged)
    &&& e.from_path is None
}

/// Whether the `b`-th directory of the `a`-th group has an entry.
pub open spec fn dir_reported(dirs: Seq<(RepoPath, Vec<StagedDirStats>)>, a: int, b: int) -> bool {
    exists|i: int|
        0 <= i < staged_dir_entries(dirs).len() && #[trigger] reports_staged_dir(
            staged_dir_entries(dirs)[i],
            dirs[a].1@[b],
        )
}

/// Whether the `i`-th entry reports a staged directory outside the root's
/// group.
pub open spec fn entry_reports_dir(dirs: Seq<(RepoPath, Vec<StagedDirStats>)>, i: int) -> bool {
    exists|a: int, b: int|
        0 <= a < dirs.len() && dirs[a].0@.len() > 0 && 0 <= b < dirs[a].1@.len()
            && #[trigger] reports_staged_dir(staged_dir_entries(dirs)[i], dirs[a].1@[b])
}

/// The staged directories are reported one to one: every staged directory
/// outside the group of the repository root has an entry that carries its
/// own status word and count, and every entry reports such a directory.
pub proof fn lemma_staged_dirs_reported(dirs: Seq<(RepoPath, Vec<StagedDirStats>)>)
    ensures
        forall|a: int, b: int|
            0 <= a < dirs.len() && dirs[a].0@.len() > 0 && 0 <= b < dirs[a].1@.len()
                ==> #[trigger] dir_reported(dirs, a, b),
        forall|i: int|
            0 <= i < staged_dir_entries(dirs).len() ==> #[trigger] entry_reports_dir(dirs, i),
    decreases dirs.len(),
{
    if dirs.len() > 0 {
        let rest = dirs.drop_last();
        lemma_staged_dirs_reported(rest);
        let prev = staged_dir_entries(rest);
        let all = staged_dir_entries(dirs);
        let n = dirs.len() - 1;
        let (key, group) = dirs.last();
        let f = |d: StagedDirStats|
            StatusEntryView {
                path: d.path@,
                status: status_text(d.status),
                is_directory: true,
                num_files: Some(d.num_files_staged),
                from_path: None,
            };
        if key@.len() == 0 {
            assert(all == prev);
        } else {
            assert(all == prev + group@.map_values(f));
        }
        assert forall|a: int, b: int|
            0 <= a < dirs.len() && dirs[a].0@.len() > 0 && 0 <= b < dirs[a].1@.len() implies #[trigger] dir_reported(
            dirs,
            a,
            b,
        ) by {
            if a < n {
                assert(rest[a] == dirs[a]);
                assert(dir_reported(rest, a, b));
                let i = choose|i: int|
                    0 <= i < prev.len() && #[trigger] reports_staged_dir(prev[i], rest[a].1@[b]);
                assert(all[i] == prev[i]);
                assert(reports_staged_dir(all[i], dirs[a].1@[b]));
            } else {
                let i = prev.len() + b;
                assert(all[i] == f(group@[b]));
                assert(reports_staged_dir(all[i], dirs[a].1@[b]));
            }
        }
        assert forall|i: int| 0 <= i < all.len() implies #[trigger] entry_reports_dir(dirs, i) by {
            if i < prev.len() {
                assert(all[i] == prev[i]);
                assert(entry_reports_dir(rest, i));
                let (a, b) = choose|a: int, b: int|
                    0 <= a < rest.len() && rest[a].0@.len() > 0 && 0 <= b < rest[a].1@.len()
                        && #[trigger] reports_staged_dir(prev[i], rest[a].1@[b]);
                assert(rest[a] == dirs[a]);
                assert(reports_staged_dir(all[i], dirs[a].1@[b]));
            } else {
                let b = i - prev.len();
                assert(all[i] == f(group@[b]));
                assert(dirs[n].1@[b] == group@[b]);
                assert(reports_staged_dir(all[i], dirs[n].1@[b]));
            }
        }
    }
}

/// The entries of untracked directories: each directory's files when they
/// were listed, the directory itself otherwise.
pub open spec fn untracked_dir_entries(dirs: Seq<(RepoPath, (usize, Vec<RepoPath>))>) -> Seq<
    StatusEntryView,
>
    decreases dirs.len(),
{
    if dirs.len() == 0 {
        Seq::empty()
    } else {
        let prev = untracked_dir_entries(dirs.drop_last());
        let (dir, (num_files, files)) = dirs.last();
        if files.len() == 0 {
            prev.push(
                StatusEntryView {
                    path: dir@,
                    status: "untracked"@,
                    is_directory: true,
                    num_files: Some(num_files),
                    from_path: None,
                },
            )
        } else {
            prev + files@.map_values(|f: RepoPath| plain_entry(f@, "untracked"@))
        }
    }
}

/// A status report.
#[derive(Debug)]
pub struct StatusReport {
    pub staged: Vec<StatusEntry>,
    pub working: Vec<StatusEntry>,
}

/// Whether `sorted` is `items` ordered by path.
pub open spec fn sorted_version<X>(sorted: Seq<(RepoPath, X)>, items: Seq<(RepoPath, X)>) -> bool {
    sorted_by_path(sorted) && sorted.to_multiset() == items.to_multiset()
}

pub open spec fn unit_keyed(paths: Seq<RepoPath>) -> Seq<(RepoPath, ())> {
    paths.map_values(|p: RepoPath| (p, ()))
}

fn unkeyed(items: Vec<(RepoPath, ())>) -> (paths: Vec<RepoPath>)
    ensures
        paths@ == items@.map_values(|x: (RepoPath, ())| x.0),
{
    let ghost all = items@;
    let mut rest = items;
    let mut paths: Vec<RepoPath> = Vec::new();
    let ghost mut k: int = 0;
    proof {
        assert(all.skip(0) =~= all);
        assert(paths@ =~= all.take(0).map_values(|x: (RepoPath, ())| x.0));
    }
    while rest.len() > 0
        invariant
            0 <= k <= all.len(),
            rest@ == all.skip(k),
            paths@ == all.take(k).map_values(|x: (RepoPath, ())| x.0),
        decreases rest.len(),
    {
        let (p, _) = rest.remove(0);
        paths.push(p);
        proof {
            assert(all[k].0 == p);
            assert(all.skip(k + 1) =~= all.skip(k).remove(0));
            assert(paths@ =~= all.take(k + 1).map_values(|x: (RepoPath, ())| x.0));
            k = k + 1;
        }
    }
    proof {
        assert(all.take(k) =~= all);
    }
    paths
}

/// The files found under an untracked directory, in path order, as the
/// report lists them.
pub fn sorted_paths(found: Vec<RepoPath>) -> (paths: Vec<RepoPath>)
    ensures
        forall|i: int, j: int| 0 <= i < j < paths.len() ==> path_le(paths@[i]@, paths@[j]@),
        paths@.to_multiset() == found@.to_multiset(),
{
    let ghost f = found@;
    let items = keyed(found);
    let sorted = sort_by_path(items);
    let ghost sv = sorted@;
    let paths = unkeyed(sorted);
    proof {
        crate::paths::lemma_same_multiset_map(sv, unit_keyed(f), |x: (RepoPath, ())| x.0);
        assert(unit_keyed(f).map_values(|x: (RepoPath, ())| x.0) =~= f);
        assert forall|i: int, j: int| 0 <= i < j < paths.len() implies path_le(
            paths@[i]@,
            paths@[j]@,
        ) by {
            assert(paths@[i] == sv[i].0);
            assert(paths@[j] == sv[j].0);
        }
    }
    paths
}

/// Appends to `out` one entry for each path, with the given status word.
fn push_path_entries(out: &mut Vec<StatusEntry>, paths: Vec<(RepoPath, ())>, status: &str)
    ensures
        entries_view(final(out)@) == entries_view(old(out)@) + paths@.map_values(
            |p: (RepoPath, ())| plain_entry(p.0@, status@),
        ),
{
    let ghost start = entries_view(out@);
    let ghost all = paths@;
    let mut rest = paths;
    let ghost mut k: int = 0;
    proof {
        assert(all.skip(0) =~= all);
        assert(entries_view(out@) =~= start + all.take(0).map_values(
            |p: (RepoPath, ())| plain_entry(p.0@, status@),
        ));
    }
    while rest.len() > 0
        invariant
            0 <= k <= all.len(),
            rest@ == all.skip(k),
            entries_view(out@) == start + all.take(k).map_values(
                |p: (RepoPath, ())| plain_entry(p.0@, status@),
            ),
        decreases rest.len(),
    {
        let (path, _) = rest.remove(0);
        let ghost before = entries_view(out@);
        out.push(
            StatusEntry {
                path,
                status: status.to_owned(),
                is_directory: false,
                num_files: None,
                from_path: None,
            },
        );
        proof {
            assert(all[k].0 == path);
            assert(all.skip(k + 1) =~= all.skip(k).remove(0));
            assert(entries_view(out@) =~= before.push(plain_entry(path@, status@)));
            assert(all.take(k + 1).map_values(|p: (RepoPath, ())| plain_entry(p.0@, status@))
                =~= all.take(k).map_values(|p: (RepoPath, ())| plain_entry(p.0@, status@)).push(
                plain_entry(path@, status@),
            ));
            k = k + 1;
        }
    }
    proof {
        assert(all.take(k) =~= all);
    }
}

/// Pairs each path with nothing, to sort it by path.
fn keyed(paths: Vec<RepoPath>) -> (items: Vec<(RepoPath, ())>)
    ensures
        items@ == unit_keyed(paths@),
{
    let ghost all = paths@;
    let mut rest = paths;
    let mut items: Vec<(RepoPath, ())> = Vec::new();
    let ghost mut k: int = 0;
    proof {
        assert(all.skip(0) =~= all);
        assert(items@ =~= unit_keyed(all.take(0)));
    }
    while rest.len() > 0
        invariant
            0 <= k <= all.len(),
            rest@ == all.skip(k),
            items@ == unit_keyed(all.take(k)),
        decreases rest.len(),
    {
        let p = rest.remove(0);
        items.push((p, ()));
        proof {
            assert(all[k] == p);
            assert(all.skip(k + 1) =~= all.skip(k).remove(0));
            assert(items@ =~= unit_keyed(all.take(k + 1)));
            k = k + 1;
        }
    }
    proof {
        assert(all.take(k) =~= all);
    }
    items
}

/// The staged part of a report built from already sorted collections.
pub open spec fn staged_entries_spec(
    dirs: Seq<(RepoPath, Vec<StagedDirStats>)>,
    files: Seq<(RepoPath, StagedEntryStatus)>,
) -> Seq<StatusEntryView> {
    staged_dir_entries(dirs) + files.map_values(
        |f: (RepoPath, StagedEntryStatus)| plain_entry(f.0@, status_text(f.1)),
    )
}

/// The working part of a report built from already sorted collections.
pub open spec fn working_entries_spec(
    modified: Seq<(RepoPath, ())>,
    moved: Seq<(RepoPath, RepoPath)>,
    untracked: Seq<(RepoPath, ())>,
    untracked_dirs: Seq<(RepoPath, (usize, Vec<RepoPath>))>,
    removed: Seq<(RepoPath, ())>,
) -> Seq<StatusEntryView> {
    modified.map_values(|p: (RepoPath, ())| plain_entry(p.0@, "modified"@)) + moved.map_values(
        |m: (RepoPath, RepoPath)|
            StatusEntryView {
                path: m.0@,
                status: "moved"@,
                is_directory: false,
                num_files: None,
                from_path: Some(m.1@),
            },
    ) + untracked.map_values(|p: (RepoPath, ())| plain_entry(p.0@, "untracked"@))
        + untracked_dir_entries(untracked_dirs) + removed.map_values(
        |p: (RepoPath, ())| plain_entry(p.0@, "removed"@),
    )
}

/// Appends the entries of the staged directories (see [`staged_dir_entries`]).
fn push_staged_dirs(out: &mut Vec<StatusEntry>, dirs: Vec<(RepoPath, Vec<StagedDirStats>)>)
    ensures
        entries_view(final(out)@) == entries_view(old(out)@) + staged_dir_entries(dirs@),
{
    let ghost start = entries_view(out@);
    let ghost all = dirs@;
    let mut rest = dirs;
    let ghost mut k: int = 0;
    proof {
        assert(all.skip(0) =~= all);
        assert(all.take(0) =~= Seq::<(RepoPath, Vec<StagedDirStats>)>::empty());
        assert(entries_view(out@) =~= start + staged_dir_entries(all.take(0)));
    }
    while rest.len() > 0
        invariant
            0 <= k <= all.len(),
            rest@ == all.skip(k),
            entries_view(out@) == start + staged_dir_entries(all.take(k)),
        decreases rest.len(),
    {
        let (key, group) = rest.remove(0);
        proof {
            assert(all[k] == (key, group));
            assert(all.skip(k + 1) =~= all.skip(k).remove(0));
            assert(all.take(k + 1).drop_last() =~= all.take(k));
        }
        if key.components.len() > 0 {
            let ghost base = entries_view(out@);
            let ghost gv = group@;
            let ghost f = |d: StagedDirStats|
                StatusEntryView {
                    path: d.path@,
                    status: status_text(d.status),
                    is_directory: true,
                    num_files: Some(d.num_files_staged),
                    from_path: None,
                };
            let mut members = group;
            let ghost mut m: int = 0;
            proof {
                assert(gv.skip(0) =~= gv);
                assert(entries_view(out@) =~= base + gv.take(0).map_values(f));
            }
            while members.len() > 0
                invariant
                    0 <= m <= gv.len(),
                    members@ == gv.skip(m),
                    entries_view(out@) == base + gv.take(m).map_values(f),
                    f == (|d: StagedDirStats|
                        StatusEntryView {
                            path: d.path@,
                            status: status_text(d.status),
                            is_directory: true,
                            num_files: Some(d.num_files_staged),
                            from_path: None,
                        }),
                decreases members.len(),
            {
                let d = members.remove(0);
                let status = staged_entry_status_str(&d.status);
                let ghost before = entries_view(out@);
                let ghost dv = f(d);
                out.push(
                    StatusEntry {
                        path: d.path,
                        status: status.to_owned(),
                        is_directory: true,
                        num_files: Some(d.num_files_staged),
                        from_path: None,
                    },
                );
                proof {
                    assert(gv[m] == d);
                    assert(gv.skip(m + 1) =~= gv.skip(m).remove(0));
                    assert(entries_view(out@) =~= before.push(dv));
                    assert(gv.take(m + 1).map_values(f) =~= gv.take(m).map_values(f).push(dv));
                    m = m + 1;
                }
            }
            proof {
                assert(gv.take(m) =~= gv);
                assert(key@.len() != 0);
                assert(staged_dir_entries(all.take(k + 1)) =~= staged_dir_entries(all.take(k))
                    + gv.map_values(f));
            }
        } else {
            proof {
                assert(key@.len() == 0);
            }
        }
        proof {
            k = k + 1;
        }
    }
    proof {
        assert(all.take(k) =~= all);
    }
}

/// Appends one entry per staged file, with its status word.
fn push_staged_files(out: &mut Vec<StatusEntry>, files: Vec<(RepoPath, StagedEntryStatus)>)
    ensures
        entries_view(final(out)@) == entries_view(old(out)@) + files@.map_values(
            |f: (RepoPath, StagedEntryStatus)| plain_entry(f.0@, status_text(f.1)),
        ),
{
    let ghost start = entries_view(out@);
    let ghost all = files@;
    let ghost g = |f: (RepoPath, StagedEntryStatus)| plain_entry(f.0@, status_text(f.1));
    let mut rest = files;
    let ghost mut k: int = 0;
    proof {
        assert(all.skip(0) =~= all);
        assert(entries_view(out@) =~= start + all.take(0).map_values(g));
    }
    while rest.len() > 0
        invariant
            0 <= k <= all.len(),
            rest@ == all.skip(k),
            entries_view(out@) == start + all.take(k).map_values(g),
            g == (|f: (RepoPath, StagedEntryStatus)| plain_entry(f.0@, status_text(f.1))),
        decreases rest.len(),
    {
        let (path, status) = rest.remove(0);
        let word = staged_entry_status_str(&status);
        let ghost before = entries_view(out@);
        let ghost ev = plain_entry(path@, status_text(status));
        out.push(
            StatusEntry {
                path,
                status: word.to_owned(),
                is_directory: false,
                num_files: None,
                from_path: None,
            },
        );
        proof {
            assert(all[k] == (path, status));
            assert(all.skip(k + 1) =~= all.skip(k).remove(0));
            assert(entries_view(out@) =~= before.push(ev));
            assert(all.take(k + 1).map_values(g) =~= all.take(k).map_values(g).push(ev));
            k = k + 1;
        }
    }
    proof {
        assert(all.take(k) =~= all);
    }
}

/// Appends one entry per moved file, with the path it was moved from.
fn push_moved_files(out: &mut Vec<StatusEntry>, moved: Vec<(RepoPath, RepoPath)>)
    ensures
        entries_view(final(out)@) == entries_view(old(out)@) + moved@.map_values(
            |m: (RepoPath, RepoPath)|
                StatusEntryView {
                    path: m.0@,
                    status: "moved"@,
                    is_directory: false,
                    num_files: None,
                    from_path: Some(m.1@),
                },
        ),
{
    let ghost start = entries_view(out@);
    let ghost all = moved@;
    let ghost g = |m: (RepoPath, RepoPath)|
        StatusEntryView {
            path: m.0@,
            status: "moved"@,
            is_directory: false,
            num_files: None,
            from_path: Some(m.1@),
        };
    let mut rest = moved;
    let ghost mut k: int = 0;
    proof {
        assert(all.skip(0) =~= all);
        assert(entries_view(out@) =~= start + all.take(0).map_values(g));
    }
    while rest.len() > 0
        invariant
            0 <= k <= all.len(),
            rest@ == all.skip(k),
            entries_view(out@) == start + all.take(k).map_values(g),
            g == (|m: (RepoPath, RepoPath)|
                StatusEntryView {
                    path: m.0@,
                    status: "moved"@,
                    is_directory: false,
                    num_files: None,
                    from_path: Some(m.1@),
                }),
        decreases rest.len(),
    {
        let (path, from) = rest.remove(0);
        let ghost before = entries_view(out@);
        let ghost ev = g((path, from));
        out.push(
            StatusEntry {
                path,
                status: "moved".to_owned(),
                is_directory: false,
                num_files: None,
                from_path: Some(from),
            },
        );
        proof {
            assert(all[k] == (path, from));
            assert(all.skip(k + 1) =~= all.skip(k).remove(0));
            assert(entries_view(out@) =~= before.push(ev));
            assert(all.take(k + 1).map_values(g) =~= all.take(k).map_values(g).push(ev));
            k = k + 1;
        }
    }
    proof {
        assert(all.take(k) =~= all);
    }
}

/// Appends the entries of the untracked directories (see
/// [`untracked_dir_entries`]).
fn push_untracked_dirs(out: &mut Vec<StatusEntry>, dirs: Vec<(RepoPath, (usize, Vec<RepoPath>))>)
    ensures
        entries_view(final(out)@) == entries_view(old(out)@) + untracked_dir_entries(dirs@),
{
    let ghost start = entries_view(out@);
    let ghost all = dirs@;
    let mut rest = dirs;
    let ghost mut k: int = 0;
    proof {
        assert(all.skip(0) =~= all);
        assert(all.take(0) =~= Seq::<(RepoPath, (usize, Vec<RepoPath>))>::empty());
        assert(entries_view(out@) =~= start + untracked_dir_entries(all.take(0)));
    }
    while rest.len() > 0
        invariant
            0 <= k <= all.len(),
            rest@ == all.skip(k),
            entries_view(out@) == start + untracked_dir_entries(all.take(k)),
        decreases rest.len(),
    {
        let (dir, (num_files, files)) = rest.remove(0);
        proof {
            assert(all[k] == (dir, (num_files, files)));
            assert(all.skip(k + 1) =~= all.skip(k).remove(0));
            assert(all.take(k + 1).drop_last() =~= all.take(k));
        }
        if files.len() == 0 {
            let ghost before = entries_view(out@);
            let ghost ev = StatusEntryView {
                path: dir@,
                status: "untracked"@,
                is_directory: true,
                num_files: Some(num_files),
                from_path: None,
            };
            out.push(
                StatusEntry {
                    path: dir,
                    status: "untracked".to_owned(),
                    is_directory: true,
                    num_files: Some(num_files),
                    from_path: None,
                },
            );
            proof {
                assert(entries_view(out@) =~= before.push(ev));
            }
        } else {
            let ghost fv = files@;
            let items = keyed(files);
            push_path_entries(out, items, "untracked");
            proof {
                assert(unit_keyed(fv).map_values(|p: (RepoPath, ())| plain_entry(p.0@, "untracked"@))
                    =~= fv.map_values(|f: RepoPath| plain_entry(f@, "untracked"@)));
            }
        }
        proof {
            k = k + 1;
        }
    }
    proof {
        assert(all.take(k) =~= all);
    }
}

/// Builds the status report. Staged directories come in the given order
/// (without the group of the repository root), then staged files by path;
/// the working part lists modified files, moved files, untracked files,
/// untracked directories and removed files, each group by path.
pub fn status_report(data: StagedData) -> (report: StatusReport)
    ensures
        exists|
            files: Seq<(RepoPath, StagedEntryStatus)>,
            modified: Seq<(RepoPath, ())>,
            moved: Seq<(RepoPath, RepoPath)>,
            untracked: Seq<(RepoPath, ())>,
            dirs: Seq<(RepoPath, (usize, Vec<RepoPath>))>,
            removed: Seq<(RepoPath, ())>,
        |
            {
                &&& sorted_version(files, data.staged_files@)
                &&& sorted_version(modified, unit_keyed(data.modified_files@))
                &&& sorted_version(moved, data.moved_files@)
                &&& sorted_version(untracked, unit_keyed(data.untracked_files@))
                &&& sorted_version(dirs, data.untracked_dirs@)
                &&& sorted_version(removed, unit_keyed(data.removed_files@))
                &&& entries_view(report.staged@) == staged_entries_spec(data.staged_dirs@, files)
                &&& entries_view(report.working@) == working_entries_spec(
                    modified,
                    moved,
                    untracked,
                    dirs,
                    removed,
                )
            },
{
    let ghost d = data;
    let StagedData {
        staged_dirs,
        staged_files,
        modified_files,
        moved_files,
        untracked_files,
        untracked_dirs,
        removed_files,
    } = data;
    let mut staged: Vec<StatusEntry> = Vec::new();
    push_staged_dirs(&mut staged, staged_dirs);
    let files = sort_by_path(staged_files);
    let ghost files_v = files@;
    push_staged_files(&mut staged, files);
    let mut working: Vec<StatusEntry> = Vec::new();
    let modified = sort_by_path(keyed(modified_files));
    let ghost modified_v = modified@;
    push_path_entries(&mut working, modified, "modified");
    let moved = sort_by_path(moved_files);
    let ghost moved_v = moved@;
    push_moved_files(&mut working, moved);
    let untracked = sort_by_path(keyed(untracked_files));
    let ghost untracked_v = untracked@;
    push_path_entries(&mut working, untracked, "untracked");
    let dirs = sort_by_path(untracked_dirs);
    let ghost dirs_v = dirs@;
    push_untracked_dirs(&mut working, dirs);
    let removed = sort_by_path(keyed(removed_files));
    let ghost removed_v = removed@;
    push_path_entries(&mut working, removed, "removed");
    let report = StatusReport { staged, working };
    proof {
        assert(entries_view(Seq::<StatusEntry>::empty()) =~= Seq::empty());
        assert(entries_view(report.staged@) =~= staged_entries_spec(d.staged_dirs@, files_v));
        assert(entries_view(report.working@) =~= working_entries_spec(
            modified_v,
            moved_v,
            untracked_v,
            dirs_v,
            removed_v,
        ));
    }
    report
}

/// Whether an expanded status path stays in scope: it exists in the working
/// tree, or the head commit (when there is one) tracks it.
pub open spec fn in_scope(exists_in_tree: bool, in_head: bool, has_head: bool) -> bool {
    exists_in_tree || (has_head && in_head)
}

/// Whether `p` is one of the expanded paths that stay in scope.
pub open spec fn scope_contains(
    expanded: Seq<(RepoPath, (bool, bool))>,
    has_head: bool,
    p: Seq<Seq<char>>,
) -> bool {
    exists|i: int|
        0 <= i < expanded.len() && expanded[i].0@ == p && in_scope(
            expanded[i].1.0,
            expanded[i].1.1,
            has_head,
        )
}

/// The expanded paths that stay in scope, each paired with nothing.
fn scope_items(expanded: Vec<(RepoPath, (bool, bool))>, has_head: bool) -> (kept: Vec<
    (RepoPath, ()),
>)
    ensures
        forall|q: int|
            0 <= q < kept.len() ==> scope_contains(expanded@, has_head, #[trigger] kept@[q].0@),
        forall|i: int|
            #![trigger expanded@[i]]
            0 <= i < expanded.len() && in_scope(expanded@[i].1.0, expanded@[i].1.1, has_head)
                ==> exists|q: int| 0 <= q < kept.len() && #[trigger] kept@[q].0@ == expanded@[i].0@,
{
    let ghost all = expanded@;
    let mut rest = expanded;
    let mut kept: Vec<(RepoPath, ())> = Vec::new();
    let ghost mut k: int = 0;
    proof {
        assert(all.skip(0) =~= all);
    }
    while rest.len() > 0
        invariant
            0 <= k <= all.len(),
            rest@ == all.skip(k),
            forall|q: int| 0 <= q < kept.len() ==> scope_contains(all, has_head, #[trigger] kept@[q].0@),
            forall|i: int|
                #![trigger all[i]]
                0 <= i < k && in_scope(all[i].1.0, all[i].1.1, has_head) ==> exists|q: int|
                    0 <= q < kept.len() && #[trigger] kept@[q].0@ == all[i].0@,
        decreases rest.len(),
    {
        let (path, (exists_in_tree, in_head)) = rest.remove(0);
        let ghost before = kept@;
        proof {
            assert(all[k] == (path, (exists_in_tree, in_head)));
            assert(all.skip(k + 1) =~= all.skip(k).remove(0));
        }
        if exists_in_tree || (has_head && in_head) {
            kept.push((path, ()));
        }
        proof {
            assert forall|q: int| 0 <= q < kept.len() implies scope_contains(all, has_head, #[trigger] kept@[q].0@) by {
                if q < before.len() {
                    assert(kept@[q] == before[q]);
                } else {
                    assert(kept@[q].0@ == all[k].0@);
                }
            }
            assert forall|i: int|
                #![trigger all[i]]
                0 <= i < k + 1 && in_scope(all[i].1.0, all[i].1.1, has_head) implies exists|q: int|
                    0 <= q < kept.len() && #[trigger] kept@[q].0@ == all[i].0@ by {
                if i < k {
                    let q = choose|q: int| 0 <= q < before.len() && #[trigger] before[q].0@ == all[i].0@;
                    assert(kept@[q] == before[q]);
                } else {
                    assert(kept@[kept.len() - 1].0@ == all[i].0@);
                }
            }
            k = k + 1;
        }
    }
    kept
}

pub open spec fn path_views(v: Seq<RepoPath>) -> Seq<Seq<Seq<char>>> {
    v.map_values(|p: RepoPath| p@)
}

pub open spec fn strictly_increasing(ks: Seq<Seq<Seq<char>>>) -> bool {
    forall|i: int, j: int| 0 <= i < j < ks.len() ==> path_lt(ks[i], ks[j])
}

/// The keys without repetitions of a key right after itself.
pub open spec fn dedup_keys(ks: Seq<Seq<Seq<char>>>) -> Seq<Seq<Seq<char>>>
    decreases ks.len(),
{
    if ks.len() == 0 {
        Seq::empty()
    } else {
        let prev = dedup_keys(ks.drop_last());
        if prev.len() > 0 && prev.last() == ks.last() {
            prev
        } else {
            prev.push(ks.last())
        }
    }
}

pub open spec fn keys_sorted(ks: Seq<Seq<Seq<char>>>) -> bool {
    forall|i: int, j: int| 0 <= i < j < ks.len() ==> path_le(ks[i], ks[j])
}

proof fn lemma_dedup_sorted_keys(ks: Seq<Seq<Seq<char>>>)
    requires
        keys_sorted(ks),
    ensures
        strictly_increasing(dedup_keys(ks)),
        forall|x: Seq<Seq<char>>| dedup_keys(ks).contains(x) <==> ks.contains(x),
        ks.len() > 0 ==> dedup_keys(ks).len() > 0 && dedup_keys(ks).last() == ks.last(),
    decreases ks.len(),
{
    if ks.len() > 0 {
        let rest = ks.drop_last();
        assert(keys_sorted(rest)) by {
            assert forall|i: int, j: int| 0 <= i < j < rest.len() implies path_le(rest[i], rest[j]) by {
                assert(rest[i] == ks[i] && rest[j] == ks[j]);
            }
        }
        lemma_dedup_sorted_keys(rest);
        let prev = dedup_keys(rest);
        let x = ks.last();
        if !(prev.len() > 0 && prev.last() == x) {
            if prev.len() > 0 {
                assert(path_le(rest.last(), x)) by {
                    assert(ks[ks.len() - 2] == rest.last());
                }
                assert(path_lt(prev.last(), x));
                assert forall|i: int, j: int|
                    0 <= i < j < prev.push(x).len() implies path_lt(prev.push(x)[i], prev.push(x)[j]) by {
                    if j == prev.len() && i < prev.len() - 1 {
                        crate::paths::lemma_path_lt_transitive(prev[i], prev.last(), x);
                    }
                }
            }
        }
        assert forall|y: Seq<Seq<char>>| dedup_keys(ks).contains(y) <==> ks.contains(y) by {
            if ks.contains(y) {
                let i = choose|i: int| 0 <= i < ks.len() && ks[i] == y;
                if i < ks.len() - 1 {
                    assert(rest[i] == y);
                    assert(rest.contains(y));
                    assert(prev.contains(y));
                    let j = choose|j: int| 0 <= j < prev.len() && prev[j] == y;
                    assert(dedup_keys(ks)[j] == y);
                } else {
                    assert(dedup_keys(ks).last() == x);
                    assert(dedup_keys(ks)[dedup_keys(ks).len() - 1] == y);
                }
            }
            if dedup_keys(ks).contains(y) {
                let i = choose|i: int| 0 <= i < dedup_keys(ks).len() && dedup_keys(ks)[i] == y;
                if i < prev.len() {
                    assert(dedup_keys(ks)[i] == prev[i]);
                    assert(prev[i] == y);
                    assert(prev.contains(y));
                    assert(rest.contains(y));
                    let r = choose|r: int| 0 <= r < rest.len() && rest[r] == y;
                    assert(ks[r] == y);
                } else {
                    assert(ks[ks.len() - 1] == y);
                }
            }
        }
    }
}

/// The paths of sorted items, each once.
fn dedup_sorted(sorted: &Vec<(RepoPath, ())>) -> (out: Vec<RepoPath>)
    ensures
        path_views(out@) == dedup_keys(sorted@.map_values(|x: (RepoPath, ())| x.0@)),
{
    let ghost ks = sorted@.map_values(|x: (RepoPath, ())| x.0@);
    let mut out: Vec<RepoPath> = Vec::new();
    proof {
        assert(ks.take(0) =~= Seq::<Seq<Seq<char>>>::empty());
        assert(path_views(out@) =~= Seq::<Seq<Seq<char>>>::empty());
    }
    for m in 0..sorted.len()
        invariant
            ks == sorted@.map_values(|x: (RepoPath, ())| x.0@),
            path_views(out@) == dedup_keys(ks.take(m as int)),
    {
        let path = &sorted[m].0;
        proof {
            assert(ks.take(m + 1).drop_last() =~= ks.take(m as int));
            assert(ks.take(m + 1).last() == path@);
        }
        let fresh = if out.len() == 0 {
            true
        } else {
            !out[out.len() - 1].same_as(path)
        };
        if fresh {
            let ghost before = path_views(out@);
            let copy = path.duplicate();
            out.push(copy);
            proof {
                assert(path_views(out@) =~= before.push(path@));
            }
        }
    }
    proof {
        assert(ks.take(sorted.len() as int) =~= ks);
    }
    out
}

/// The scope of a status request: the expanded paths (each with whether it
/// exists in the working tree and whether the head commit tracks it) that
/// stay in scope, each once, in path order.
pub fn parse_status_paths(expanded: Vec<(RepoPath, (bool, bool))>, has_head: bool) -> (paths: Vec<
    RepoPath,
>)
    ensures
        strictly_increasing(path_views(paths@)),
        forall|i: int|
            0 <= i < paths.len() ==> scope_contains(expanded@, has_head, #[trigger] paths@[i]@),
        forall|p: Seq<Seq<char>>|
            scope_contains(expanded@, has_head, p) ==> exists|i: int|
                0 <= i < paths.len() && #[trigger] paths@[i]@ == p,
{
    let ghost all = expanded@;
    let kept = scope_items(expanded, has_head);
    let ghost kept_v = kept@;
    let sorted = sort_by_path(kept);
    let ghost sv = sorted@;
    let out = dedup_sorted(&sorted);
    proof {
        broadcast use vstd::seq_lib::group_to_multiset_ensures;

        let ks = sv.map_values(|x: (RepoPath, ())| x.0@);
        assert(keys_sorted(ks));
        lemma_dedup_sorted_keys(ks);
        let ov = path_views(out@);
        assert forall|i: int| 0 <= i < out.len() implies exists|q: int|
            0 <= q < sv.len() && sv[q].0@ == #[trigger] out@[i]@ by {
            assert(ov[i] == out@[i]@);
            assert(ov.contains(ov[i]));
            assert(ks.contains(ov[i]));
        }
        assert forall|q: int| #![trigger sv[q]] 0 <= q < sv.len() implies exists|i: int|
            0 <= i < out.len() && #[trigger] out@[i]@ == sv[q].0@ by {
            assert(ks[q] == sv[q].0@);
            assert(ks.contains(ks[q]));
            assert(ov.contains(ks[q]));
            let i = choose|i: int| 0 <= i < ov.len() && ov[i] == ks[q];
            assert(out@[i]@ == ov[i]);
        }

        assert forall|i: int| 0 <= i < out.len() implies scope_contains(all, has_head, #[trigger] out@[i]@) by {
            let q = choose|q: int| 0 <= q < sv.len() && sv[q].0@ == #[trigger] out@[i]@;
            assert(sv.contains(sv[q]));
            assert(kept_v.to_multiset().count(sv[q]) > 0);
            assert(kept_v.contains(sv[q]));
            let r = choose|r: int| 0 <= r < kept_v.len() && kept_v[r] == sv[q];
            assert(scope_contains(all, has_head, kept_v[r].0@));
        }
        assert forall|p: Seq<Seq<char>>| scope_contains(all, has_head, p) implies exists|i: int|
            0 <= i < out.len() && #[trigger] out@[i]@ == p by {
            let i0 = choose|i: int|
                0 <= i < all.len() && all[i].0@ == p && in_scope(all[i].1.0, all[i].1.1, has_head);
            assert(all[i0] == all[i0]);
            let r = choose|q: int| 0 <= q < kept_v.len() && #[trigger] kept_v[q].0@ == all[i0].0@;
            assert(kept_v.contains(kept_v[r]));
            assert(sv.to_multiset().count(kept_v[r]) > 0);
            assert(sv.contains(kept_v[r]));
            let q = choose|q: int| 0 <= q < sv.len() && sv[q] == kept_v[r];
            assert(sv[q] == sv[q]);
        }
    }
    out
}

} // verus!
