use oxen::paths::RepoPath;
use oxen::status::{
    parse_status_paths, sorted_paths, staged_entry_status_str, status_report, StagedData, StagedDirStats,
    StagedEntryStatus, StatusEntry,
};

fn rp(s: &str) -> RepoPath {
    if s.is_empty() {
        return RepoPath { components: vec![] };
    }
    RepoPath { components: s.split('/').map(|c| c.to_string()).collect() }
}

fn text(p: &RepoPath) -> String {
    p.components.join("/")
}

fn summary(entries: &[StatusEntry]) -> Vec<(String, String, bool, Option<usize>)> {
    entries
        .iter()
        .map(|e| (text(&e.path), e.status.clone(), e.is_directory, e.num_files))
        .collect()
}

fn empty_data() -> StagedData {
    StagedData {
        staged_dirs: vec![],
        staged_files: vec![],
        modified_files: vec![],
        moved_files: vec![],
        untracked_files: vec![],
        untracked_dirs: vec![],
        removed_files: vec![],
    }
}

#[test]
fn status_groups_staged_and_working_entries() {
    let mut data = empty_data();
    data.staged_files.push((rp("tracked.yml"), StagedEntryStatus::Modified));
    data.modified_files.push(rp("working.yml"));
    data.untracked_files.push(rp("new.json"));
    data.untracked_dirs.push((rp("assets"), (3, vec![])));
    data.removed_files.push(rp("old.har"));
    let report = status_report(data);
    assert_eq!(
        summary(&report.staged),
        vec![("tracked.yml".to_string(), "modified".to_string(), false, None)]
    );
    assert_eq!(
        summary(&report.working),
        vec![
            ("working.yml".to_string(), "modified".to_string(), false, None),
            ("new.json".to_string(), "untracked".to_string(), false, None),
            ("assets".to_string(), "untracked".to_string(), true, Some(3)),
            ("old.har".to_string(), "removed".to_string(), false, None),
        ]
    );
}

#[test]
fn status_expands_untracked_dirs_with_listed_files() {
    let mut data = empty_data();
    // The walk of the directory may find its files in any order.
    let found = sorted_paths(vec![rp("episode/yml/step_001.yml"), rp("episode/yml/step_000.yml")]);
    data.untracked_dirs.push((rp("episode"), (2, found)));
    let report = status_report(data);
    assert_eq!(
        summary(&report.working),
        vec![
            ("episode/yml/step_000.yml".to_string(), "untracked".to_string(), false, None),
            ("episode/yml/step_001.yml".to_string(), "untracked".to_string(), false, None),
        ]
    );
}

#[test]
fn status_sorts_each_group_and_skips_the_root_staged_dir() {
    let mut data = empty_data();
    data.staged_dirs.push((
        rp(""),
        vec![StagedDirStats { path: rp(""), status: StagedEntryStatus::Added, num_files_staged: 9 }],
    ));
    data.staged_dirs.push((
        rp("images"),
        vec![StagedDirStats { path: rp("images"), status: StagedEntryStatus::Added, num_files_staged: 2 }],
    ));
    data.staged_files.push((rp("b.txt"), StagedEntryStatus::Added));
    data.staged_files.push((rp("a.txt"), StagedEntryStatus::Removed));
    data.moved_files.push((rp("z.txt"), rp("y.txt")));
    data.moved_files.push((rp("m.txt"), rp("l.txt")));
    let report = status_report(data);
    assert_eq!(
        summary(&report.staged),
        vec![
            ("images".to_string(), "added".to_string(), true, Some(2)),
            ("a.txt".to_string(), "removed".to_string(), false, None),
            ("b.txt".to_string(), "added".to_string(), false, None),
        ]
    );
    let moved: Vec<(String, String, Option<String>)> = report
        .working
        .iter()
        .map(|e| (text(&e.path), e.status.clone(), e.from_path.as_ref().map(text)))
        .collect();
    assert_eq!(
        moved,
        vec![
            ("m.txt".to_string(), "moved".to_string(), Some("l.txt".to_string())),
            ("z.txt".to_string(), "moved".to_string(), Some("y.txt".to_string())),
        ]
    );
}

#[test]
fn parse_status_paths_skips_unmatched_inputs() {
    // An existing path is kept.
    let kept = parse_status_paths(vec![(rp("/repo/nested/site.yml"), (true, false))], false);
    assert_eq!(kept, vec![rp("/repo/nested/site.yml")]);
    // A wildcard that matches nothing expands to no path at all.
    assert!(parse_status_paths(vec![], true).is_empty());
    // A literal path that does not exist is skipped unless the head tracks it.
    assert!(parse_status_paths(vec![(rp("/repo/does_not_exist.yml"), (false, false))], true).is_empty());
    assert!(parse_status_paths(vec![(rp("/repo/gone.yml"), (false, true))], false).is_empty());
    assert_eq!(
        parse_status_paths(vec![(rp("/repo/gone.yml"), (false, true))], true),
        vec![rp("/repo/gone.yml")]
    );
}

#[test]
fn parse_status_paths_sorts_and_dedups() {
    let paths = parse_status_paths(
        vec![
            (rp("/r/b"), (true, false)),
            (rp("/r/a"), (true, false)),
            (rp("/r/b"), (true, true)),
        ],
        true,
    );
    assert_eq!(paths, vec![rp("/r/a"), rp("/r/b")]);
}

#[test]
fn staged_status_words() {
    assert_eq!(staged_entry_status_str(&StagedEntryStatus::Added), "added");
    assert_eq!(staged_entry_status_str(&StagedEntryStatus::Modified), "modified");
    assert_eq!(staged_entry_status_str(&StagedEntryStatus::Removed), "removed");
    assert_eq!(staged_entry_status_str(&StagedEntryStatus::Unmodified), "unmodified");
}
