use oxen::log::{commit_listing, commits_to_show, page_size, CommitListing, LogOptions};
use oxen::model::Commit;
use oxen::paths::RepoPath;
use oxen::show::{changed_files, parent_to_compare, DiffEntry};

fn commit(id: &str, parents: &[&str]) -> Commit {
    Commit {
        id: id.to_string(),
        parent_ids: parents.iter().map(|p| p.to_string()).collect(),
        message: format!("Commit {id}"),
        author: "Ox".to_string(),
        email: "ox@example.com".to_string(),
        timestamp: 0,
    }
}

fn opts(revision: Option<&str>, skip: usize, num_commits: usize, no_count_cache: bool, path: Option<&str>) -> LogOptions {
    LogOptions {
        revision: revision.map(|r| r.to_string()),
        skip,
        num_commits,
        as_json: true,
        no_count_cache,
        path: path.map(|p| RepoPath { components: vec![p.to_string()] }),
    }
}

fn ids(commits: &[Commit]) -> Vec<&str> {
    commits.iter().map(|c| c.id.as_str()).collect()
}

#[test]
fn page_size_covers_skipped_and_shown_commits() {
    assert_eq!(page_size(0, 20), 20);
    assert_eq!(page_size(5, 10), 15);
    assert_eq!(page_size(0, 0), 1);
    assert_eq!(page_size(usize::MAX, 3), usize::MAX);
}

#[test]
fn log_defaults_to_main_without_a_revision() {
    let o = opts(None, 2, 3, false, None);
    match commit_listing(&o) {
        CommitListing::FirstPage { revision, page_size } => {
            assert_eq!(revision, "main");
            assert_eq!(page_size, 5);
        }
        other => panic!("unexpected listing {other:?}"),
    }
}

#[test]
fn log_commits_without_count_cache_lists_directly() {
    let o = opts(Some("main"), 7, 2, true, None);
    match commit_listing(&o) {
        CommitListing::WithoutCountCache { revision, skip, count } => {
            assert_eq!(revision, "main");
            assert_eq!((skip, count), (7, 2));
        }
        other => panic!("unexpected listing {other:?}"),
    }
    // That listing already skipped and counted: what it returned is shown as is.
    let listed = vec![commit("c8", &[]), commit("c9", &[])];
    assert_eq!(ids(&commits_to_show(&o, listed)), vec!["c8", "c9"]);
}

#[test]
fn log_commits_can_filter_history_by_path() {
    let o = opts(Some("main"), 0, 10, false, Some("target.txt"));
    match commit_listing(&o) {
        CommitListing::ByPath { revision, path, page_size } => {
            assert_eq!(revision, "main");
            assert_eq!(path.components, vec!["target.txt".to_string()]);
            assert_eq!(page_size, 10);
        }
        other => panic!("unexpected listing {other:?}"),
    }
    let listed = vec![commit("modify target", &["add other"]), commit("add target", &[])];
    assert_eq!(ids(&commits_to_show(&o, listed)), vec!["modify target", "add target"]);
}

#[test]
fn log_page_drops_skipped_commits() {
    let o = opts(Some("main"), 2, 2, false, None);
    let listed: Vec<Commit> = (0..5).map(|i| commit(&format!("c{i}"), &[])).collect();
    assert_eq!(ids(&commits_to_show(&o, listed)), vec!["c2", "c3"]);
    let short: Vec<Commit> = (0..3).map(|i| commit(&format!("c{i}"), &[])).collect();
    assert_eq!(ids(&commits_to_show(&o, short)), vec!["c2"]);
    let o = opts(Some("main"), 9, 2, false, None);
    let listed: Vec<Commit> = (0..5).map(|i| commit(&format!("c{i}"), &[])).collect();
    assert!(commits_to_show(&o, listed).is_empty());
}

#[test]
fn show_lists_changed_files_against_the_first_parent() {
    assert_eq!(parent_to_compare(&commit("abc123", &["parent123", "other"])), Some("parent123".to_string()));
    assert_eq!(parent_to_compare(&commit("root", &[])), None);
    let files = changed_files(vec![DiffEntry {
        filename: "data.yml".to_string(),
        status: "modified".to_string(),
        is_dir: false,
    }]);
    assert_eq!(files.len(), 1);
    assert_eq!(files[0].path, "data.yml");
    assert_eq!(files[0].status, "modified");
    assert!(!files[0].is_directory);
}
