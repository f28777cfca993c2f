use oxen::cat::{staged_version_hash, StagedNode};
use oxen::commands::{BlameCmd, CatCmd, GetCmd, LogCmd, OfflineCmd, ResetCmd, RootCmd, ShowCmd, StatusCmd};
use oxen::error::OxenError;
use oxen::paths::{normalize_repo_path, path_to_string, sort_by_path, text_precedes, RepoPath};
use oxen::reset::{reset_hard_next, ResetAction};
use oxen::status::StagedEntryStatus;
use oxen::text::{split_lines, strip_line_ending};

fn rp(s: &str) -> RepoPath {
    RepoPath { components: s.split('/').map(|c| c.to_string()).collect() }
}

#[test]
fn root_path_prints_as_text() {
    assert_eq!(path_to_string(&rp("/tmp/repo")), "/tmp/repo");
    assert_eq!(path_to_string(&rp("notes.txt")), "notes.txt");
    assert_eq!(path_to_string(&rp("")), "/");
    assert_eq!(path_to_string(&RepoPath { components: vec![] }), "");
}

#[test]
fn command_line_paths_are_made_absolute() {
    assert_eq!(normalize_repo_path(&rp("/tmp/repo/a.txt"), &rp("/home")), rp("/tmp/repo/a.txt"));
    assert_eq!(normalize_repo_path(&rp("sub/a.txt"), &rp("/tmp/repo")), rp("/tmp/repo/sub/a.txt"));
}

#[test]
fn split_lines_drops_line_endings() {
    assert_eq!(split_lines("alpha\nbeta\r\ngamma"), vec!["alpha", "beta", "gamma"]);
    assert_eq!(split_lines("alpha\n"), vec!["alpha"]);
    assert!(split_lines("").is_empty());
    assert_eq!(split_lines("\n\n"), vec!["", ""]);
}

#[test]
fn strip_line_ending_drops_one_ending() {
    assert_eq!(strip_line_ending("a\r\n"), "a");
    assert_eq!(strip_line_ending("a\n"), "a");
    assert_eq!(strip_line_ending("a\r"), "a");
    assert_eq!(strip_line_ending("a\n\n"), "a\n");
    assert_eq!(strip_line_ending("a"), "a");
}

#[test]
fn reset_hard_steps_in_order() {
    assert_eq!(reset_hard_next(None, true), Some(ResetAction::RestoreStaged));
    assert_eq!(reset_hard_next(Some(ResetAction::RestoreStaged), true), Some(ResetAction::RestoreWorkingTree));
    assert_eq!(reset_hard_next(Some(ResetAction::RestoreStaged), false), Some(ResetAction::Clean));
    assert_eq!(reset_hard_next(Some(ResetAction::RestoreWorkingTree), true), Some(ResetAction::Clean));
    assert_eq!(reset_hard_next(Some(ResetAction::Clean), true), None);
}

#[test]
fn read_staged_file_reads_the_staged_version() {
    let path = rp("hello.txt");
    let node = StagedNode { status: StagedEntryStatus::Modified, file_hash: Some("staged-hash".to_string()) };
    assert_eq!(staged_version_hash(&path, Some(node)).unwrap(), "staged-hash");
    match staged_version_hash(&path, None) {
        Err(OxenError::NoStagedEntry { path: p }) => assert_eq!(p, path),
        _ => panic!("expected no staged entry"),
    }
    let removed = StagedNode { status: StagedEntryStatus::Removed, file_hash: Some("h".to_string()) };
    match staged_version_hash(&path, Some(removed)) {
        Err(OxenError::StagedFileRemoved { path: p }) => assert_eq!(p, path),
        _ => panic!("expected a removed file"),
    }
    let dir = StagedNode { status: StagedEntryStatus::Added, file_hash: None };
    assert!(matches!(staged_version_hash(&path, Some(dir)), Err(OxenError::UnexpectedNodeType)));
}

#[test]
fn commands_have_their_names() {
    assert_eq!(BlameCmd.name(), "blame");
    assert_eq!(CatCmd.name(), "cat");
    assert_eq!(GetCmd.name(), "get");
    assert_eq!(LogCmd.name(), "log");
    assert_eq!(OfflineCmd.name(), "offline");
    assert_eq!(ResetCmd.name(), "reset");
    assert_eq!(RootCmd.name(), "root");
    assert_eq!(ShowCmd.name(), "show");
    assert_eq!(StatusCmd.name(), "status");
}

#[test]
fn paths_order_component_by_component() {
    assert!(rp("a/b").precedes(&rp("a/b/c")));
    assert!(rp("a/b").precedes(&rp("a/c")));
    assert!(!rp("a/c").precedes(&rp("a/b")));
    assert!(!rp("a").precedes(&rp("a")));
    // "a/b" comes before "a-b" as paths, though '-' sorts before '/' in text.
    assert!(rp("a/b").precedes(&rp("a-b")));
    assert!(text_precedes("a-b", "a/b"));
    let sorted = sort_by_path(vec![(rp("b"), 1), (rp("a/z"), 2), (rp("a"), 3), (rp("b"), 4)]);
    let order: Vec<i32> = sorted.iter().map(|(_, x)| *x).collect();
    assert_eq!(order, vec![3, 2, 1, 4]);
}

#[test]
fn special_components_come_before_normal_ones() {
    let root_first = RepoPath { components: vec!["".to_string(), "x".to_string()] };
    assert!(root_first.precedes(&rp("a")));
    assert!(rp(".").precedes(&rp("..")));
    assert!(rp("..").precedes(&rp("-y")));
    assert!(rp("../a").precedes(&rp("-y")));
    assert!(!rp("-y").precedes(&rp("..")));
}
