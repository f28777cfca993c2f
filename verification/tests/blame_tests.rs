use oxen::blame::{active_lines_in_range, blame_file, short_commit_id, ActiveLine, BlameWalk, CommitSnapshot};
use oxen::error::OxenError;
use oxen::model::Commit;

fn commit(id: &str, parents: &[&str], message: &str) -> Commit {
    Commit {
        id: id.to_string(),
        parent_ids: parents.iter().map(|p| p.to_string()).collect(),
        message: message.to_string(),
        author: "Ox".to_string(),
        email: "ox@example.com".to_string(),
        timestamp: 0,
    }
}

fn snapshot(c: Commit, content: Option<&str>, parent: Option<&str>) -> CommitSnapshot {
    CommitSnapshot {
        commit: c,
        content: content.map(|s| s.to_string()),
        parent_content: parent.map(|s| s.to_string()),
    }
}

#[test]
fn blame_file_assigns_each_current_line_to_the_commit_that_changed_it() {
    let first = commit("c1", &[], "add notes");
    let second = commit("c2", &["c1"], "append gamma");
    let third = commit("c3", &["c2"], "change alpha");
    // The history from "main", newest first.
    let history = vec![
        snapshot(third, Some("alpha changed\nbeta\ngamma\n"), Some("alpha\nbeta\ngamma\n")),
        snapshot(second, Some("alpha\nbeta\ngamma\n"), Some("alpha\nbeta\n")),
        snapshot(first, Some("alpha\nbeta\n"), None),
    ];
    let lines = blame_file("alpha changed\nbeta\ngamma\n", &history).unwrap();
    assert_eq!(
        lines
            .iter()
            .map(|line| (line.line_number, line.content.as_str(), line.commit.id.as_str()))
            .collect::<Vec<_>>(),
        vec![(1, "alpha changed", "c3"), (2, "beta", "c1"), (3, "gamma", "c2")]
    );
}

#[test]
fn blame_skips_commits_that_left_the_file_unchanged() {
    let first = commit("c1", &[], "add");
    let second = commit("c2", &["c1"], "touch other file");
    let history = vec![
        snapshot(second, Some("one\ntwo\n"), Some("one\ntwo\n")),
        snapshot(first, Some("one\ntwo\n"), None),
    ];
    let lines = blame_file("one\ntwo\n", &history).unwrap();
    assert_eq!(lines.len(), 2);
    assert!(lines.iter().all(|l| l.commit.id == "c1"));
}

#[test]
fn blame_reports_a_line_no_commit_explains() {
    let only = commit("c9", &["c8"], "edit");
    // The history stops at a commit whose parent already held the first line.
    let history = vec![snapshot(only, Some("kept\nnew\n"), Some("kept\n"))];
    match blame_file("kept\nnew\n", &history) {
        Err(OxenError::BlameUnresolved { line_number }) => assert_eq!(line_number, 1),
        other => panic!("unexpected result: {:?}", other.map(|v| v.len()).is_ok()),
    }
}

#[test]
fn blame_of_empty_history_leaves_first_line_unresolved() {
    let history: Vec<CommitSnapshot> = Vec::new();
    match blame_file("a\n", &history) {
        Err(OxenError::BlameUnresolved { line_number }) => assert_eq!(line_number, 1),
        _ => panic!("expected an unresolved line"),
    }
    assert_eq!(blame_file("", &history).unwrap().len(), 0);
}

#[test]
fn active_lines_in_range_keeps_order_and_bounds() {
    let active = vec![
        ActiveLine { position: 0, head_index: 4 },
        ActiveLine { position: 2, head_index: 5 },
        ActiveLine { position: 3, head_index: 6 },
        ActiveLine { position: 7, head_index: 7 },
    ];
    let picked = active_lines_in_range(&active, 2..7);
    assert_eq!(picked.iter().map(|l| l.head_index).collect::<Vec<_>>(), vec![5, 6]);
    assert!(active_lines_in_range(&active, 4..4).is_empty());
}

#[test]
fn short_commit_id_takes_eight_bytes() {
    assert_eq!(short_commit_id("0123456789abcdef"), "01234567");
    assert_eq!(short_commit_id("abc123"), "abc123");
    assert_eq!(short_commit_id("12345678"), "12345678");
    // Byte 8 falls inside a two-byte character: the whole id is kept.
    assert_eq!(short_commit_id("1234567é9"), "1234567é9");
}

#[test]
fn blame_walk_stops_once_every_line_is_attributed() {
    let mut walk = BlameWalk::new("a\nb\n");
    assert!(!walk.is_done());
    let newest = snapshot(commit("c2", &["c1"], "rewrite"), Some("a\nb\n"), Some("z\n"));
    walk = walk.step(&newest);
    assert!(walk.is_done());
    let lines = walk.finish(&vec![newest]).unwrap();
    assert_eq!(lines.iter().map(|l| l.commit.id.as_str()).collect::<Vec<_>>(), vec!["c2", "c2"]);
}
