use oxen::error::OxenError;
use oxen::offline::{
    check_drop, check_restore, clear_restored_paths, index_path, list, mark_offline, path_key,
    take_restored_entry, undo_mark, OfflineEntry, OfflineIndex,
};
use oxen::paths::RepoPath;
use oxen::tree::{collect_head_files, DirNode, FileNode, MerkleTreeNode, TreeNodeKind};

fn rp(s: &str) -> RepoPath {
    RepoPath { components: s.split('/').map(|c| c.to_string()).collect() }
}

fn file(name: &str, hash: &str, num_bytes: u64) -> FileNode {
    FileNode { name: name.to_string(), hash: hash.to_string(), num_bytes }
}

fn leaf(f: FileNode) -> MerkleTreeNode {
    MerkleTreeNode { node: TreeNodeKind::File(f), children: vec![] }
}

fn dir(name: &str, children: Vec<MerkleTreeNode>) -> MerkleTreeNode {
    MerkleTreeNode { node: TreeNodeKind::Directory(DirNode { name: name.to_string() }), children }
}

#[test]
fn drop_get_roundtrip_keeps_status_clean() {
    let mut index = OfflineIndex::new();
    let path = rp("hello.txt");
    // Dropping: the version is stored, the working file is there and clean.
    assert!(check_drop(&index, &path, "h1", true, true, false).is_ok());
    let (entry, previous) = mark_offline(&mut index, &path, "h1", "commit1", 13);
    assert!(previous.is_none());
    assert_eq!(entry.path, path);
    assert_eq!(entry.hash, "h1");
    assert_eq!(entry.commit_id, "commit1");
    assert_eq!(entry.num_bytes, 13);
    assert!(index.is_current(&path, "h1"));
    assert!(!index.is_current(&path, "h2"));
    // Dropping again with the working file gone is allowed: it is already offline.
    assert!(check_drop(&index, &path, "h1", true, false, false).is_ok());
    // Getting it back.
    assert!(check_restore(&path, false, false).is_ok());
    let restored = take_restored_entry(&mut index, &path, &file("hello.txt", "h1", 13), "commit1");
    assert_eq!(restored, entry);
    assert!(!index.is_current(&path, "h1"));
    assert!(list(index).is_empty());
}

#[test]
fn drop_refuses_modified_files() {
    let index = OfflineIndex::new();
    let path = rp("hello.txt");
    match check_drop(&index, &path, "h1", true, true, true) {
        Err(OxenError::RefusingToDropModified { path: p }) => assert_eq!(p, path),
        _ => panic!("expected a refusal"),
    }
    match check_drop(&index, &path, "h1", true, false, false) {
        Err(OxenError::MissingNonOfflineFile { path: p }) => assert_eq!(p, path),
        _ => panic!("expected a missing-file error"),
    }
    match check_drop(&index, &path, "h1", false, true, false) {
        Err(OxenError::VersionUnavailable { path: p, hash }) => {
            assert_eq!(p, path);
            assert_eq!(hash, "h1");
        }
        _ => panic!("expected an unavailable version"),
    }
    match check_restore(&path, true, true) {
        Err(OxenError::RefusingToOverwriteModified { path: p }) => assert_eq!(p, path),
        _ => panic!("expected a refusal to overwrite"),
    }
}

#[test]
fn drop_directory_marks_all_tracked_files_offline() {
    let tree = dir(
        "data",
        vec![
            leaf(file("one.txt", "h1", 3)),
            dir("nested", vec![leaf(file("two.txt", "h2", 3))]),
        ],
    );
    let files = collect_head_files(None, Some(&tree), &rp("data"), "commit1").unwrap();
    let paths: Vec<String> = files.iter().map(|(p, _)| path_key(p)).collect();
    assert_eq!(paths, vec!["data/nested/two.txt", "data/one.txt"]);

    let mut index = OfflineIndex::new();
    for (p, f) in &files {
        assert!(check_drop(&index, p, &f.hash, true, true, false).is_ok());
        mark_offline(&mut index, p, &f.hash, "commit1", f.num_bytes);
    }
    let listed = list(index);
    assert_eq!(listed.len(), 2);
    assert_eq!(listed[0].path, rp("data/nested/two.txt"));
    assert_eq!(listed[1].path, rp("data/one.txt"));
}

#[test]
fn restore_clears_offline_marker() {
    let mut index = OfflineIndex::new();
    mark_offline(&mut index, &rp("data/one.txt"), "h1", "c", 1);
    mark_offline(&mut index, &rp("data/two.txt"), "h2", "c", 2);
    mark_offline(&mut index, &rp("other.txt"), "h3", "c", 3);
    // Entries are in key order: data/one.txt, data/two.txt, other.txt.
    let restored = vec![true, false, true];
    let cleared = clear_restored_paths(&mut index, &vec![rp("data")], &restored);
    assert_eq!(cleared.len(), 1);
    assert_eq!(index.entries().len(), 2);
    assert_eq!(cleared[0].path, rp("data/one.txt"));
    assert!(!index.is_current(&rp("data/one.txt"), "h1"));
    assert!(index.is_current(&rp("data/two.txt"), "h2"));
    assert!(index.is_current(&rp("other.txt"), "h3"));
}

#[test]
fn undo_mark_puts_back_the_previous_entry() {
    let mut index = OfflineIndex::new();
    let path = rp("a.txt");
    mark_offline(&mut index, &path, "old", "c1", 1);
    let (_, previous) = mark_offline(&mut index, &path, "new", "c2", 2);
    assert!(index.is_current(&path, "new"));
    undo_mark(&mut index, &path, previous);
    assert!(index.is_current(&path, "old"));
    let (_, none) = mark_offline(&mut index, &rp("b.txt"), "x", "c", 1);
    assert!(none.is_none());
    undo_mark(&mut index, &rp("b.txt"), None);
    assert!(!index.is_current(&rp("b.txt"), "x"));
}

#[test]
fn index_from_sorted_entries() {
    let e = |p: &str| OfflineEntry { path: rp(p), hash: "h".to_string(), commit_id: "c".to_string(), num_bytes: 1 };
    let sorted = vec![("a".to_string(), e("a")), ("b".to_string(), e("b"))];
    let index = OfflineIndex::from_sorted(sorted).unwrap();
    assert_eq!(index.entries().len(), 2);
    let unsorted = vec![("b".to_string(), e("b")), ("a".to_string(), e("a"))];
    assert!(OfflineIndex::from_sorted(unsorted).is_none());
}

#[test]
fn index_location_and_keys() {
    assert_eq!(index_path(&rp("/tmp/repo")), rp("/tmp/repo/.oxen/offline/files.json"));
    assert_eq!(path_key(&rp("data/one.txt")), "data/one.txt");
}

#[test]
fn head_files_of_a_single_file_and_of_a_missing_path() {
    let files = collect_head_files(Some(file("hello.txt", "h", 5)), None, &rp("hello.txt"), "c1").unwrap();
    assert_eq!(files.len(), 1);
    assert_eq!(files[0].0, rp("hello.txt"));
    match collect_head_files(None, None, &rp("nope.txt"), "c1") {
        Err(OxenError::EntryNotInCommit { path, commit_id }) => {
            assert_eq!(path, rp("nope.txt"));
            assert_eq!(commit_id, "c1");
        }
        _ => panic!("expected a missing entry"),
    }
    let chunk = MerkleTreeNode { node: TreeNodeKind::FileChunk, children: vec![] };
    assert!(matches!(
        collect_head_files(None, Some(&chunk), &rp("x"), "c1"),
        Err(OxenError::UnexpectedNodeType)
    ));
}

#[test]
fn dropping_again_records_the_same_entry() {
    let mut index = OfflineIndex::new();
    let path = rp("hello.txt");
    let (first, _) = mark_offline(&mut index, &path, "h1", "commit1", 13);
    // The working file is gone now; the file is offline at this version.
    assert!(check_drop(&index, &path, "h1", true, false, false).is_ok());
    let (second, previous) = mark_offline(&mut index, &path, "h1", "commit1", 13);
    assert_eq!(second, first);
    assert_eq!(previous, Some(first));
    assert_eq!(list(index).len(), 1);
}

#[test]
fn clearing_twice_clears_nothing_more() {
    let mut index = OfflineIndex::new();
    mark_offline(&mut index, &rp("data/one.txt"), "h1", "c", 1);
    mark_offline(&mut index, &rp("data/two.txt"), "h2", "c", 2);
    let first = clear_restored_paths(&mut index, &vec![rp("data")], &vec![true, false]);
    assert_eq!(first.len(), 1);
    let second = clear_restored_paths(&mut index, &vec![rp("data")], &vec![false]);
    assert!(second.is_empty());
    assert_eq!(index.entries().len(), 1);
}
