//! The committed tree of a repository, as far as the offline commands read
//! it: files and directories with their children.

use crate::error::OxenError;
use crate::paths::{sort_by_path, sorted_by_path, RepoPath};
use vstd::prelude::*;

verus! {

/// A committed file: its name, the hash of its content and its size.
#[derive(Debug)]
pub struct FileNode {
    pub name: String,
    pub hash: String,
    pub num_bytes: u64,
}

pub struct FileNodeView {
    pub name: Seq<char>,
    pub hash: Seq<char>,
    pub num_bytes: u64,
}

impl View for FileNode {
    type V = FileNodeView;

    open spec fn view(&self) -> FileNodeView {
        FileNodeView { name: self.name@, hash: self.hash@, num_bytes: self.num_bytes }
    }
}

impl FileNode {
    /// A copy of the node.
    pub fn duplicate(&self) -> (f: FileNode)
        ensures
            f@ == self@,
    {
        FileNode { name: self.name.clone(), hash: self.hash.clone(), num_bytes: self.num_bytes }
    }
}

/// A committed directory.
#[derive(Debug)]
pub struct DirNode {
    pub name: String,
}

/// What a node of the tree holds.
#[derive(Debug)]
pub enum TreeNodeKind {
    File(FileNode),
    Directory(DirNode),
    VNode,
    Commit,
    FileChunk,
}

/// A node of the tree with its children.
#[derive(Debug)]
pub struct MerkleTreeNode {
    pub node: TreeNodeKind,
    pub children: Vec<MerkleTreeNode>,
}

/// The files found from `node`, each with its path under `base`: a file node
/// is itself; a directory, virtual node or commit holds the files of its
/// children, where a child directory adds its name to the path and a child
/// virtual node or commit does not; chunk children are skipped. A chunk node
/// has no file list (`None`).
pub open spec fn node_files(node: MerkleTreeNode, base: Seq<Seq<char>>) -> Option<
    Seq<(Seq<Seq<char>>, FileNodeView)>,
>
    decreases node, 1int, 0int,
{
    match node.node {
        TreeNodeKind::File(f) => Some(seq![(base, f@)]),
        TreeNodeKind::FileChunk => None,
        _ => children_files(node, base, node.children@.len() as int),
    }
}

/// The files found from the first `k` children of `node`.
pub open spec fn children_files(node: MerkleTreeNode, base: Seq<Seq<char>>, k: int) -> Option<
    Seq<(Seq<Seq<char>>, FileNodeView)>,
>
    decreases node, 0int, k,
{
    if k <= 0 || k > node.children@.len() {
        Some(Seq::empty())
    } else {
        match children_files(node, base, k - 1) {
            None => None,
            Some(prev) => {
                let child = node.children@[k - 1];
                match child.node {
                    TreeNodeKind::File(f) => Some(prev.push((base.push(f.name@), f@))),
                    TreeNodeKind::Directory(d) => match node_files(child, base.push(d.name@)) {
                        None => None,
                        Some(fs) => Some(prev + fs),
                    },
                    TreeNodeKind::FileChunk => Some(prev),
                    _ => match node_files(child, base) {
                        None => None,
                        Some(fs) => Some(prev + fs),
                    },
                }
            },
        }
    }
}

/// Every node but a chunk has a file list: chunk children are skipped, so a
/// walk never reaches a chunk below the node it starts from.
pub proof fn lemma_node_files_some(node: MerkleTreeNode, base: Seq<Seq<char>>)
    requires
        !(node.node is FileChunk),
    ensures
        node_files(node, base) is Some,
    decreases node, 1int, 0int,
{
    match node.node {
        TreeNodeKind::File(_) => {},
        TreeNodeKind::FileChunk => {},
        _ => lemma_children_files_some(node, base, node.children@.len() as int),
    }
}

/// The first `k` children of a node always have a file list.
pub proof fn lemma_children_files_some(node: MerkleTreeNode, base: Seq<Seq<char>>, k: int)
    ensures
        children_files(node, base, k) is Some,
    decreases node, 0int, k,
{
    if 0 < k <= node.children@.len() {
        lemma_children_files_some(node, base, k - 1);
        let child = node.children@[k - 1];
        match child.node {
            TreeNodeKind::Directory(d) => lemma_node_files_some(child, base.push(d.name@)),
            TreeNodeKind::File(_) => {},
            TreeNodeKind::FileChunk => {},
            _ => lemma_node_files_some(child, base),
        }
    }
}

/// The files of the first `k` children stay among those of the first `m`.
proof fn lemma_children_files_grow(node: MerkleTreeNode, base: Seq<Seq<char>>, k: int, m: int)
    requires
        0 <= k <= m <= node.children@.len(),
    ensures
        forall|x: (Seq<Seq<char>>, FileNodeView)|
            children_files(node, base, k)->0.contains(x) ==> #[trigger] children_files(
                node,
                base,
                m,
            )->0.contains(x),
    decreases m - k,
{
    if k < m {
        lemma_children_files_grow(node, base, k, m - 1);
        lemma_children_files_some(node, base, m - 1);
        lemma_children_files_some(node, base, m);
        let prev = children_files(node, base, m - 1)->0;
        let cur = children_files(node, base, m)->0;
        let child = node.children@[m - 1];
        assert forall|x: (Seq<Seq<char>>, FileNodeView)| prev.contains(x) implies cur.contains(x) by {
            let i = choose|i: int| 0 <= i < prev.len() && prev[i] == x;
            match child.node {
                TreeNodeKind::File(f) => {
                    assert(cur == prev.push((base.push(f.name@), f@)));
                    assert(cur[i] == x);
                },
                TreeNodeKind::Directory(d) => {
                    lemma_node_files_some(child, base.push(d.name@));
                    assert(cur == prev + node_files(child, base.push(d.name@))->0);
                    assert(cur[i] == x);
                },
                TreeNodeKind::FileChunk => {},
                _ => {
                    lemma_node_files_some(child, base);
                    assert(cur == prev + node_files(child, base)->0);
                    assert(cur[i] == x);
                },
            }
        }
    }
}

/// The files found from a directory, virtual node or commit hold every file
/// of its children: a child file at the node's path joined with the file's
/// name, the files of a child directory found under the path joined with the
/// directory's name, and the files of a child virtual node or commit found
/// under the node's own path. So every file reachable through directories,
/// virtual nodes and commits is found, at the path of the directories passed.
pub proof fn lemma_node_files_hold_children(node: MerkleTreeNode, base: Seq<Seq<char>>, c: int)
    requires
        !(node.node is File),
        !(node.node is FileChunk),
        0 <= c < node.children@.len(),
    ensures
        node_files(node, base) is Some,
        ({
            let fs = node_files(node, base)->0;
            let child = node.children@[c];
            &&& child.node matches TreeNodeKind::File(f) ==> fs.contains((base.push(f.name@), f@))
            &&& child.node matches TreeNodeKind::Directory(d) ==> forall|x: (Seq<Seq<char>>, FileNodeView)|
                node_files(child, base.push(d.name@))->0.contains(x) ==> #[trigger] fs.contains(x)
            &&& (child.node is VNode || child.node is Commit) ==> forall|x: (Seq<Seq<char>>, FileNodeView)|
                node_files(child, base)->0.contains(x) ==> #[trigger] fs.contains(x)
        }),
{
    lemma_node_files_some(node, base);
    let len = node.children@.len() as int;
    let fs = node_files(node, base)->0;
    assert(fs == children_files(node, base, len)->0);
    lemma_children_files_some(node, base, c);
    lemma_children_files_some(node, base, c + 1);
    lemma_children_files_grow(node, base, c + 1, len);
    let prev = children_files(node, base, c)->0;
    let cur = children_files(node, base, c + 1)->0;
    let child = node.children@[c];
    match child.node {
        TreeNodeKind::File(f) => {
            assert(cur == prev.push((base.push(f.name@), f@)));
            assert(cur[prev.len() as int] == (base.push(f.name@), f@));
            assert(cur.contains((base.push(f.name@), f@)));
        },
        TreeNodeKind::Directory(d) => {
            lemma_node_files_some(child, base.push(d.name@));
            let cfs = node_files(child, base.push(d.name@))->0;
            assert(cur == prev + cfs);
            assert forall|x: (Seq<Seq<char>>, FileNodeView)| cfs.contains(x) implies #[trigger] fs.contains(x) by {
                let i = choose|i: int| 0 <= i < cfs.len() && cfs[i] == x;
                assert(cur[prev.len() + i] == x);
                assert(cur.contains(x));
            }
        },
        TreeNodeKind::FileChunk => {},
        _ => {
            lemma_node_files_some(child, base);
            let cfs = node_files(child, base)->0;
            assert(cur == prev + cfs);
            assert forall|x: (Seq<Seq<char>>, FileNodeView)| cfs.contains(x) implies #[trigger] fs.contains(x) by {
                let i = choose|i: int| 0 <= i < cfs.len() && cfs[i] == x;
                assert(cur[prev.len() + i] == x);
                assert(cur.contains(x));
            }
        },
    }
}

pub open spec fn file_pairs_view(v: Seq<(RepoPath, FileNode)>) -> Seq<(Seq<Seq<char>>, FileNodeView)> {
    v.map_values(|p: (RepoPath, FileNode)| (p.0@, p.1@))
}

/// Appends to `entries` the files found from `node` under `base_path` (see
/// [`node_files`]).
pub fn collect_files_from_node(
    node: &MerkleTreeNode,
    base_path: &RepoPath,
    entries: &mut Vec<(RepoPath, FileNode)>,
) -> (result: Result<(), OxenError>)
    ensures
        match node_files(*node, base_path@) {
            Some(fs) => result is Ok && file_pairs_view(final(entries)@) == file_pairs_view(
                old(entries)@,
            ) + fs,
            None => result is Err && result->Err_0 is UnexpectedNodeType && final(entries)@ == old(
                entries,
            )@,
        },
        node_files(*node, base_path@) is None <==> node.node is FileChunk,
    decreases node,
{
    match &node.node {
        TreeNodeKind::File(file_node) => {
            let ghost before = file_pairs_view(entries@);
            entries.push((base_path.duplicate(), file_node.duplicate()));
            proof {
                assert(file_pairs_view(entries@) =~= before + seq![(base_path@, file_node@)]);
            }
            Ok(())
        },
        TreeNodeKind::FileChunk => Err(OxenError::UnexpectedNodeType),
        _ => {
            let ghost start = file_pairs_view(entries@);
            let mut i: usize = 0;
            while i < node.children.len()
                invariant
                    i <= node.children.len(),
                    !(node.node is File),
                    !(node.node is FileChunk),
                    children_files(*node, base_path@, i as int) matches Some(fs)
                        && file_pairs_view(entries@) == start + fs,
                decreases node.children.len() - i,
            {
                let child = &node.children[i];
                let ghost prev = children_files(*node, base_path@, i as int)->0;
                let ghost before = file_pairs_view(entries@);
                proof {
                    assert(node.children@[i as int] == *child);
                }
                match &child.node {
                    TreeNodeKind::File(file_node) => {
                        entries.push((base_path.join(file_node.name.as_str()), file_node.duplicate()));
                        proof {
                            assert(file_pairs_view(entries@) =~= before.push((base_path@.push(file_node.name@), file_node@)));
                            assert(start + prev.push((base_path@.push(file_node.name@), file_node@)) =~= (start + prev).push((base_path@.push(file_node.name@), file_node@)));
                        }
                    },
                    TreeNodeKind::Directory(dir_node) => {
                        let child_base = base_path.join(dir_node.name.as_str());
                        let r = collect_files_from_node(child, &child_base, entries);
                        if r.is_err() {
                            proof {
                                lemma_node_files_some(*child, child_base@);
                            }
                            return r;
                        }
                        proof {
                            let fs = node_files(*child, child_base@)->0;
                            assert(start + (prev + fs) =~= (start + prev) + fs);
                        }
                    },
                    TreeNodeKind::FileChunk => {},
                    _ => {
                        let r = collect_files_from_node(child, base_path, entries);
                        if r.is_err() {
                            proof {
                                lemma_node_files_some(*child, base_path@);
                            }
                            return r;
                        }
                        proof {
                            let fs = node_files(*child, base_path@)->0;
                            assert(start + (prev + fs) =~= (start + prev) + fs);
                        }
                    },
                }
                i = i + 1;
            }
            proof {
                let fs = children_files(*node, base_path@, node.children@.len() as int)->0;
                assert(node_files(*node, base_path@) == Some(fs));
                lemma_node_files_some(*node, base_path@);
            }
            Ok(())
        },
    }
}

/// The files a path of the head commit stands for, given what the tree holds
/// at that path: the file itself, or every file under the directory in path
/// order; a path the commit does not hold is refused.
pub fn collect_head_files(
    file_node: Option<FileNode>,
    dir_node: Option<&MerkleTreeNode>,
    path: &RepoPath,
    commit_id: &str,
) -> (result: Result<Vec<(RepoPath, FileNode)>, OxenError>)
    ensures
        file_node matches Some(f) ==> result is Ok && file_pairs_view(result->Ok_0@) == seq![
            (path@, f@),
        ],
        file_node is None && dir_node is None ==> (result matches Err(
            OxenError::EntryNotInCommit { path: p, commit_id: c },
        ) && p@ == path@ && c@ == commit_id@),
        file_node is None && dir_node is Some ==> match node_files(*dir_node->0, path@) {
            None => result is Err && result->Err_0 is UnexpectedNodeType,
            Some(fs) => result is Ok && sorted_by_path(result->Ok_0@) && file_pairs_view(
                result->Ok_0@,
            ).to_multiset() == fs.to_multiset(),
        },
{
    if let Some(file_node) = file_node {
        let found = vec![(path.duplicate(), file_node)];
        proof {
            assert(file_pairs_view(found@) =~= seq![(path@, found@[0].1@)]);
        }
        return Ok(found);
    }
    let dir_node = match dir_node {
        Some(d) => d,
        None => {
            return Err(
                OxenError::EntryNotInCommit { path: path.duplicate(), commit_id: commit_id.to_owned() },
            );
        },
    };
    let mut entries: Vec<(RepoPath, FileNode)> = Vec::new();
    let r = collect_files_from_node(dir_node, path, &mut entries);
    if r.is_err() {
        return Err(OxenError::UnexpectedNodeType);
    }
    proof {
        assert(file_pairs_view(Seq::<(RepoPath, FileNode)>::empty()) =~= Seq::empty());
    }
    let sorted = sort_by_path(entries);
    proof {
        crate::paths::lemma_same_multiset_map(
            sorted@,
            entries@,
            |p: (RepoPath, FileNode)| (p.0@, p.1@),
        );
        let fs = node_files(*dir_node, path@)->0;
        assert(file_pairs_view(entries@) =~= fs);
    }
    Ok(sorted)
}

} // verus!
