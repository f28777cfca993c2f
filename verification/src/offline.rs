//! Offline working-tree content: tracked files whose content was removed from
//! the working tree (and can be restored from the version store) are recorded
//! in an index keyed by their repository path.

use crate::error::OxenError;
use crate::paths::{path_has_prefix, path_lt, path_text, sort_by_path, sorted_by_path, text_lt, RepoPath};
use vstd::prelude::*;

verus! {

/// Name of the repository's hidden directory.
pub const OXEN_HIDDEN_DIR: &'static str = ".oxen";

/// Directory, under the hidden directory, of the offline index.
pub const OFFLINE_DIR: &'static str = "offline";

/// File name of the offline index.
pub const OFFLINE_INDEX_FILE: &'static str = "files.json";

/// A file whose working-tree content is offline: its path, the hash of its
/// content, the commit it was dropped at and its size.
#[derive(Debug, Clone, PartialEq, Eq)]
pub struct OfflineEntry {
    pub path: RepoPath,
    pub hash: String,
    pub commit_id: String,
    pub num_bytes: u64,
}

pub struct OfflineEntryView {
    pub path: Seq<Seq<char>>,
    pub hash: Seq<char>,
    pub commit_id: Seq<char>,
    pub num_bytes: u64,
}

impl View for OfflineEntry {
    type V = OfflineEntryView;

    open spec fn view(&self) -> OfflineEntryView {
        OfflineEntryView {
            path: self.path@,
            hash: self.hash@,
            commit_id: self.commit_id@,
            num_bytes: self.num_bytes,
        }
    }
}

impl OfflineEntry {
    /// A copy of the entry.
    pub fn duplicate(&self) -> (e: OfflineEntry)
        ensures
            e@ == self@,
    {
        OfflineEntry {
            path: self.path.duplicate(),
            hash: self.hash.clone(),
            commit_id: self.commit_id.clone(),
            num_bytes: self.num_bytes,
        }
    }
}

/// The key under which a path is indexed: its text.
pub fn path_key(path: &RepoPath) -> (key: String)
    ensures
        key@ == path_text(path@),
{
    path.to_text()
}

/// Where the offline index of the repository rooted at `repo_root` is kept.
pub fn index_path(repo_root: &RepoPath) -> (p: RepoPath)
    ensures
        p@ == repo_root@.push(OXEN_HIDDEN_DIR@).push(OFFLINE_DIR@).push(OFFLINE_INDEX_FILE@),
{
    repo_root.join(OXEN_HIDDEN_DIR).join(OFFLINE_DIR).join(OFFLINE_INDEX_FILE)
}

pub open spec fn pair_view(p: (String, OfflineEntry)) -> (Seq<char>, OfflineEntryView) {
    (p.0@, p.1@)
}

/// Keys in strictly increasing order (so each key occurs once).
pub open spec fn keys_increasing(files: Seq<(Seq<char>, OfflineEntryView)>) -> bool {
    forall|i: int, j: int| 0 <= i < j < files.len() ==> text_lt(files[i].0, files[j].0)
}

/// The index of offline files, in key order.
pub struct OfflineIndex {
    files: Vec<(String, OfflineEntry)>,
}

impl View for OfflineIndex {
    type V = Seq<(Seq<char>, OfflineEntryView)>;

    closed spec fn view(&self) -> Seq<(Seq<char>, OfflineEntryView)> {
        self.files@.map_values(|p: (String, OfflineEntry)| pair_view(p))
    }
}

/// The entry stored under `key`, if any.
pub open spec fn lookup(files: Seq<(Seq<char>, OfflineEntryView)>, key: Seq<char>) -> Option<
    OfflineEntryView,
> {
    if exists|i: int| 0 <= i < files.len() && files[i].0 == key {
        Some(files[choose|i: int| 0 <= i < files.len() && files[i].0 == key].1)
    } else {
        None
    }
}

/// Whether every entry is indexed under the text of its own path, as the
/// library always indexes them.
pub open spec fn keys_are_paths(files: Seq<(Seq<char>, OfflineEntryView)>) -> bool {
    forall|k: Seq<char>|
        #[trigger] lookup(files, k) matches Some(e) ==> path_text(e.path) == k
}

/// Whether an entry is cleared: its working file is back and it lies at or
/// under one of the given paths.
pub open spec fn clears(
    entry: OfflineEntryView,
    paths: Seq<Seq<Seq<char>>>,
    restored: bool,
) -> bool {
    restored && exists|p: int| 0 <= p < paths.len() && path_has_prefix(entry.path, paths[p])
}

/// The index entries that stay (`keep`) or are cleared (`!keep`), in order.
pub open spec fn partition_cleared(
    files: Seq<(Seq<char>, OfflineEntryView)>,
    paths: Seq<Seq<Seq<char>>>,
    restored: Seq<bool>,
    keep: bool,
) -> Seq<(Seq<char>, OfflineEntryView)>
    decreases files.len(),
{
    if files.len() == 0 {
        Seq::empty()
    } else {
        let prev = partition_cleared(files.drop_last(), paths, restored.drop_last(), keep);
        if clears(files.last().1, paths, restored[files.len() - 1]) != keep {
            prev.push(files.last())
        } else {
            prev
        }
    }
}

pub open spec fn entries_view(v: Seq<OfflineEntry>) -> Seq<OfflineEntryView> {
    v.map_values(|e: OfflineEntry| e@)
}

pub open spec fn values_of(files: Seq<(Seq<char>, OfflineEntryView)>) -> Seq<OfflineEntryView> {
    files.map_values(|p: (Seq<char>, OfflineEntryView)| p.1)
}

impl OfflineIndex {
    #[verifier::type_invariant]
    spec fn keys_ordered(self) -> bool {
        keys_increasing(self@)
    }

    /// The index of a repository with no offline file.
    pub fn new() -> (index: OfflineIndex)
        ensures
            index@ == Seq::<(Seq<char>, OfflineEntryView)>::empty(),
            keys_are_paths(index@),
    {
        let index = OfflineIndex { files: Vec::new() };
        assert(index@ =~= Seq::<(Seq<char>, OfflineEntryView)>::empty());
        index
    }

    /// The index holding these entries, when their keys are in strictly
    /// increasing order.
    pub fn from_sorted(files: Vec<(String, OfflineEntry)>) -> (index: Option<OfflineIndex>)
        ensures
            index is Some <==> keys_increasing(files@.map_values(|p: (String, OfflineEntry)| pair_view(p))),
            index matches Some(ix) ==> ix@ == files@.map_values(|p: (String, OfflineEntry)| pair_view(p)),
    {
        let ghost view = files@.map_values(|p: (String, OfflineEntry)| pair_view(p));
        let mut i: usize = 1;
        while i < files.len()
            invariant
                1 <= i,
                view == files@.map_values(|p: (String, OfflineEntry)| pair_view(p)),
                forall|a: int, b: int| 0 <= a < b < i && b < files.len() ==> text_lt(view[a].0, view[b].0),
            decreases files.len() - i,
        {
            if !crate::paths::text_precedes(files[i - 1].0.as_str(), files[i].0.as_str()) {
                proof {
                    assert(!text_lt(view[i - 1].0, view[i as int].0));
                }
                return None;
            }
            proof {
                assert forall|a: int, b: int| 0 <= a < b < i + 1 && b < files.len() implies text_lt(view[a].0, view[b].0) by {
                    if b == i && a < i - 1 {
                        crate::paths::lemma_text_lt_transitive(view[a].0, view[i - 1].0, view[b].0);
                    }
                }
            }
            i = i + 1;
        }
        Some(OfflineIndex { files })
    }

    /// The entries with their keys, in key order.
    pub fn entries(&self) -> (files: &Vec<(String, OfflineEntry)>)
        ensures
            files@.map_values(|p: (String, OfflineEntry)| pair_view(p)) == self@,
            keys_increasing(self@),
    {
        proof {
            use_type_invariant(self);
        }
        &self.files
    }

    /// The position of `key`, if it is in the index.
    fn position(&self, key: &String) -> (pos: Option<usize>)
        ensures
            pos matches Some(i) ==> i < self@.len() && self@[i as int].0 == key@,
            pos is None ==> forall|i: int| 0 <= i < self@.len() ==> self@[i].0 != key@,
    {
        let mut i: usize = 0;
        while i < self.files.len()
            invariant
                i <= self.files.len(),
                forall|j: int| 0 <= j < i ==> self@[j].0 != key@,
            decreases self.files.len() - i,
        {
            if self.files[i].0 == *key {
                return Some(i);
            }
            i = i + 1;
        }
        None
    }

    /// Whether `path` is offline with content of hash `hash`.
    pub fn is_current(&self, path: &RepoPath, hash: &str) -> (r: bool)
        ensures
            r == (lookup(self@, path_text(path@)) matches Some(e) && e.hash == hash@),
    {
        proof {
            use_type_invariant(self);
        }
        let key = path_key(path);
        match self.position(&key) {
            Some(i) => {
                proof {
                    assert forall|j: int| 0 <= j < self@.len() && self@[j].0 == key@ implies j == i by {
                        if j < i {
                            assert(text_lt(self@[j].0, self@[i as int].0));
                            crate::paths::lemma_text_lt_irreflexive(key@);
                        } else if j > i {
                            assert(text_lt(self@[i as int].0, self@[j].0));
                            crate::paths::lemma_text_lt_irreflexive(key@);
                        }
                    }
                    let c = choose|j: int| 0 <= j < self@.len() && self@[j].0 == path_text(path@);
                    assert(c == i);
                }
                self.files[i].1.hash == hash.to_owned()
            },
            None => false,
        }
    }
}

pub open spec fn entry_option_view(e: Option<OfflineEntry>) -> Option<OfflineEntryView> {
    match e {
        Some(e) => Some(e@),
        None => None,
    }
}

/// In an index with increasing keys, each key sits at one position.
pub proof fn lemma_lookup_at(files: Seq<(Seq<char>, OfflineEntryView)>, i: int)
    requires
        keys_increasing(files),
        0 <= i < files.len(),
    ensures
        lookup(files, files[i].0) == Some(files[i].1),
{
    let c = choose|j: int| 0 <= j < files.len() && files[j].0 == files[i].0;
    if c < i {
        assert(text_lt(files[c].0, files[i].0));
        crate::paths::lemma_text_lt_irreflexive(files[i].0);
    } else if c > i {
        assert(text_lt(files[i].0, files[c].0));
        crate::paths::lemma_text_lt_irreflexive(files[i].0);
    }
}

impl OfflineIndex {
    /// Records `entry` under `key`, replacing and returning what was there.
    pub fn insert(&mut self, key: String, entry: OfflineEntry) -> (previous: Option<OfflineEntry>)
        ensures
            forall|k: Seq<char>|
                #[trigger] lookup(final(self)@, k) == if k == key@ {
                    Some(entry@)
                } else {
                    lookup(old(self)@, k)
                },
            entry_option_view(previous) == lookup(old(self)@, key@),
            keys_increasing(final(self)@),
            keys_are_paths(old(self)@) && path_text(entry@.path) == key@ ==> keys_are_paths(
                final(self)@,
            ),
    {
        let previous = self.insert_entry(key, entry);
        proof {
            use_type_invariant(&*self);
        }
        previous
    }

    fn insert_entry(&mut self, key: String, entry: OfflineEntry) -> (previous: Option<OfflineEntry>)
        ensures
            forall|k: Seq<char>|
                #[trigger] lookup(final(self)@, k) == if k == key@ {
                    Some(entry@)
                } else {
                    lookup(old(self)@, k)
                },
            entry_option_view(previous) == lookup(old(self)@, key@),
    {
        proof {
            use_type_invariant(&*self);
        }
        let ghost old_view = self@;
        let ghost key_view = key@;
        let ghost entry_view = entry@;
        let mut p: usize = 0;
        while p < self.files.len() && crate::paths::text_precedes(
            self.files[p].0.as_str(),
            key.as_str(),
        )
            invariant
                p <= self.files.len(),
                old_view == self@,
                keys_increasing(old_view),
                forall|q: int| 0 <= q < p ==> text_lt(old_view[q].0, key@),
            decreases self.files.len() - p,
        {
            p = p + 1;
        }
        if p < self.files.len() && self.files[p].0 == key {
            let mut files: Vec<(String, OfflineEntry)> = Vec::new();
            std::mem::swap(&mut files, &mut self.files);
            let (old_key, old_entry) = files.remove(p);
            files.insert(p, (old_key, entry));
            proof {
                let new_view = files@.map_values(|x: (String, OfflineEntry)| pair_view(x));
                assert(new_view =~= old_view.update(p as int, (key_view, entry_view)));
                assert forall|k: Seq<char>| #[trigger] lookup(new_view, k) == if k == key_view {
                    Some(entry_view)
                } else {
                    lookup(old_view, k)
                } by {
                    lemma_lookup_at(old_view, p as int);
                    if k == key_view {
                        lemma_lookup_at(new_view, p as int);
                    } else if exists|i: int| 0 <= i < old_view.len() && old_view[i].0 == k {
                        let i = choose|i: int| 0 <= i < old_view.len() && old_view[i].0 == k;
                        lemma_lookup_at(old_view, i);
                        lemma_lookup_at(new_view, i);
                    } else {
                        assert(!exists|i: int| 0 <= i < new_view.len() && new_view[i].0 == k);
                    }
                }
            }
            self.files = files;
            Some(old_entry)
        } else {
            let mut files: Vec<(String, OfflineEntry)> = Vec::new();
            std::mem::swap(&mut files, &mut self.files);
            files.insert(p, (key, entry));
            proof {
                let new_view = files@.map_values(|x: (String, OfflineEntry)| pair_view(x));
                assert(new_view =~= old_view.insert(p as int, (key_view, entry_view)));
                if p < old_view.len() {
                    assert(!text_lt(old_view[p as int].0, key_view));
                    assert(old_view[p as int].0 != key_view);
                    crate::paths::lemma_text_lt_total(old_view[p as int].0, key_view);
                }
                assert forall|a: int, b: int| 0 <= a < b < new_view.len() implies text_lt(
                    new_view[a].0,
                    new_view[b].0,
                ) by {
                    if b < p {
                    } else if b == p {
                    } else if a < p {
                        assert(text_lt(key_view, old_view[p as int].0));
                        if b - 1 > p {
                            crate::paths::lemma_text_lt_transitive(
                                key_view,
                                old_view[p as int].0,
                                old_view[b - 1].0,
                            );
                        }
                        crate::paths::lemma_text_lt_transitive(new_view[a].0, key_view, new_view[b].0);
                    } else if a == p {
                        if b - 1 > p {
                            crate::paths::lemma_text_lt_transitive(
                                key_view,
                                old_view[p as int].0,
                                old_view[b - 1].0,
                            );
                        }
                    } else {
                    }
                }
                assert(forall|i: int| 0 <= i < old_view.len() ==> old_view[i].0 != key_view) by {
                    assert forall|i: int| 0 <= i < old_view.len() implies old_view[i].0 != key_view by {
                        if i < p {
                            crate::paths::lemma_text_lt_irreflexive(key_view);
                        } else if i > p {
                            crate::paths::lemma_text_lt_transitive(key_view, old_view[p as int].0, old_view[i].0);
                            crate::paths::lemma_text_lt_irreflexive(key_view);
                        }
                    }
                }
                assert forall|k: Seq<char>| #[trigger] lookup(new_view, k) == if k == key_view {
                    Some(entry_view)
                } else {
                    lookup(old_view, k)
                } by {
                    if k == key_view {
                        lemma_lookup_at(new_view, p as int);
                    } else if exists|i: int| 0 <= i < old_view.len() && old_view[i].0 == k {
                        let i = choose|i: int| 0 <= i < old_view.len() && old_view[i].0 == k;
                        lemma_lookup_at(old_view, i);
                        if i < p {
                            lemma_lookup_at(new_view, i);
                        } else {
                            lemma_lookup_at(new_view, i + 1);
                        }
                    } else {
                        assert(!exists|i: int| 0 <= i < new_view.len() && new_view[i].0 == k);
                    }
                }
            }
            self.files = files;
            None
        }
    }

    /// Removes and returns the entry under `key`.
    pub fn remove(&mut self, key: &String) -> (removed: Option<OfflineEntry>)
        ensures
            forall|k: Seq<char>|
                #[trigger] lookup(final(self)@, k) == if k == key@ {
                    None
                } else {
                    lookup(old(self)@, k)
                },
            entry_option_view(removed) == lookup(old(self)@, key@),
            keys_increasing(final(self)@),
            keys_are_paths(old(self)@) ==> keys_are_paths(final(self)@),
    {
        let removed = self.remove_entry(key);
        proof {
            use_type_invariant(&*self);
        }
        removed
    }

    fn remove_entry(&mut self, key: &String) -> (removed: Option<OfflineEntry>)
        ensures
            forall|k: Seq<char>|
                #[trigger] lookup(final(self)@, k) == if k == key@ {
                    None
                } else {
                    lookup(old(self)@, k)
                },
            entry_option_view(removed) == lookup(old(self)@, key@),
    {
        proof {
            use_type_invariant(&*self);
        }
        let ghost old_view = self@;
        match self.position(key) {
            None => {
                proof {
                    assert forall|k: Seq<char>| #[trigger] lookup(old_view, k) == if k == key@ {
                        None
                    } else {
                        lookup(old_view, k)
                    } by {}
                }
                None
            },
            Some(p) => {
                let mut files: Vec<(String, OfflineEntry)> = Vec::new();
                std::mem::swap(&mut files, &mut self.files);
                let (_old_key, old_entry) = files.remove(p);
                proof {
                    let new_view = files@.map_values(|x: (String, OfflineEntry)| pair_view(x));
                    assert(new_view =~= old_view.remove(p as int));
                    lemma_lookup_at(old_view, p as int);
                    assert forall|k: Seq<char>| #[trigger] lookup(new_view, k) == if k == key@ {
                        None
                    } else {
                        lookup(old_view, k)
                    } by {
                        if k == key@ {
                            assert forall|i: int| 0 <= i < new_view.len() implies new_view[i].0 != k by {
                                if i < p {
                                    assert(text_lt(old_view[i].0, old_view[p as int].0));
                                    crate::paths::lemma_text_lt_irreflexive(k);
                                } else {
                                    assert(text_lt(old_view[p as int].0, old_view[i + 1].0));
                                    crate::paths::lemma_text_lt_irreflexive(k);
                                }
                            }
                        } else if exists|i: int| 0 <= i < old_view.len() && old_view[i].0 == k {
                            let i = choose|i: int| 0 <= i < old_view.len() && old_view[i].0 == k;
                            lemma_lookup_at(old_view, i);
                            if i < p {
                                lemma_lookup_at(new_view, i);
                            } else {
                                lemma_lookup_at(new_view, i - 1);
                            }
                        } else {
                            assert(!exists|i: int| 0 <= i < new_view.len() && new_view[i].0 == k);
                        }
                    }
                }
                self.files = files;
                Some(old_entry)
            },
        }
    }
}

/// The offline entries of an index, in key order.
pub fn list(index: OfflineIndex) -> (entries: Vec<OfflineEntry>)
    ensures
        entries_view(entries@) == values_of(index@),
        keys_increasing(index@),
        keys_are_paths(index@) ==> forall|i: int, j: int|
            0 <= i < j < entries.len() ==> text_lt(
                path_text((#[trigger] entries@[i])@.path),
                path_text((#[trigger] entries@[j])@.path),
            ),
{
    proof {
        use_type_invariant(&index);
    }
    let ghost iv = index@;
    let mut files = index.files;
    let ghost all = files@;
    let mut out: Vec<OfflineEntry> = Vec::new();
    let ghost mut k: int = 0;
    while files.len() > 0
        invariant
            0 <= k <= all.len(),
            files@ == all.skip(k),
            entries_view(out@) == all.take(k).map_values(|p: (String, OfflineEntry)| p.1@),
        decreases files.len(),
    {
        let (_key, entry) = files.remove(0);
        proof {
            assert(all[k].1 == entry);
            assert(all.take(k + 1) =~= all.take(k).push(all[k]));
            assert(all.skip(k + 1) =~= all.skip(k).remove(0));
        }
        let ghost before = entries_view(out@);
        out.push(entry);
        proof {
            assert(entries_view(out@) =~= before.push(entry@));
            assert(all.take(k + 1).map_values(|p: (String, OfflineEntry)| p.1@) =~= all.take(
                k,
            ).map_values(|p: (String, OfflineEntry)| p.1@).push(entry@));
            k = k + 1;
        }
    }
    proof {
        assert(all.take(k) =~= all);
        assert(values_of(index@) =~= all.map_values(|p: (String, OfflineEntry)| p.1@));
        if keys_are_paths(iv) {
            assert forall|i: int, j: int| 0 <= i < j < out.len() implies text_lt(
                path_text((#[trigger] out@[i])@.path),
                path_text((#[trigger] out@[j])@.path),
            ) by {
                assert(entries_view(out@)[i] == out@[i]@ && entries_view(out@)[j] == out@[j]@);
                assert(values_of(iv)[i] == iv[i].1 && values_of(iv)[j] == iv[j].1);
                lemma_lookup_at(iv, i);
                lemma_lookup_at(iv, j);
            }
        }
    }
    out
}

pub open spec fn paths_view(paths: Seq<RepoPath>) -> Seq<Seq<Seq<char>>> {
    paths.map_values(|p: RepoPath| p@)
}

/// Whether `path` is at or under one of `paths`.
pub fn under_any(path: &RepoPath, paths: &Vec<RepoPath>) -> (r: bool)
    ensures
        r == exists|p: int| 0 <= p < paths.len() && path_has_prefix(path@, paths@[p]@),
{
    let mut i: usize = 0;
    while i < paths.len()
        invariant
            i <= paths.len(),
            forall|p: int| 0 <= p < i ==> !path_has_prefix(path@, paths@[p]@),
        decreases paths.len() - i,
    {
        if path.same_as(&paths[i]) || path.starts_with(&paths[i]) {
            proof {
                assert(path@.take(path@.len() as int) =~= path@);
                assert(path_has_prefix(path@, paths@[i as int]@));
            }
            return true;
        }
        i = i + 1;
    }
    false
}

proof fn lemma_partition_elem(
    files: Seq<(Seq<char>, OfflineEntryView)>,
    paths: Seq<Seq<Seq<char>>>,
    restored: Seq<bool>,
    keep: bool,
    i: int,
)
    requires
        0 <= i < partition_cleared(files, paths, restored, keep).len(),
    ensures
        exists|m: int|
            0 <= m < files.len() && files[m] == partition_cleared(files, paths, restored, keep)[i],
    decreases files.len(),
{
    let prev = partition_cleared(files.drop_last(), paths, restored.drop_last(), keep);
    let part = partition_cleared(files, paths, restored, keep);
    if i < prev.len() {
        assert(part[i] == prev[i]);
        lemma_partition_elem(files.drop_last(), paths, restored.drop_last(), keep, i);
        let m = choose|m: int| 0 <= m < files.drop_last().len() && files.drop_last()[m] == prev[i];
        assert(files[m] == files.drop_last()[m]);
    } else {
        assert(part[i] == files.last());
        assert(files[files.len() - 1] == files.last());
    }
}

/// Clearing keeps every entry under the text of its own path.
proof fn lemma_partition_keeps_paths(
    files: Seq<(Seq<char>, OfflineEntryView)>,
    paths: Seq<Seq<Seq<char>>>,
    restored: Seq<bool>,
    keep: bool,
)
    requires
        keys_increasing(files),
        keys_are_paths(files),
    ensures
        keys_are_paths(partition_cleared(files, paths, restored, keep)),
{
    let part = partition_cleared(files, paths, restored, keep);
    assert forall|k: Seq<char>| #[trigger] lookup(part, k) is Some implies path_text(
        lookup(part, k)->0.path,
    ) == k by {
        let c = choose|c: int| 0 <= c < part.len() && part[c].0 == k;
        lemma_partition_elem(files, paths, restored, keep, c);
        let m = choose|m: int| 0 <= m < files.len() && files[m] == part[c];
        lemma_lookup_at(files, m);
        assert(lookup(files, k) == Some(files[m].1));
    }
}

/// Takes out of the index the entries at or under one of `paths` whose
/// working file is back (`restored[i]` tells it of the `i`-th entry), and
/// returns them in key order.
pub fn clear_restored_paths(
    index: &mut OfflineIndex,
    paths: &Vec<RepoPath>,
    restored: &Vec<bool>,
) -> (cleared: Vec<OfflineEntry>)
    requires
        restored.len() == old(index)@.len(),
    ensures
        final(index)@ == partition_cleared(old(index)@, paths_view(paths@), restored@, true),
        entries_view(cleared@) == values_of(
            partition_cleared(old(index)@, paths_view(paths@), restored@, false),
        ),
        keys_are_paths(old(index)@) ==> keys_are_paths(final(index)@),
{
    proof {
        use_type_invariant(&*index);
        if keys_are_paths(index@) {
            lemma_partition_keeps_paths(index@, paths_view(paths@), restored@, true);
        }
    }
    let ghost all = index@;
    let ghost pv = paths_view(paths@);
    let mut taken: Vec<(String, OfflineEntry)> = Vec::new();
    std::mem::swap(&mut taken, &mut index.files);
    let ghost taken_all = taken@;
    let mut kept: Vec<(String, OfflineEntry)> = Vec::new();
    let mut cleared: Vec<OfflineEntry> = Vec::new();
    let mut i: usize = 0;
    proof {
        assert(all.take(0) =~= Seq::<(Seq<char>, OfflineEntryView)>::empty());
        assert(restored@.take(0) =~= Seq::<bool>::empty());
        assert(taken_all.skip(0) =~= taken_all);
    }
    while taken.len() > 0
        invariant
            i <= all.len(),
            all.len() == restored.len(),
            all == taken_all.map_values(|x: (String, OfflineEntry)| pair_view(x)),
            keys_increasing(all),
            pv == paths_view(paths@),
            taken@ == taken_all.skip(i as int),
            kept@.map_values(|x: (String, OfflineEntry)| pair_view(x)) == partition_cleared(
                all.take(i as int),
                pv,
                restored@.take(i as int),
                true,
            ),
            entries_view(cleared@) == values_of(
                partition_cleared(all.take(i as int), pv, restored@.take(i as int), false),
            ),
            keys_increasing(kept@.map_values(|x: (String, OfflineEntry)| pair_view(x))),
            forall|a: int, q: int|
                0 <= a < kept.len() && i <= q < all.len() ==> text_lt(
                    pair_view(#[trigger] kept@[a]).0,
                    #[trigger] all[q].0,
                ),
        decreases taken.len(),
    {
        let (key, entry) = taken.remove(0);
        let ghost item = (key@, entry@);
        let clear = restored[i] && under_any(&entry.path, paths);
        proof {
            assert(taken_all[i as int] == (key, entry));
            assert(all[i as int] == item);
            assert(taken_all.skip(i + 1) =~= taken_all.skip(i as int).remove(0));
            assert(all.take(i + 1).drop_last() =~= all.take(i as int));
            assert(restored@.take(i + 1).drop_last() =~= restored@.take(i as int));
            assert(restored@.take(i + 1)[i as int] == restored@[i as int]);
            assert(clear == clears(entry@, pv, restored@[i as int])) by {
                if exists|p: int| 0 <= p < paths.len() && path_has_prefix(entry.path@, paths@[p]@) {
                    let p = choose|p: int| 0 <= p < paths.len() && path_has_prefix(entry.path@, paths@[p]@);
                    assert(pv[p] == paths@[p]@);
                }
                if exists|p: int| 0 <= p < pv.len() && path_has_prefix(entry@.path, pv[p]) {
                    let p = choose|p: int| 0 <= p < pv.len() && path_has_prefix(entry@.path, pv[p]);
                    assert(pv[p] == paths@[p]@);
                }
            }
        }
        if clear {
            let ghost before = entries_view(cleared@);
            cleared.push(entry);
            proof {
                assert(entries_view(cleared@) =~= before.push(entry@));
                assert(values_of(partition_cleared(all.take(i + 1), pv, restored@.take(i + 1), false))
                    =~= values_of(partition_cleared(all.take(i as int), pv, restored@.take(i as int), false)).push(entry@));
            }
        } else {
            let ghost before = kept@.map_values(|x: (String, OfflineEntry)| pair_view(x));
            kept.push((key, entry));
            proof {
                let now = kept@.map_values(|x: (String, OfflineEntry)| pair_view(x));
                assert(now =~= before.push(item));
                assert forall|a: int, b: int| 0 <= a < b < now.len() implies text_lt(now[a].0, now[b].0) by {
                    if b == now.len() - 1 {
                        assert(now[a] == pair_view(kept@[a]));
                        assert(text_lt(pair_view(kept@[a]).0, all[i as int].0));
                        assert(now[b] == item);
                    } else {
                        assert(now[a] == before[a] && now[b] == before[b]);
                        assert(keys_increasing(before));
                        assert(text_lt(before[a].0, before[b].0));
                    }
                }
            }
        }
        proof {
            assert forall|a: int, q: int|
                0 <= a < kept.len() && i + 1 <= q < all.len() implies text_lt(
                    pair_view(#[trigger] kept@[a]).0,
                    #[trigger] all[q].0,
                ) by {
                if !clear && a == kept.len() - 1 {
                    assert(pair_view(kept@[a]) == item);
                    assert(text_lt(all[i as int].0, all[q].0));
                } else {
                    assert(text_lt(pair_view(kept@[a]).0, all[i as int].0) || true);
                }
            }
        }
        i = i + 1;
    }
    proof {
        assert(all.take(i as int) =~= all);
        assert(restored@.take(i as int) =~= restored@);
    }
    index.files = kept;
    cleared
}

/// Whether `path` is recorded offline with content of hash `hash`.
pub open spec fn is_current_spec(
    files: Seq<(Seq<char>, OfflineEntryView)>,
    path: Seq<Seq<char>>,
    hash: Seq<char>,
) -> bool {
    lookup(files, path_text(path)) matches Some(e) && e.hash == hash
}

/// Whether a tracked file may be dropped offline: its content must be in the
/// version store, its working file must be unmodified, and a missing working
/// file must already be offline at this version.
pub fn check_drop(
    index: &OfflineIndex,
    file_path: &RepoPath,
    hash: &str,
    version_available: bool,
    working_exists: bool,
    working_modified: bool,
) -> (result: Result<(), OxenError>)
    ensures
        !version_available ==> (result matches Err(OxenError::VersionUnavailable { path, hash: h })
            && path@ == file_path@ && h@ == hash@),
        version_available && working_exists && working_modified ==> (result matches Err(
            OxenError::RefusingToDropModified { path },
        ) && path@ == file_path@),
        version_available && !working_exists && !is_current_spec(index@, file_path@, hash@) ==> (
        result matches Err(OxenError::MissingNonOfflineFile { path }) && path@ == file_path@),
        result is Ok <==> version_available && (if working_exists {
            !working_modified
        } else {
            is_current_spec(index@, file_path@, hash@)
        }),
{
    if !version_available {
        return Err(
            OxenError::VersionUnavailable { path: file_path.duplicate(), hash: hash.to_owned() },
        );
    }
    if working_exists {
        if working_modified {
            return Err(OxenError::RefusingToDropModified { path: file_path.duplicate() });
        }
    } else if !index.is_current(file_path, hash) {
        return Err(OxenError::MissingNonOfflineFile { path: file_path.duplicate() });
    }
    Ok(())
}

/// Records a tracked file as offline; returns its entry and what the index
/// held under its key before.
pub fn mark_offline(
    index: &mut OfflineIndex,
    file_path: &RepoPath,
    hash: &str,
    commit_id: &str,
    num_bytes: u64,
) -> (marked: (OfflineEntry, Option<OfflineEntry>))
    ensures
        marked.0@ == (OfflineEntryView {
            path: file_path@,
            hash: hash@,
            commit_id: commit_id@,
            num_bytes,
        }),
        entry_option_view(marked.1) == lookup(old(index)@, path_text(file_path@)),
        forall|k: Seq<char>|
            #[trigger] lookup(final(index)@, k) == if k == path_text(file_path@) {
                Some(marked.0@)
            } else {
                lookup(old(index)@, k)
            },
        keys_are_paths(old(index)@) ==> keys_are_paths(final(index)@),
{
    let entry = OfflineEntry {
        path: file_path.duplicate(),
        hash: hash.to_owned(),
        commit_id: commit_id.to_owned(),
        num_bytes,
    };
    let key = path_key(file_path);
    let previous = index.insert(key, entry.duplicate());
    (entry, previous)
}

/// Puts back what the index held under the key of `file_path` before it was
/// marked offline.
pub fn undo_mark(index: &mut OfflineIndex, file_path: &RepoPath, previous: Option<OfflineEntry>)
    ensures
        forall|k: Seq<char>|
            #[trigger] lookup(final(index)@, k) == if k == path_text(file_path@) {
                entry_option_view(previous)
            } else {
                lookup(old(index)@, k)
            },
        keys_are_paths(old(index)@) && (previous matches Some(p) ==> path_text(p@.path)
            == path_text(file_path@)) ==> keys_are_paths(final(index)@),
{
    let key = path_key(file_path);
    match previous {
        Some(previous) => {
            let _ = index.insert(key, previous);
        },
        None => {
            let _ = index.remove(&key);
        },
    }
}

/// Whether a tracked file may be restored from the version store: a modified
/// working file is never overwritten.
pub fn check_restore(file_path: &RepoPath, working_exists: bool, working_modified: bool) -> (result:
    Result<(), OxenError>)
    ensures
        working_exists && working_modified ==> (result matches Err(
            OxenError::RefusingToOverwriteModified { path },
        ) && path@ == file_path@),
        result is Ok <==> !(working_exists && working_modified),
{
    if working_exists && working_modified {
        return Err(OxenError::RefusingToOverwriteModified { path: file_path.duplicate() });
    }
    Ok(())
}

/// Takes a restored file out of the index: its recorded entry, or else an
/// entry made from its committed node.
pub fn take_restored_entry(
    index: &mut OfflineIndex,
    file_path: &RepoPath,
    file_node: &crate::tree::FileNode,
    commit_id: &str,
) -> (entry: OfflineEntry)
    ensures
        entry@ == match lookup(old(index)@, path_text(file_path@)) {
            Some(e) => e,
            None => OfflineEntryView {
                path: file_path@,
                hash: file_node.hash@,
                commit_id: commit_id@,
                num_bytes: file_node.num_bytes,
            },
        },
        forall|k: Seq<char>|
            #[trigger] lookup(final(index)@, k) == if k == path_text(file_path@) {
                None
            } else {
                lookup(old(index)@, k)
            },
        keys_are_paths(old(index)@) ==> keys_are_paths(final(index)@),
{
    let key = path_key(file_path);
    match index.remove(&key) {
        Some(entry) => entry,
        None => OfflineEntry {
            path: file_path.duplicate(),
            hash: file_node.hash.clone(),
            commit_id: commit_id.to_owned(),
            num_bytes: file_node.num_bytes,
        },
    }
}

/// Undoing a mark puts the index back as it was: every key looks up what it
/// looked up before the file was marked offline.
pub proof fn lemma_undo_mark_restores(
    before: Seq<(Seq<char>, OfflineEntryView)>,
    marked: Seq<(Seq<char>, OfflineEntryView)>,
    after: Seq<(Seq<char>, OfflineEntryView)>,
    key: Seq<char>,
    entry: OfflineEntryView,
    previous: Option<OfflineEntryView>,
)
    requires
        previous == lookup(before, key),
        forall|k: Seq<char>|
            #[trigger] lookup(marked, k) == if k == key {
                Some(entry)
            } else {
                lookup(before, k)
            },
        forall|k: Seq<char>|
            #[trigger] lookup(after, k) == if k == key {
                previous
            } else {
                lookup(marked, k)
            },
    ensures
        forall|k: Seq<char>| #[trigger] lookup(after, k) == lookup(before, k),
{
    assert forall|k: Seq<char>| #[trigger] lookup(after, k) == lookup(before, k) by {
        if k != key {
            assert(lookup(marked, k) == lookup(before, k));
        }
    }
}

/// Dropping a file and then restoring it gives back the entry that was
/// recorded, and leaves every key of the index as it was before the drop when
/// the file was not offline then.
pub proof fn lemma_drop_then_restore(
    before: Seq<(Seq<char>, OfflineEntryView)>,
    marked: Seq<(Seq<char>, OfflineEntryView)>,
    after: Seq<(Seq<char>, OfflineEntryView)>,
    key: Seq<char>,
    entry: OfflineEntryView,
    restored: OfflineEntryView,
    fallback: OfflineEntryView,
)
    requires
        lookup(before, key) is None,
        forall|k: Seq<char>|
            #[trigger] lookup(marked, k) == if k == key {
                Some(entry)
            } else {
                lookup(before, k)
            },
        restored == match lookup(marked, key) {
            Some(e) => e,
            None => fallback,
        },
        forall|k: Seq<char>|
            #[trigger] lookup(after, k) == if k == key {
                None
            } else {
                lookup(marked, k)
            },
    ensures
        restored == entry,
        forall|k: Seq<char>| #[trigger] lookup(after, k) == lookup(before, k),
{
    assert(lookup(marked, key) == Some(entry));
    assert forall|k: Seq<char>| #[trigger] lookup(after, k) == lookup(before, k) by {
        if k != key {
            assert(lookup(marked, k) == lookup(before, k));
        }
    }
}

/// Clearing restored paths loses no entry: every entry of the index either
/// stays or is cleared, never both.
pub proof fn lemma_partition_cleared_complete(
    files: Seq<(Seq<char>, OfflineEntryView)>,
    paths: Seq<Seq<Seq<char>>>,
    restored: Seq<bool>,
)
    requires
        restored.len() == files.len(),
    ensures
        partition_cleared(files, paths, restored, true).len() + partition_cleared(
            files,
            paths,
            restored,
            false,
        ).len() == files.len(),
    decreases files.len(),
{
    if files.len() > 0 {
        lemma_partition_cleared_complete(files.drop_last(), paths, restored.drop_last());
    }
}

/// The restored flags of index entries, each given by whether its working
/// file is back.
pub open spec fn flags_of(
    files: Seq<(Seq<char>, OfflineEntryView)>,
    restored: spec_fn(OfflineEntryView) -> bool,
) -> Seq<bool> {
    files.map_values(|p: (Seq<char>, OfflineEntryView)| restored(p.1))
}

/// Clearing the same paths again, with the working tree as it was, clears
/// nothing and leaves the index as the first clearing left it.
pub proof fn lemma_clear_twice_clears_nothing(
    files: Seq<(Seq<char>, OfflineEntryView)>,
    paths: Seq<Seq<Seq<char>>>,
    restored: spec_fn(OfflineEntryView) -> bool,
)
    ensures
        ({
            let kept = partition_cleared(files, paths, flags_of(files, restored), true);
            &&& partition_cleared(kept, paths, flags_of(kept, restored), false).len() == 0
            &&& partition_cleared(kept, paths, flags_of(kept, restored), true) == kept
        }),
    decreases files.len(),
{
    if files.len() > 0 {
        let rest = files.drop_last();
        lemma_clear_twice_clears_nothing(rest, paths, restored);
        assert(flags_of(files, restored).drop_last() =~= flags_of(rest, restored));
        let kept_rest = partition_cleared(rest, paths, flags_of(rest, restored), true);
        let kept = partition_cleared(files, paths, flags_of(files, restored), true);
        let last = files.last();
        if !clears(last.1, paths, restored(last.1)) {
            assert(kept == kept_rest.push(last));
            assert(kept.drop_last() =~= kept_rest);
            assert(flags_of(kept, restored).drop_last() =~= flags_of(kept_rest, restored));
            assert(flags_of(kept, restored)[kept.len() - 1] == restored(last.1));
        } else {
            assert(kept == kept_rest);
        }
    }
}

/// Dropping a file that is already offline at this version is allowed with
/// its working file gone, and records the same entry again: the index does
/// not change.
pub proof fn lemma_drop_twice(
    marked: Seq<(Seq<char>, OfflineEntryView)>,
    again: Seq<(Seq<char>, OfflineEntryView)>,
    path: Seq<Seq<char>>,
    entry: OfflineEntryView,
)
    requires
        entry.path == path,
        lookup(marked, path_text(path)) == Some(entry),
        forall|k: Seq<char>|
            #[trigger] lookup(again, k) == if k == path_text(path) {
                Some(entry)
            } else {
                lookup(marked, k)
            },
    ensures
        is_current_spec(marked, path, entry.hash),
        forall|k: Seq<char>| #[trigger] lookup(again, k) == lookup(marked, k),
{
}

/// Dropping several files one after another (`marks[i + 1]` after the
/// `i`-th, none offline before) and then restoring them one after another
/// (`takes[i + 1]` after the `i`-th) gives back, at each restore, the entry
/// recorded when that file was dropped, and leaves every key of the index as
/// it was before the drops.
pub proof fn lemma_drop_all_then_restore_all(
    marks: Seq<Seq<(Seq<char>, OfflineEntryView)>>,
    takes: Seq<Seq<(Seq<char>, OfflineEntryView)>>,
    keys: Seq<Seq<char>>,
    entries: Seq<OfflineEntryView>,
)
    requires
        keys.len() == entries.len(),
        marks.len() == keys.len() + 1,
        takes.len() == keys.len() + 1,
        keys.no_duplicates(),
        forall|j: int| 0 <= j < keys.len() ==> lookup(marks[0], #[trigger] keys[j]) is None,
        forall|i: int, k: Seq<char>|
            0 < i <= keys.len() ==> #[trigger] lookup(marks[i], k) == if k == keys[i - 1] {
                Some(entries[i - 1])
            } else {
                lookup(marks[i - 1], k)
            },
        takes[0] == marks[keys.len() as int],
        forall|i: int, k: Seq<char>|
            0 < i <= keys.len() ==> #[trigger] lookup(takes[i], k) == if k == keys[i - 1] {
                None
            } else {
                lookup(takes[i - 1], k)
            },
    ensures
        forall|i: int| 0 <= i < keys.len() ==> #[trigger] lookup(takes[i], keys[i]) == Some(entries[i]),
        forall|k: Seq<char>| #[trigger] lookup(takes[keys.len() as int], k) == lookup(marks[0], k),
{
    let n = keys.len() as int;
    lemma_marks_state(marks, keys, entries, n);
    assert forall|i: int| 0 <= i < n implies #[trigger] lookup(takes[i], keys[i]) == Some(entries[i]) by {
        lemma_takes_state(marks, takes, keys, entries, i);
    }
    lemma_takes_state(marks, takes, keys, entries, n);
    assert forall|k: Seq<char>| #[trigger] lookup(takes[n], k) == lookup(marks[0], k) by {
        if keys.contains(k) {
            let j = choose|j: int| 0 <= j < n && keys[j] == k;
            assert(lookup(takes[n], keys[j]) is None);
        }
    }
}

proof fn lemma_marks_state(
    marks: Seq<Seq<(Seq<char>, OfflineEntryView)>>,
    keys: Seq<Seq<char>>,
    entries: Seq<OfflineEntryView>,
    i: int,
)
    requires
        keys.len() == entries.len(),
        marks.len() == keys.len() + 1,
        keys.no_duplicates(),
        0 <= i <= keys.len(),
        forall|j: int| 0 <= j < keys.len() ==> lookup(marks[0], #[trigger] keys[j]) is None,
        forall|a: int, k: Seq<char>|
            0 < a <= keys.len() ==> #[trigger] lookup(marks[a], k) == if k == keys[a - 1] {
                Some(entries[a - 1])
            } else {
                lookup(marks[a - 1], k)
            },
    ensures
        forall|j: int|
            0 <= j < keys.len() ==> #[trigger] lookup(marks[i], keys[j]) == if j < i {
                Some(entries[j])
            } else {
                None
            },
        forall|k: Seq<char>| !keys.contains(k) ==> #[trigger] lookup(marks[i], k) == lookup(marks[0], k),
    decreases i,
{
    if i > 0 {
        lemma_marks_state(marks, keys, entries, i - 1);
        assert forall|j: int| 0 <= j < keys.len() implies #[trigger] lookup(marks[i], keys[j]) == if j
            < i {
            Some(entries[j])
        } else {
            None
        } by {
            assert(lookup(marks[i], keys[j]) == if keys[j] == keys[i - 1] {
                Some(entries[i - 1])
            } else {
                lookup(marks[i - 1], keys[j])
            });
            if j != i - 1 {
                assert(keys[j] != keys[i - 1]);
            }
        }
        assert forall|k: Seq<char>| !keys.contains(k) implies #[trigger] lookup(marks[i], k) == lookup(
            marks[0],
            k,
        ) by {
            assert(lookup(marks[i], k) == lookup(marks[i - 1], k)) by {
                if k == keys[i - 1] {
                    assert(keys.contains(keys[i - 1]));
                }
            }
        }
    }
}

proof fn lemma_takes_state(
    marks: Seq<Seq<(Seq<char>, OfflineEntryView)>>,
    takes: Seq<Seq<(Seq<char>, OfflineEntryView)>>,
    keys: Seq<Seq<char>>,
    entries: Seq<OfflineEntryView>,
    i: int,
)
    requires
        keys.len() == entries.len(),
        marks.len() == keys.len() + 1,
        takes.len() == keys.len() + 1,
        keys.no_duplicates(),
        0 <= i <= keys.len(),
        forall|j: int| 0 <= j < keys.len() ==> lookup(marks[0], #[trigger] keys[j]) is None,
        forall|a: int, k: Seq<char>|
            0 < a <= keys.len() ==> #[trigger] lookup(marks[a], k) == if k == keys[a - 1] {
                Some(entries[a - 1])
            } else {
                lookup(marks[a - 1], k)
            },
        takes[0] == marks[keys.len() as int],
        forall|a: int, k: Seq<char>|
            0 < a <= keys.len() ==> #[trigger] lookup(takes[a], k) == if k == keys[a - 1] {
                None
            } else {
                lookup(takes[a - 1], k)
            },
    ensures
        forall|j: int|
            0 <= j < keys.len() ==> #[trigger] lookup(takes[i], keys[j]) == if j < i {
                None
            } else {
                Some(entries[j])
            },
        forall|k: Seq<char>| !keys.contains(k) ==> #[trigger] lookup(takes[i], k) == lookup(marks[0], k),
    decreases i,
{
    if i == 0 {
        lemma_marks_state(marks, keys, entries, keys.len() as int);
    } else {
        lemma_takes_state(marks, takes, keys, entries, i - 1);
        assert forall|j: int| 0 <= j < keys.len() implies #[trigger] lookup(takes[i], keys[j]) == if j
            < i {
            None
        } else {
            Some(entries[j])
        } by {
            assert(lookup(takes[i], keys[j]) == if keys[j] == keys[i - 1] {
                None
            } else {
                lookup(takes[i - 1], keys[j])
            });
            if j != i - 1 {
                assert(keys[j] != keys[i - 1]);
            }
        }
        assert forall|k: Seq<char>| !keys.contains(k) implies #[trigger] lookup(takes[i], k) == lookup(
            marks[0],
            k,
        ) by {
            assert(lookup(takes[i], k) == lookup(takes[i - 1], k)) by {
                if k == keys[i - 1] {
                    assert(keys.contains(keys[i - 1]));
                }
            }
        }
    }
}

} // verus!
