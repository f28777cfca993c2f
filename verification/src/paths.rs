//! Repository paths as sequences of components, with the order that
//! `std::path::Path` uses: component by component, the root directory first,
//! then `.` and `..`, then normal components compared character by character
//! (for UTF-8 text this is the byte order).

use crate::text::{chars_of, push_char};
use vstd::prelude::*;

verus! {

/// A path, as the sequence of its normal components. For an absolute path
/// the first component is empty and stands for the root directory.
#[derive(Debug, Clone, PartialEq, Eq)]
pub struct RepoPath {
    pub components: Vec<String>,
}

impl View for RepoPath {
    type V = Seq<Seq<char>>;

    open spec fn view(&self) -> Seq<Seq<char>> {
        self.components.deep_view()
    }
}

/// Strict order on strings: the first differing character decides; a proper
/// prefix comes first.
pub open spec fn text_lt(a: Seq<char>, b: Seq<char>) -> bool
    decreases a.len(),
{
    if a.len() == 0 {
        b.len() > 0
    } else if b.len() == 0 {
        false
    } else if a[0] != b[0] {
        (a[0] as int) < (b[0] as int)
    } else {
        text_lt(a.drop_first(), b.drop_first())
    }
}

/// Where a component stands before comparing text, as `std::path` orders
/// components: the root directory (the empty first component), then `.`,
/// then `..`, then every normal component.
pub open spec fn component_rank(c: Seq<char>) -> int {
    if c.len() == 0 {
        0
    } else if c == seq!['.'] {
        1
    } else if c == seq!['.', '.'] {
        2
    } else {
        3
    }
}

/// Strict order on components: by rank, then character by character.
pub open spec fn component_lt(a: Seq<char>, b: Seq<char>) -> bool {
    if component_rank(a) != component_rank(b) {
        component_rank(a) < component_rank(b)
    } else {
        text_lt(a, b)
    }
}

/// Strict order on paths: the first differing component decides; a proper
/// prefix comes first.
pub open spec fn path_lt(a: Seq<Seq<char>>, b: Seq<Seq<char>>) -> bool
    decreases a.len(),
{
    if a.len() == 0 {
        b.len() > 0
    } else if b.len() == 0 {
        false
    } else if a[0] != b[0] {
        component_lt(a[0], b[0])
    } else {
        path_lt(a.drop_first(), b.drop_first())
    }
}

pub open spec fn path_le(a: Seq<Seq<char>>, b: Seq<Seq<char>>) -> bool {
    a == b || path_lt(a, b)
}

/// Whether `base` is `path` or one of its ancestors.
pub open spec fn path_has_prefix(path: Seq<Seq<char>>, base: Seq<Seq<char>>) -> bool {
    base.len() <= path.len() && path.take(base.len() as int) == base
}

/// The text of a path: its components joined by `'/'`.
pub open spec fn path_text(cs: Seq<Seq<char>>) -> Seq<char>
    decreases cs.len(),
{
    if cs.len() == 0 {
        Seq::empty()
    } else if cs.len() == 1 {
        cs[0]
    } else {
        path_text(cs.drop_last()) + seq!['/'] + cs.last()
    }
}

pub proof fn lemma_text_lt_irreflexive(a: Seq<char>)
    ensures
        !text_lt(a, a),
    decreases a.len(),
{
    if a.len() > 0 {
        lemma_text_lt_irreflexive(a.drop_first());
    }
}

pub proof fn lemma_text_lt_transitive(a: Seq<char>, b: Seq<char>, c: Seq<char>)
    requires
        text_lt(a, b),
        text_lt(b, c),
    ensures
        text_lt(a, c),
    decreases a.len(),
{
    if a.len() > 0 && b.len() > 0 && c.len() > 0 && a[0] == b[0] && b[0] == c[0] {
        lemma_text_lt_transitive(a.drop_first(), b.drop_first(), c.drop_first());
    }
}

pub proof fn lemma_text_lt_total(a: Seq<char>, b: Seq<char>)
    requires
        a != b,
    ensures
        text_lt(a, b) || text_lt(b, a),
    decreases a.len(),
{
    if a.len() == 0 && b.len() == 0 {
        assert(a =~= b);
    }
    if a.len() > 0 && b.len() > 0 && a[0] == b[0] {
        if a.drop_first() == b.drop_first() {
            assert(a =~= seq![a[0]] + a.drop_first());
            assert(b =~= seq![b[0]] + b.drop_first());
        }
        lemma_text_lt_total(a.drop_first(), b.drop_first());
    }
}

pub proof fn lemma_text_lt_asymmetric(a: Seq<char>, b: Seq<char>)
    requires
        text_lt(a, b),
    ensures
        !text_lt(b, a),
{
    if text_lt(b, a) {
        lemma_text_lt_transitive(a, b, a);
        lemma_text_lt_irreflexive(a);
    }
}

pub proof fn lemma_component_lt_irreflexive(a: Seq<char>)
    ensures
        !component_lt(a, a),
{
    lemma_text_lt_irreflexive(a);
}

pub proof fn lemma_component_lt_transitive(a: Seq<char>, b: Seq<char>, c: Seq<char>)
    requires
        component_lt(a, b),
        component_lt(b, c),
    ensures
        component_lt(a, c),
{
    if component_rank(a) == component_rank(b) && component_rank(b) == component_rank(c) {
        lemma_text_lt_transitive(a, b, c);
    }
}

pub proof fn lemma_component_lt_total(a: Seq<char>, b: Seq<char>)
    requires
        a != b,
    ensures
        component_lt(a, b) || component_lt(b, a),
{
    lemma_text_lt_total(a, b);
}

pub proof fn lemma_path_lt_irreflexive(a: Seq<Seq<char>>)
    ensures
        !path_lt(a, a),
    decreases a.len(),
{
    if a.len() > 0 {
        lemma_path_lt_irreflexive(a.drop_first());
    }
}

pub proof fn lemma_path_lt_transitive(a: Seq<Seq<char>>, b: Seq<Seq<char>>, c: Seq<Seq<char>>)
    requires
        path_lt(a, b),
        path_lt(b, c),
    ensures
        path_lt(a, c),
    decreases a.len(),
{
    if a.len() > 0 && b.len() > 0 && c.len() > 0 {
        if a[0] == b[0] && b[0] == c[0] {
            lemma_path_lt_transitive(a.drop_first(), b.drop_first(), c.drop_first());
        } else if a[0] != b[0] && b[0] != c[0] {
            lemma_component_lt_transitive(a[0], b[0], c[0]);
            if a[0] == c[0] {
                lemma_component_lt_irreflexive(a[0]);
            }
        }
    }
}

pub proof fn lemma_path_lt_total(a: Seq<Seq<char>>, b: Seq<Seq<char>>)
    requires
        a != b,
    ensures
        path_lt(a, b) || path_lt(b, a),
    decreases a.len(),
{
    if a.len() == 0 && b.len() == 0 {
        assert(a =~= b);
    }
    if a.len() > 0 && b.len() > 0 {
        if a[0] == b[0] {
            if a.drop_first() == b.drop_first() {
                assert(a =~= seq![a[0]] + a.drop_first());
                assert(b =~= seq![b[0]] + b.drop_first());
            }
            lemma_path_lt_total(a.drop_first(), b.drop_first());
        } else {
            lemma_component_lt_total(a[0], b[0]);
        }
    }
}

pub proof fn lemma_path_lt_asymmetric(a: Seq<Seq<char>>, b: Seq<Seq<char>>)
    requires
        path_lt(a, b),
    ensures
        !path_lt(b, a),
{
    if path_lt(b, a) {
        lemma_path_lt_transitive(a, b, a);
        lemma_path_lt_irreflexive(a);
    }
}

pub proof fn lemma_path_le_transitive(a: Seq<Seq<char>>, b: Seq<Seq<char>>, c: Seq<Seq<char>>)
    requires
        path_le(a, b),
        path_le(b, c),
    ensures
        path_le(a, c),
{
    if path_lt(a, b) && path_lt(b, c) {
        lemma_path_lt_transitive(a, b, c);
    }
}

/// The scalar value of a character.
pub fn char_code(c: char) -> (r: u32)
    ensures
        r as int == c as int,
{
    c as u32
}

/// Whether `a` comes before `b` in character order.
pub fn text_precedes(a: &str, b: &str) -> (r: bool)
    ensures
        r == text_lt(a@, b@),
{
    let x = chars_of(a);
    let y = chars_of(b);
    let mut i: usize = 0;
    proof {
        assert(x@.skip(0) =~= x@);
        assert(y@.skip(0) =~= y@);
    }
    while i < x.len() && i < y.len() && x[i] == y[i]
        invariant
            x@ == a@,
            y@ == b@,
            i <= x.len(),
            i <= y.len(),
            text_lt(a@, b@) == text_lt(x@.skip(i as int), y@.skip(i as int)),
        decreases x.len() - i,
    {
        proof {
            assert(x@.skip(i + 1) =~= x@.skip(i as int).drop_first());
            assert(y@.skip(i + 1) =~= y@.skip(i as int).drop_first());
        }
        i = i + 1;
    }
    if i == x.len() {
        assert(x@.skip(i as int).len() == 0);
        i < y.len()
    } else if i == y.len() {
        assert(y@.skip(i as int).len() == 0);
        false
    } else {
        let c = x[i];
        let d = y[i];
        proof {
            assert(x@.skip(i as int)[0] == c);
            assert(y@.skip(i as int)[0] == d);
            assert(c != d);
            assert(x@.skip(i as int).len() > 0 && y@.skip(i as int).len() > 0);
            assert(text_lt(x@.skip(i as int), y@.skip(i as int)) == ((c as int) < (d as int)));
        }
        char_code(c) < char_code(d)
    }
}

/// Whether a path starts at the root directory.
pub open spec fn is_absolute_spec(p: Seq<Seq<char>>) -> bool {
    p.len() > 0 && p[0].len() == 0
}

/// How a path is printed: `/` for the root directory, else its components
/// joined by `'/'`.
pub open spec fn path_display(p: Seq<Seq<char>>) -> Seq<char> {
    if p.len() == 1 && p[0].len() == 0 {
        seq!['/']
    } else {
        path_text(p)
    }
}

/// The rank of a component (see [`component_rank`]).
fn rank_of(c: &str) -> (r: u8)
    ensures
        r as int == component_rank(c@),
{
    let chars = chars_of(c);
    if chars.len() == 0 {
        0
    } else if chars.len() == 1 && chars[0] == '.' {
        proof {
            assert(c@ =~= seq!['.']);
        }
        1
    } else if chars.len() == 2 && chars[0] == '.' && chars[1] == '.' {
        proof {
            assert(c@ =~= seq!['.', '.']);
        }
        2
    } else {
        proof {
            if chars.len() == 1 {
                assert(c@[0] == seq!['.'][0] ==> c@ =~= seq!['.']);
            }
            if chars.len() == 2 {
                assert(c@[0] == '.' && c@[1] == '.' ==> c@ =~= seq!['.', '.']);
            }
        }
        3
    }
}

/// Whether component `a` comes before component `b`.
pub fn component_precedes(a: &str, b: &str) -> (r: bool)
    ensures
        r == component_lt(a@, b@),
{
    let ra = rank_of(a);
    let rb = rank_of(b);
    if ra != rb {
        ra < rb
    } else {
        text_precedes(a, b)
    }
}

impl RepoPath {
    /// Whether the path starts at the root directory.
    pub fn is_absolute(&self) -> (r: bool)
        ensures
            r == is_absolute_spec(self@),
    {
        self.components.len() > 0 && self.components[0].as_str().is_empty()
    }

    /// The path followed by the components of `rest`.
    pub fn join_path(&self, rest: &RepoPath) -> (p: RepoPath)
        ensures
            p@ == self@ + rest@,
    {
        let mut components = crate::model::clone_strings(&self.components);
        for i in 0..rest.components.len()
            invariant
                components.deep_view() == self@ + rest@.take(i as int),
        {
            let ghost before = components.deep_view();
            components.push(rest.components[i].clone());
            proof {
                assert(components.deep_view() =~= before.push(rest@[i as int]));
                assert(self@ + rest@.take(i + 1) =~= (self@ + rest@.take(i as int)).push(rest@[i as int]));
            }
        }
        proof {
            assert(rest@.take(rest@.len() as int) =~= rest@);
        }
        RepoPath { components }
    }

    /// The empty relative path (the repository root itself).
    pub fn new() -> (p: RepoPath)
        ensures
            p@ == Seq::<Seq<char>>::empty(),
    {
        let components: Vec<String> = Vec::new();
        let p = RepoPath { components };
        assert(p@ =~= Seq::<Seq<char>>::empty());
        p
    }

    /// A copy of the path.
    pub fn duplicate(&self) -> (p: RepoPath)
        ensures
            p@ == self@,
    {
        RepoPath { components: crate::model::clone_strings(&self.components) }
    }

    /// The path with one more component.
    pub fn join(&self, name: &str) -> (p: RepoPath)
        ensures
            p@ == self@.push(name@),
    {
        let mut components = crate::model::clone_strings(&self.components);
        let ghost before = components.deep_view();
        components.push(name.to_owned());
        proof {
            assert(components.deep_view() =~= before.push(name@));
        }
        RepoPath { components }
    }

    /// Whether the two paths are the same.
    pub fn same_as(&self, other: &RepoPath) -> (r: bool)
        ensures
            r == (self@ == other@),
    {
        crate::model::strings_equal(&self.components, &other.components)
    }

    /// Whether `base` is this path or one of its ancestors.
    pub fn starts_with(&self, base: &RepoPath) -> (r: bool)
        ensures
            r == path_has_prefix(self@, base@),
    {
        let n = base.components.len();
        if n > self.components.len() {
            return false;
        }
        let mut i: usize = 0;
        while i < n
            invariant
                n == base.components.len() <= self.components.len(),
                i <= n,
                forall|j: int| 0 <= j < i ==> self@[j] == base@[j],
            decreases n - i,
        {
            if !(self.components[i] == base.components[i]) {
                proof {
                    assert(self@.take(n as int)[i as int] != base@[i as int]);
                }
                return false;
            }
            i = i + 1;
        }
        proof {
            assert(self@.take(n as int) =~= base@);
        }
        true
    }

    /// Whether this path comes before `other`.
    pub fn precedes(&self, other: &RepoPath) -> (r: bool)
        ensures
            r == path_lt(self@, other@),
    {
        let a = &self.components;
        let b = &other.components;
        let mut i: usize = 0;
        proof {
            assert(self@.skip(0) =~= self@);
            assert(other@.skip(0) =~= other@);
        }
        while i < a.len() && i < b.len() && a[i] == b[i]
            invariant
                i <= a.len(),
                i <= b.len(),
                self@.len() == a.len(),
                other@.len() == b.len(),
                forall|j: int| 0 <= j < a.len() ==> self@[j] == a[j]@,
                forall|j: int| 0 <= j < b.len() ==> other@[j] == b[j]@,
                path_lt(self@, other@) == path_lt(self@.skip(i as int), other@.skip(i as int)),
            decreases a.len() - i,
        {
            proof {
                assert(self@.skip(i + 1) =~= self@.skip(i as int).drop_first());
                assert(other@.skip(i + 1) =~= other@.skip(i as int).drop_first());
            }
            i = i + 1;
        }
        if i == a.len() {
            i < b.len()
        } else if i == b.len() {
            false
        } else {
            proof {
                assert(self@.skip(i as int)[0] == self@[i as int]);
                assert(other@.skip(i as int)[0] == other@[i as int]);
            }
            component_precedes(a[i].as_str(), b[i].as_str())
        }
    }

    /// The text of the path: its components joined by `'/'`.
    pub fn to_text(&self) -> (s: String)
        ensures
            s@ == path_text(self@),
    {
        let mut s = String::new();
        let n = self.components.len();
        let mut i: usize = 0;
        while i < n
            invariant
                n == self.components.len(),
                i <= n,
                s@ == path_text(self@.take(i as int)),
            decreases n - i,
        {
            let part = chars_of(self.components[i].as_str());
            if i > 0 {
                push_char(&mut s, '/');
            }
            let ghost base = s@;
            let mut j: usize = 0;
            while j < part.len()
                invariant
                    j <= part.len(),
                    s@ == base + part@.take(j as int),
                decreases part.len() - j,
            {
                push_char(&mut s, part[j]);
                proof {
                    assert(part@.take(j + 1) =~= part@.take(j as int).push(part@[j as int]));
                }
                j = j + 1;
            }
            proof {
                assert(part@.take(part@.len() as int) =~= part@);
                assert(self@.take(i + 1).drop_last() =~= self@.take(i as int));
                if i == 0 {
                    assert(s@ =~= self@.take(1)[0]);
                } else {
                    assert(s@ =~= path_text(self@.take(i as int)) + seq!['/'] + self@[i as int]);
                }
            }
            i = i + 1;
        }
        proof {
            assert(self@.take(n as int) =~= self@);
        }
        s
    }
}

/// Items keyed by a path, in order of their paths (items with the same path
/// may come in any order).
pub open spec fn sorted_by_path<X>(items: Seq<(RepoPath, X)>) -> bool {
    forall|i: int, j: int| 0 <= i < j < items.len() ==> path_le(items[i].0@, items[j].0@)
}

proof fn lemma_insert_to_multiset<A>(s: Seq<A>, p: int, x: A)
    requires
        0 <= p <= s.len(),
    ensures
        s.insert(p, x).to_multiset() == s.to_multiset().insert(x),
{
    broadcast use vstd::seq_lib::group_to_multiset_ensures;

    let t = s.insert(p, x);
    assert(t.remove(p) =~= s);
    vstd::seq_lib::to_multiset_remove(t, p);
    assert(t.contains(x)) by {
        assert(t[p] == x);
    }
    assert(t.to_multiset() =~= s.to_multiset().insert(x));
}

/// Sequences with the same elements still have the same elements once each
/// is mapped through `f`.
pub proof fn lemma_same_multiset_map<A, B>(s1: Seq<A>, s2: Seq<A>, f: spec_fn(A) -> B)
    requires
        s1.to_multiset() == s2.to_multiset(),
    ensures
        s1.map_values(f).to_multiset() == s2.map_values(f).to_multiset(),
    decreases s1.len(),
{
    broadcast use vstd::seq_lib::group_to_multiset_ensures;

    if s1.len() == 0 {
        vstd::seq_lib::to_multiset_len(s1);
        vstd::seq_lib::to_multiset_len(s2);
        assert(s2.len() == 0);
        assert(s1.map_values(f) =~= s2.map_values(f));
    } else {
        let x = s1.last();
        let s1r = s1.drop_last();
        assert(s1 =~= s1r.push(x));
        assert(s1.contains(x));
        assert(s2.to_multiset().count(x) > 0);
        assert(s2.contains(x));
        let j = choose|j: int| 0 <= j < s2.len() && s2[j] == x;
        let s2r = s2.remove(j);
        vstd::seq_lib::to_multiset_remove(s2, j);
        vstd::seq_lib::to_multiset_build(s1r, x);
        assert(s1r.to_multiset() =~= s2r.to_multiset());
        lemma_same_multiset_map(s1r, s2r, f);
        assert(s1.map_values(f) =~= s1r.map_values(f).push(f(x)));
        vstd::seq_lib::to_multiset_build(s1r.map_values(f), f(x));
        assert(s2.map_values(f).remove(j) =~= s2r.map_values(f));
        vstd::seq_lib::to_multiset_remove(s2.map_values(f), j);
        assert(s2.map_values(f).contains(f(x))) by {
            assert(s2.map_values(f)[j] == f(x));
        }
        assert(s2.map_values(f).to_multiset() =~= s2r.map_values(f).to_multiset().insert(f(x)));
    }
}

/// Sorts items by their paths (an insertion sort).
pub fn sort_by_path<X>(items: Vec<(RepoPath, X)>) -> (sorted: Vec<(RepoPath, X)>)
    ensures
        sorted_by_path(sorted@),
        sorted@.to_multiset() == items@.to_multiset(),
{
    broadcast use vstd::seq_lib::group_to_multiset_ensures;

    let ghost all = items@;
    let mut rest = items;
    let mut sorted: Vec<(RepoPath, X)> = Vec::new();
    let ghost mut k: int = 0;
    proof {
        assert(all.take(0) =~= Seq::<(RepoPath, X)>::empty());
        assert(all.skip(0) =~= all);
    }
    while rest.len() > 0
        invariant
            0 <= k <= all.len(),
            rest@ == all.skip(k),
            sorted_by_path(sorted@),
            sorted@.to_multiset() == all.take(k).to_multiset(),
        decreases rest.len(),
    {
        let item = rest.remove(0);
        let mut p: usize = 0;
        while p < sorted.len() && !item.0.precedes(&sorted[p].0)
            invariant
                p <= sorted.len(),
                forall|q: int| 0 <= q < p ==> !path_lt(item.0@, (#[trigger] sorted@[q]).0@),
            decreases sorted.len() - p,
        {
            p = p + 1;
        }
        let ghost old_sorted = sorted@;
        proof {
            assert forall|q: int| 0 <= q < p implies path_le(
                (#[trigger] old_sorted[q]).0@,
                item.0@,
            ) by {
                if old_sorted[q].0@ != item.0@ {
                    lemma_path_lt_total(old_sorted[q].0@, item.0@);
                }
            }
            assert forall|q: int| p <= q < old_sorted.len() implies path_lt(
                item.0@,
                (#[trigger] old_sorted[q]).0@,
            ) by {
                assert(path_lt(item.0@, old_sorted[p as int].0@));
                if q > p {
                    assert(path_le(old_sorted[p as int].0@, old_sorted[q].0@));
                    if path_lt(old_sorted[p as int].0@, old_sorted[q].0@) {
                        lemma_path_lt_transitive(item.0@, old_sorted[p as int].0@, old_sorted[q].0@);
                    }
                }
            }
            lemma_insert_to_multiset(old_sorted, p as int, item);
            vstd::seq_lib::to_multiset_build(all.take(k), item);
            assert(all[k] == item);
            assert(all.take(k + 1) =~= all.take(k).push(item));
            assert(all.skip(k + 1) =~= all.skip(k).remove(0));
        }
        sorted.insert(p, item);
        proof {
            let new_sorted = sorted@;
            assert forall|i: int, j: int| 0 <= i < j < new_sorted.len() implies path_le(
                new_sorted[i].0@,
                new_sorted[j].0@,
            ) by {
                if j < p {
                    assert(new_sorted[i] == old_sorted[i] && new_sorted[j] == old_sorted[j]);
                } else if j == p {
                    assert(new_sorted[i] == old_sorted[i]);
                } else if i < p {
                    assert(new_sorted[i] == old_sorted[i] && new_sorted[j] == old_sorted[j - 1]);
                    lemma_path_le_transitive(old_sorted[i].0@, item.0@, old_sorted[j - 1].0@);
                } else if i == p {
                    assert(new_sorted[j] == old_sorted[j - 1]);
                } else {
                    assert(new_sorted[i] == old_sorted[i - 1] && new_sorted[j] == old_sorted[j - 1]);
                }
            }
            k = k + 1;
        }
    }
    proof {
        assert(all.take(k) =~= all);
    }
    sorted
}

/// The absolute path that a path given on the command line names: the path
/// itself where it is absolute, else the path under the current directory.
/// The caller makes it relative to the repository root.
pub fn normalize_repo_path(path: &RepoPath, current_dir: &RepoPath) -> (p: RepoPath)
    ensures
        p@ == if is_absolute_spec(path@) {
            path@
        } else {
            current_dir@ + path@
        },
{
    if path.is_absolute() {
        path.duplicate()
    } else {
        current_dir.join_path(path)
    }
}

/// The text of a path as it is printed.
pub fn path_to_string(path: &RepoPath) -> (s: String)
    ensures
        s@ == path_display(path@),
{
    if path.components.len() == 1 && path.components[0].as_str().is_empty() {
        let mut s = String::new();
        push_char(&mut s, '/');
        s
    } else {
        path.to_text()
    }
}

} // verus!
