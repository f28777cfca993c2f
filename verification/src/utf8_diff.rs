//! Line diffs of two texts, in groups of changes with three lines of context.

use crate::error::OxenError;
use crate::text::{strip_line_ending, strip_line_ending_spec};
use similar::{Algorithm, ChangeTag as SimilarTag, TextDiff as SimilarTextDiff};
use vstd::prelude::*;

verus! {

/// Lines of unchanged context kept around each group of changes.
pub const CONTEXT_LINES: usize = 3;

/// Time the diff algorithm may take, in milliseconds, before it settles for a
/// coarser diff.
pub const DIFF_TIMEOUT_MS: u64 = 500;

/// How a line of a diff relates the two texts.
#[derive(Clone, Copy, Debug, PartialEq, Eq, Structural)]
pub enum ChangeType {
    Added,
    Removed,
    Modified,
    Unchanged,
}

/// A line of a diff.
#[derive(Debug)]
pub struct LineDiff {
    pub modification: ChangeType,
    pub text: String,
}

pub struct LineDiffView {
    pub modification: ChangeType,
    pub text: Seq<char>,
}

impl View for LineDiff {
    type V = LineDiffView;

    open spec fn view(&self) -> LineDiffView {
        LineDiffView { modification: self.modification, text: self.text@ }
    }
}

/// The diff of two texts, with the names of the files they came from.
#[derive(Debug)]
pub struct TextDiff {
    pub filename1: Option<String>,
    pub filename2: Option<String>,
    pub lines: Vec<LineDiff>,
}

/// What a changed line of a line diff is.
#[derive(Clone, Copy, Debug, PartialEq, Eq, Structural)]
pub enum ChangeTag {
    Equal,
    Delete,
    Insert,
}

/// A line of a line diff, with its line ending, and its index among the
/// lines of the original (`old_index`) and of the compared text
/// (`new_index`), where it is one of them.
#[derive(Debug)]
pub struct LineChange {
    pub tag: ChangeTag,
    pub value: String,
    pub old_index: Option<usize>,
    pub new_index: Option<usize>,
}

/// Calls `similar::TextDiff::configure().algorithm(Patience).timeout(..)
/// .diff_lines`, then `grouped_ops(context)` and `iter_changes`, and reads
/// each change's tag, value and indices. With a timeout the diff that comes
/// back depends on how long the algorithm ran, so only what holds of every
/// outcome is promised. Both texts are split into lines with their endings
/// (`line_tokens`), and whatever the deadline the operations make a valid
/// diff of the two line lists, every insertion and deletion of which lies in
/// some group:
/// - each change is the line at its index (`change_fits`): an unchanged line
///   is the same line of both texts, a deletion a line of `original`, an
///   insertion a line of `compare`;
/// - two equal texts give unchanged lines alone, two different texts some
///   insertion or deletion; a line of `compare` that `original` lacks comes
///   out as an insertion, and a line of `original` that `compare` lacks as a
///   deletion;
/// - `grouped_ops` trims the unchanged lines before a group's first change
///   and after its last one to `context`, keeping fewer only where the text
///   begins or ends sooner, and splits a group wherever more than twice
///   `context` unchanged lines follow each other (`groups_keep_context`).
/// Which lines are matched is left unsaid. It is called with the library's
/// deadline alone (`DIFF_TIMEOUT_MS`): how much matching that deadline allows
/// depends on the machine, so no clause can say it, and a shorter one would
/// give coarser diffs that every clause above still admits.
#[verifier::external_body]
fn grouped_line_changes(original: &str, compare: &str, context: usize, timeout_ms: u64) -> (groups:
    Vec<Vec<LineChange>>)
    requires
        timeout_ms == DIFF_TIMEOUT_MS,
    ensures
        original@ == compare@ ==> all_unchanged(groups@),
        original@ != compare@ ==> !all_unchanged(groups@),
        forall|t: Seq<char>|
            #[trigger] line_tokens(compare@).contains(t) && !line_tokens(original@).contains(t)
                ==> has_change(groups@, ChangeTag::Insert, t),
        forall|t: Seq<char>|
            #[trigger] line_tokens(original@).contains(t) && !line_tokens(compare@).contains(t)
                ==> has_change(groups@, ChangeTag::Delete, t),
        groups_fit(groups@, line_tokens(original@), line_tokens(compare@)),
        groups_keep_context(
            groups@,
            line_tokens(original@).len() as int,
            line_tokens(compare@).len() as int,
            context as int,
        ),
{
    let diff = SimilarTextDiff::configure().algorithm(Algorithm::Patience).timeout(
        std::time::Duration::from_millis(timeout_ms),
    ).diff_lines(original, compare);
    diff.grouped_ops(context).iter().map(|group| group.iter().flat_map(|op| diff.iter_changes(op)).map(|c| LineChange {
        tag: match c.tag() {
            SimilarTag::Equal => ChangeTag::Equal,
            SimilarTag::Delete => ChangeTag::Delete,
            SimilarTag::Insert => ChangeTag::Insert,
        },
        value: c.value().to_string(),
        old_index: c.old_index(),
        new_index: c.new_index(),
    }).collect()).collect()
}

/// Whether some change of the groups has this tag and value.
pub open spec fn has_change(groups: Seq<Vec<LineChange>>, tag: ChangeTag, t: Seq<char>) -> bool {
    exists|g: int, j: int|
        0 <= g < groups.len() && 0 <= j < groups[g]@.len() && (#[trigger] groups[g]@[j]).tag == tag
            && groups[g]@[j].value@ == t
}

/// Whether a change is the line at its index: an unchanged line in both
/// line lists, a deleted line in the old one, an inserted line in the new.
pub open spec fn change_fits(c: LineChange, old: Seq<Seq<char>>, new: Seq<Seq<char>>) -> bool {
    match c.tag {
        ChangeTag::Equal => c.old_index matches Some(o) && c.new_index matches Some(n) && o
            < old.len() && n < new.len() && c.value@ == old[o as int] && c.value@ == new[n as int],
        ChangeTag::Delete => c.new_index is None && (c.old_index matches Some(o) && o < old.len()
            && c.value@ == old[o as int]),
        ChangeTag::Insert => c.old_index is None && (c.new_index matches Some(n) && n < new.len()
            && c.value@ == new[n as int]),
    }
}

pub open spec fn groups_fit(
    groups: Seq<Vec<LineChange>>,
    old: Seq<Seq<char>>,
    new: Seq<Seq<char>>,
) -> bool {
    forall|g: int, j: int|
        0 <= g < groups.len() && 0 <= j < groups[g]@.len() ==> change_fits(
            #[trigger] groups[g]@[j],
            old,
            new,
        )
}

/// Whether the changes `a..b` of a group are all unchanged lines.
pub open spec fn equal_run(group: Seq<LineChange>, a: int, b: int) -> bool {
    forall|q: int| a <= q < b ==> (#[trigger] group[q]).tag == ChangeTag::Equal
}

/// The index of a changed line: in the old lines for a deletion, in the new
/// lines for an insertion.
pub open spec fn change_index(c: LineChange) -> int {
    if c.tag == ChangeTag::Insert {
        match c.new_index {
            Some(n) => n as int,
            None => 0,
        }
    } else {
        match c.old_index {
            Some(o) => o as int,
            None => 0,
        }
    }
}

/// How many lines follow a changed line in its text.
pub open spec fn lines_after(c: LineChange, old_len: int, new_len: int) -> int {
    if c.tag == ChangeTag::Insert {
        new_len - change_index(c) - 1
    } else {
        old_len - change_index(c) - 1
    }
}

pub open spec fn min_of(a: int, b: int) -> int {
    if a < b {
        a
    } else {
        b
    }
}

/// The context a group keeps: before its first change, `context` unchanged
/// lines, or all those before it where the text has fewer; after its last
/// change, `context`, or all those after it where fewer remain; and never
/// more than twice `context` unchanged lines in a row.
pub open spec fn group_keeps_context(group: Seq<LineChange>, old_len: int, new_len: int, context: int) -> bool {
    &&& forall|p: int|
        0 <= p < group.len() && (#[trigger] group[p]).tag != ChangeTag::Equal && equal_run(group, 0, p)
            ==> p <= context && p >= min_of(context, change_index(group[p]))
    &&& forall|p: int|
        0 <= p < group.len() && (#[trigger] group[p]).tag != ChangeTag::Equal && equal_run(
            group,
            p + 1,
            group.len() as int,
        ) ==> group.len() - p - 1 <= context && group.len() - p - 1 >= min_of(
            context,
            lines_after(group[p], old_len, new_len),
        )
    &&& forall|a: int, b: int|
        0 <= a <= b <= group.len() && #[trigger] equal_run(group, a, b) ==> b - a <= 2 * context
}

pub open spec fn groups_keep_context(
    groups: Seq<Vec<LineChange>>,
    old_len: int,
    new_len: int,
    context: int,
) -> bool {
    forall|g: int| 0 <= g < groups.len() ==> group_keeps_context(#[trigger] groups[g]@, old_len, new_len, context)
}

/// Where the line of `s` that starts at `i` ends: just after its `"\r\n"`,
/// `'\r'` or `'\n'`, or at the end of `s`.
pub open spec fn line_end(s: Seq<char>, i: int) -> int
    decreases s.len() - i,
{
    if i < 0 || i >= s.len() {
        s.len() as int
    } else if s[i] == '\r' {
        if i + 1 < s.len() && s[i + 1] == '\n' {
            i + 2
        } else {
            i + 1
        }
    } else if s[i] == '\n' {
        i + 1
    } else {
        line_end(s, i + 1)
    }
}

/// The lines of `s` from position `i` on, each with its line ending.
pub open spec fn line_tokens_from(s: Seq<char>, i: int) -> Seq<Seq<char>>
    decreases s.len() - i,
{
    if i < 0 || i >= s.len() {
        Seq::empty()
    } else {
        let e = line_end(s, i);
        if e <= i || e > s.len() {
            Seq::empty()
        } else {
            seq![s.subrange(i, e)] + line_tokens_from(s, e)
        }
    }
}

/// The lines a line diff compares: the pieces of the text, each up to and
/// including its `"\r\n"`, `'\r'` or `'\n'`, the last one possibly without.
pub open spec fn line_tokens(s: Seq<char>) -> Seq<Seq<char>> {
    line_tokens_from(s, 0)
}

pub open spec fn change_type_of(tag: ChangeTag) -> ChangeType {
    match tag {
        ChangeTag::Equal => ChangeType::Unchanged,
        ChangeTag::Delete => ChangeType::Removed,
        ChangeTag::Insert => ChangeType::Added,
    }
}

/// The diff lines of one group of changes.
pub open spec fn group_lines(group: Seq<LineChange>) -> Seq<LineDiffView> {
    group.map_values(
        |c: LineChange|
            LineDiffView {
                modification: change_type_of(c.tag),
                text: strip_line_ending_spec(c.value@),
            },
    )
}

/// The line that separates two groups.
pub open spec fn separator_line() -> LineDiffView {
    LineDiffView { modification: ChangeType::Unchanged, text: "..."@ }
}

/// The diff lines of the groups, a separator between each two.
pub open spec fn grouped_lines(groups: Seq<Vec<LineChange>>) -> Seq<LineDiffView>
    decreases groups.len(),
{
    if groups.len() == 0 {
        Seq::empty()
    } else {
        let prev = grouped_lines(groups.drop_last());
        let with_separator = if groups.len() > 1 {
            prev.push(separator_line())
        } else {
            prev
        };
        with_separator + group_lines(groups.last()@)
    }
}

/// Every change of every group has its line among the grouped lines.
proof fn lemma_grouped_lines_contain(groups: Seq<Vec<LineChange>>, g: int, j: int)
    requires
        0 <= g < groups.len(),
        0 <= j < groups[g]@.len(),
    ensures
        exists|i: int|
            0 <= i < grouped_lines(groups).len() && grouped_lines(groups)[i] == group_lines(
                groups[g]@,
            )[j],
    decreases groups.len(),
{
    let prev = grouped_lines(groups.drop_last());
    let with_separator = if groups.len() > 1 {
        prev.push(separator_line())
    } else {
        prev
    };
    let all = grouped_lines(groups);
    assert(all == with_separator + group_lines(groups.last()@));
    if g == groups.len() - 1 {
        let i = with_separator.len() + j;
        assert(all[i] == group_lines(groups[g]@)[j]);
    } else {
        assert(groups.drop_last()[g] == groups[g]);
        lemma_grouped_lines_contain(groups.drop_last(), g, j);
        let i = choose|i: int|
            0 <= i < prev.len() && prev[i] == group_lines(groups.drop_last()[g]@)[j];
        assert(with_separator[i] == prev[i]);
        assert(all[i] == prev[i]);
    }
}

/// Whether no change of the groups is an insertion or deletion.
pub open spec fn all_unchanged(groups: Seq<Vec<LineChange>>) -> bool {
    forall|i: int, j: int|
        0 <= i < groups.len() && 0 <= j < groups[i]@.len() ==> (#[trigger] groups[i]@[j]).tag
            == ChangeTag::Equal
}

/// The lines of a diff made of these groups: none when nothing changed.
pub open spec fn diff_lines_spec(groups: Seq<Vec<LineChange>>) -> Seq<LineDiffView> {
    if all_unchanged(groups) {
        Seq::empty()
    } else {
        grouped_lines(groups)
    }
}

pub open spec fn lines_view(lines: Seq<LineDiff>) -> Seq<LineDiffView> {
    lines.map_values(|l: LineDiff| l@)
}

pub open spec fn name_view(n: Option<String>) -> Option<Seq<char>> {
    match n {
        Some(s) => Some(s@),
        None => None,
    }
}

/// Whether every change of the groups is unchanged context.
fn nothing_changed(groups: &Vec<Vec<LineChange>>) -> (r: bool)
    ensures
        r == all_unchanged(groups@),
{
    for i in 0..groups.len()
        invariant
            forall|a: int, j: int|
                0 <= a < i && 0 <= j < groups@[a]@.len() ==> (#[trigger] groups@[a]@[j]).tag
                    == ChangeTag::Equal,
    {
        let group = &groups[i];
        for j in 0..group.len()
            invariant
                i < groups.len(),
                group@ == groups@[i as int]@,
                forall|a: int, b: int|
                    0 <= a < i && 0 <= b < groups@[a]@.len() ==> (#[trigger] groups@[a]@[b]).tag
                        == ChangeTag::Equal,
                forall|b: int| 0 <= b < j ==> (#[trigger] groups@[i as int]@[b]).tag == ChangeTag::Equal,
        {
            if group[j].tag != ChangeTag::Equal {
                proof {
                    assert(groups@[i as int]@[j as int].tag != ChangeTag::Equal);
                }
                return false;
            }
        }
    }
    true
}

/// Builds the diff of two texts from the groups of changes between them.
pub fn text_diff_from_groups(
    filename1: Option<String>,
    filename2: Option<String>,
    groups: Vec<Vec<LineChange>>,
) -> (diff: TextDiff)
    ensures
        name_view(diff.filename1) == name_view(filename1),
        name_view(diff.filename2) == name_view(filename2),
        lines_view(diff.lines@) == diff_lines_spec(groups@),
{
    let mut lines: Vec<LineDiff> = Vec::new();
    if nothing_changed(&groups) {
        proof {
            assert(lines_view(lines@) =~= Seq::<LineDiffView>::empty());
        }
        return TextDiff { filename1, filename2, lines };
    }
    let ghost gs = groups@;
    proof {
        assert(gs.take(0) =~= Seq::<Vec<LineChange>>::empty());
        assert(lines_view(lines@) =~= grouped_lines(gs.take(0)));
    }
    for idx in 0..groups.len()
        invariant
            gs == groups@,
            lines_view(lines@) == grouped_lines(gs.take(idx as int)),
    {
        proof {
            assert(gs.take(idx + 1).drop_last() =~= gs.take(idx as int));
        }
        let ghost start = lines_view(lines@);
        if idx > 0 {
            let sep = LineDiff { modification: ChangeType::Unchanged, text: "...".to_owned() };
            proof {
                reveal_strlit("...");
            }
            lines.push(sep);
            proof {
                assert(lines_view(lines@) =~= start.push(separator_line()));
            }
        }
        let ghost base = lines_view(lines@);
        let group = &groups[idx];
        for j in 0..group.len()
            invariant
                group@ == gs[idx as int]@,
                lines_view(lines@) == base + group_lines(group@.take(j as int)),
        {
            let change = &group[j];
            let modification = match change.tag {
                ChangeTag::Equal => ChangeType::Unchanged,
                ChangeTag::Delete => ChangeType::Removed,
                ChangeTag::Insert => ChangeType::Added,
            };
            let text = strip_line_ending(change.value.as_str());
            let ghost before = lines_view(lines@);
            let line = LineDiff { modification, text };
            let ghost lv = line@;
            lines.push(line);
            proof {
                assert(lines_view(lines@) =~= before.push(lv));
                assert(group@.take(j + 1) =~= group@.take(j as int).push(*change));
                assert(group_lines(group@.take(j + 1)) =~= group_lines(group@.take(j as int)).push(lv));
            }
        }
        proof {
            assert(group@.take(group@.len() as int) =~= group@);
            assert(gs.take(idx + 1).last() == gs[idx as int]);
        }
    }
    proof {
        assert(gs.take(gs.len() as int) =~= gs);
    }
    TextDiff { filename1, filename2, lines }
}

/// Where a diff line comes from: a removed line is a line of the old text,
/// an added line a line of the new one, an unchanged line a line of both or
/// the separator between groups.
pub open spec fn line_from_texts(l: LineDiffView, old: Seq<Seq<char>>, new: Seq<Seq<char>>) -> bool {
    match l.modification {
        ChangeType::Removed => exists|t: Seq<char>| old.contains(t) && l.text == strip_line_ending_spec(t),
        ChangeType::Added => exists|t: Seq<char>| new.contains(t) && l.text == strip_line_ending_spec(t),
        ChangeType::Unchanged => l == separator_line() || exists|t: Seq<char>|
            old.contains(t) && new.contains(t) && l.text == strip_line_ending_spec(t),
        ChangeType::Modified => false,
    }
}

/// Every grouped line is a separator or the line of some change.
proof fn lemma_grouped_lines_from(groups: Seq<Vec<LineChange>>, i: int)
    requires
        0 <= i < grouped_lines(groups).len(),
    ensures
        grouped_lines(groups)[i] == separator_line() || exists|g: int, j: int|
            0 <= g < groups.len() && 0 <= j < groups[g]@.len() && grouped_lines(groups)[i]
                == #[trigger] group_lines(groups[g]@)[j],
    decreases groups.len(),
{
    let prev = grouped_lines(groups.drop_last());
    let with_separator = if groups.len() > 1 {
        prev.push(separator_line())
    } else {
        prev
    };
    let all = grouped_lines(groups);
    assert(all == with_separator + group_lines(groups.last()@));
    if i >= with_separator.len() {
        let g = groups.len() - 1;
        let j = i - with_separator.len();
        assert(all[i] == group_lines(groups[g]@)[j]);
    } else if i < prev.len() {
        lemma_grouped_lines_from(groups.drop_last(), i);
        assert(all[i] == prev[i]);
        if prev[i] != separator_line() {
            let (g, j) = choose|g: int, j: int|
                0 <= g < groups.drop_last().len() && 0 <= j < groups.drop_last()[g]@.len()
                    && prev[i] == #[trigger] group_lines(groups.drop_last()[g]@)[j];
            assert(groups.drop_last()[g] == groups[g]);
        }
    } else {
        assert(all[i] == separator_line());
    }
}

/// Every grouped line of changes that fit the texts comes from the texts.
proof fn lemma_line_from_texts(
    gs: Seq<Vec<LineChange>>,
    ta: Seq<Seq<char>>,
    tb: Seq<Seq<char>>,
    i: int,
)
    requires
        groups_fit(gs, ta, tb),
        0 <= i < grouped_lines(gs).len(),
    ensures
        line_from_texts(grouped_lines(gs)[i], ta, tb),
{
    lemma_grouped_lines_from(gs, i);
    if grouped_lines(gs)[i] != separator_line() {
        let (g, j) = choose|g: int, j: int|
            0 <= g < gs.len() && 0 <= j < gs[g]@.len() && grouped_lines(gs)[i]
                == #[trigger] group_lines(gs[g]@)[j];
        let c = gs[g]@[j];
        assert(change_fits(c, ta, tb));
        if c.tag == ChangeTag::Equal {
            assert(ta.contains(ta[c.old_index->0 as int]));
            assert(tb.contains(tb[c.new_index->0 as int]));
        } else if c.tag == ChangeTag::Delete {
            assert(ta.contains(ta[c.old_index->0 as int]));
        } else {
            assert(tb.contains(tb[c.new_index->0 as int]));
        }
    }
}

pub open spec fn text_or_empty(t: Option<String>) -> Seq<char> {
    match t {
        Some(s) => s@,
        None => Seq::empty(),
    }
}

/// Diffs two texts line by line (a missing text is empty), keeping three
/// lines of context around each group of changes; a diff in which nothing
/// changed has no lines.
pub fn diff(
    original_data: Option<String>,
    version_file_1: Option<String>,
    compare_data: Option<String>,
    version_file_2: Option<String>,
) -> (result: Result<TextDiff, OxenError>)
    ensures
        result matches Ok(d) && name_view(d.filename1) == name_view(version_file_1) && name_view(
            d.filename2,
        ) == name_view(version_file_2) && exists|groups: Seq<Vec<LineChange>>|
            lines_view(d.lines@) == diff_lines_spec(groups) && groups_fit(
                groups,
                line_tokens(text_or_empty(original_data)),
                line_tokens(text_or_empty(compare_data)),
            ) && groups_keep_context(
                groups,
                line_tokens(text_or_empty(original_data)).len() as int,
                line_tokens(text_or_empty(compare_data)).len() as int,
                CONTEXT_LINES as int,
            ),
        result matches Ok(d) && (text_or_empty(original_data) == text_or_empty(compare_data) ==> d.lines@.len() == 0),
        result matches Ok(d) && (text_or_empty(original_data) != text_or_empty(compare_data) ==> exists|i: int|
            0 <= i < d.lines@.len() && d.lines@[i].modification != ChangeType::Unchanged),
        result matches Ok(d) && forall|t: Seq<char>|
            #[trigger] line_tokens(text_or_empty(compare_data)).contains(t) && !line_tokens(
                text_or_empty(original_data),
            ).contains(t) ==> exists|i: int|
                0 <= i < d.lines@.len() && d.lines@[i]@ == (LineDiffView {
                    modification: ChangeType::Added,
                    text: strip_line_ending_spec(t),
                }),
        result matches Ok(d) && forall|t: Seq<char>|
            #[trigger] line_tokens(text_or_empty(original_data)).contains(t) && !line_tokens(
                text_or_empty(compare_data),
            ).contains(t) ==> exists|i: int|
                0 <= i < d.lines@.len() && d.lines@[i]@ == (LineDiffView {
                    modification: ChangeType::Removed,
                    text: strip_line_ending_spec(t),
                }),
        result matches Ok(d) && forall|i: int|
            0 <= i < d.lines@.len() ==> line_from_texts(
                #[trigger] d.lines@[i]@,
                line_tokens(text_or_empty(original_data)),
                line_tokens(text_or_empty(compare_data)),
            ),
{
    let original_data = match original_data {
        Some(s) => s,
        None => String::new(),
    };
    let compare_data = match compare_data {
        Some(s) => s,
        None => String::new(),
    };
    let groups = grouped_line_changes(
        original_data.as_str(),
        compare_data.as_str(),
        CONTEXT_LINES,
        DIFF_TIMEOUT_MS,
    );
    let ghost gs = groups@;
    let ghost a = original_data@;
    let ghost b = compare_data@;
    let d = text_diff_from_groups(version_file_1, version_file_2, groups);
    proof {
        let lv = lines_view(d.lines@);
        assert(lv == diff_lines_spec(gs));
        if a != b {
            assert(!all_unchanged(gs));
            let (g, j) = choose|g: int, j: int|
                0 <= g < gs.len() && 0 <= j < gs[g]@.len() && gs[g]@[j].tag != ChangeTag::Equal;
            lemma_grouped_lines_contain(gs, g, j);
            let i = choose|i: int|
                0 <= i < grouped_lines(gs).len() && grouped_lines(gs)[i] == group_lines(gs[g]@)[j];
            assert(lv[i] == d.lines@[i]@);
            assert(d.lines@[i].modification != ChangeType::Unchanged);
        }
        assert forall|t: Seq<char>|
            #[trigger] line_tokens(b).contains(t) && !line_tokens(a).contains(t) implies exists|i: int|
                0 <= i < d.lines@.len() && d.lines@[i]@ == (LineDiffView {
                    modification: ChangeType::Added,
                    text: strip_line_ending_spec(t),
                }) by {
            let (g, j) = choose|g: int, j: int|
                0 <= g < gs.len() && 0 <= j < gs[g]@.len() && (#[trigger] gs[g]@[j]).tag
                    == ChangeTag::Insert && gs[g]@[j].value@ == t;
            assert(!all_unchanged(gs));
            lemma_grouped_lines_contain(gs, g, j);
            let i = choose|i: int|
                0 <= i < grouped_lines(gs).len() && grouped_lines(gs)[i] == group_lines(gs[g]@)[j];
            assert(lv[i] == d.lines@[i]@);
        }
        assert forall|t: Seq<char>|
            #[trigger] line_tokens(a).contains(t) && !line_tokens(b).contains(t) implies exists|i: int|
                0 <= i < d.lines@.len() && d.lines@[i]@ == (LineDiffView {
                    modification: ChangeType::Removed,
                    text: strip_line_ending_spec(t),
                }) by {
            let (g, j) = choose|g: int, j: int|
                0 <= g < gs.len() && 0 <= j < gs[g]@.len() && (#[trigger] gs[g]@[j]).tag
                    == ChangeTag::Delete && gs[g]@[j].value@ == t;
            assert(!all_unchanged(gs));
            lemma_grouped_lines_contain(gs, g, j);
            let i = choose|i: int|
                0 <= i < grouped_lines(gs).len() && grouped_lines(gs)[i] == group_lines(gs[g]@)[j];
            assert(lv[i] == d.lines@[i]@);
        }
        let ta = line_tokens(a);
        let tb = line_tokens(b);
        assert forall|i: int| 0 <= i < d.lines@.len() implies line_from_texts(
            #[trigger] d.lines@[i]@,
            ta,
            tb,
        ) by {
            assert(lv[i] == d.lines@[i]@);
            if !all_unchanged(gs) {
                lemma_line_from_texts(gs, ta, tb, i);
            }
        }
    }
    Ok(d)
}

} // verus!
