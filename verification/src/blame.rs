//! Line blame: which commit last changed each line of a file.
//!
//! The history is walked from the newest commit back. Every line of the head
//! version starts out "active" at its own position. At each commit that
//! changed the file, the file is diffed against the commit's first parent:
//! active lines inside inserted or replaced ranges are attributed to the
//! commit, active lines inside unchanged ranges move to their position in the
//! parent and stay active, and all others are dropped.

use crate::error::OxenError;
use crate::model::{Commit, CommitView};
use crate::model::strings_equal;
use crate::text::{split_lines, split_lines_spec};
use similar::{Algorithm, DiffTag, TextDiff};
use std::ops::Range;
use vstd::prelude::*;
use vstd::string::StringSliceAdditionalSpecFns;
use vstd::utf8::is_char_boundary;

verus! {

/// A line of the head version still looking for the commit that introduced
/// it: its position in the file version under consideration, and its index in
/// the head version.
#[derive(Clone, Copy, Debug, PartialEq, Eq, Structural)]
pub struct ActiveLine {
    pub position: usize,
    pub head_index: usize,
}

/// A line of the head version with the commit that last changed it.
#[derive(Debug)]
pub struct BlameLine {
    pub line_number: usize,
    pub commit: Commit,
    pub content: String,
}

pub struct BlameLineView {
    pub line_number: usize,
    pub commit: CommitView,
    pub content: Seq<char>,
}

impl View for BlameLine {
    type V = BlameLineView;

    open spec fn view(&self) -> BlameLineView {
        BlameLineView { line_number: self.line_number, commit: self.commit@, content: self.content@ }
    }
}

/// The kind of a diff operation between the parent's lines and a commit's.
#[derive(Clone, Copy, Debug, PartialEq, Eq, Structural)]
pub enum DiffKind {
    Equal,
    Delete,
    Insert,
    Replace,
}

/// A diff operation: the parent's lines `old_start..old_end` relate to the
/// commit's lines `new_start..new_end` as `kind` says.
#[derive(Clone, Copy, Debug, PartialEq, Eq, Structural)]
pub struct DiffSpan {
    pub kind: DiffKind,
    pub old_start: usize,
    pub old_end: usize,
    pub new_start: usize,
    pub new_end: usize,
}

/// The shape every diff operation has: ordered bounds within both versions;
/// an equal range has the same lines on both sides, a deletion has an empty
/// new range and an insertion an empty old range.
pub open spec fn span_fits(span: DiffSpan, old: Seq<Seq<char>>, new: Seq<Seq<char>>) -> bool {
    &&& span.old_start <= span.old_end <= old.len()
    &&& span.new_start <= span.new_end <= new.len()
    &&& span.kind == DiffKind::Equal ==> old.subrange(span.old_start as int, span.old_end as int)
        == new.subrange(span.new_start as int, span.new_end as int)
    &&& span.kind == DiffKind::Delete ==> span.new_start == span.new_end
    &&& span.kind == DiffKind::Insert ==> span.old_start == span.old_end
}

/// The operations follow each other without gap or overlap over both line
/// lists: the first starts both lists, each starts where the one before
/// ends, and the last ends both (no operation at all when both are empty).
pub open spec fn spans_tile(ops: Seq<DiffSpan>, old_len: int, new_len: int) -> bool {
    &&& ops.len() == 0 ==> old_len == 0 && new_len == 0
    &&& ops.len() > 0 ==> {
        &&& ops[0].old_start == 0
        &&& ops[0].new_start == 0
        &&& ops.last().old_end == old_len
        &&& ops.last().new_end == new_len
    }
    &&& forall|i: int, k: int|
        0 <= i && k == i + 1 && k < ops.len() ==> #[trigger] ops[i].old_end == #[trigger] ops[k].old_start
            && ops[i].new_end == ops[k].new_start
}

/// Names the operations of the patience line diff that `similar` computes
/// from `old` to `new`.
pub uninterp spec fn patience_line_ops(old: Seq<Seq<char>>, new: Seq<Seq<char>>) -> Seq<DiffSpan>;

/// Calls `similar::TextDiff::configure().algorithm(Patience).diff_slices` and
/// reads its operations through `DiffOp::as_tag_tuple`. Trusted: the result
/// is `patience_line_ops` of the two line lists, each operation has the
/// shape that `as_tag_tuple` documents (`span_fits`), and the operations, as
/// the diff hook records them in order, cover both lists from start to end
/// (`spans_tile`).
#[verifier::external_body]
fn diff_line_slices(old: &Vec<String>, new: &Vec<String>) -> (ops: Vec<DiffSpan>)
    ensures
        ops@ == patience_line_ops(old.deep_view(), new.deep_view()),
        forall|i: int|
            0 <= i < ops.len() ==> span_fits(#[trigger] ops[i], old.deep_view(), new.deep_view()),
        spans_tile(ops@, old.len() as int, new.len() as int),
{
    let old_refs: Vec<&str> = old.iter().map(String::as_str).collect();
    let new_refs: Vec<&str> = new.iter().map(String::as_str).collect();
    let diff = TextDiff::configure().algorithm(Algorithm::Patience).diff_slices(&old_refs, &new_refs);
    diff.ops().iter().map(|op| {
        let (tag, old_range, new_range) = op.as_tag_tuple();
        let kind = match tag {
            DiffTag::Equal => DiffKind::Equal,
            DiffTag::Delete => DiffKind::Delete,
            DiffTag::Insert => DiffKind::Insert,
            DiffTag::Replace => DiffKind::Replace,
        };
        let (old_start, old_end, new_start, new_end) = (old_range.start, old_range.end, new_range.start, new_range.end);
        DiffSpan { kind, old_start, old_end, new_start, new_end }
    }).collect()
}

/// Whether an active line lies in `start..end`.
pub open spec fn in_range(start: int, end: int) -> spec_fn(ActiveLine) -> bool {
    |l: ActiveLine| start <= l.position && l.position < end
}

/// The active lines that lie in `start..end`, in order.
pub open spec fn lines_in_range(active: Seq<ActiveLine>, start: int, end: int) -> Seq<ActiveLine> {
    active.filter(in_range(start, end))
}

/// The lines of an equal range, moved to their positions in the parent.
pub open spec fn shifted(lines: Seq<ActiveLine>, span: DiffSpan) -> Seq<ActiveLine> {
    lines.map_values(
        |l: ActiveLine|
            ActiveLine {
                position: (span.old_start + (l.position - span.new_start)) as usize,
                head_index: l.head_index,
            },
    )
}

/// The lines that stay active after the operations: those in equal ranges,
/// moved to the parent, in the order of the operations.
pub open spec fn moved_lines(active: Seq<ActiveLine>, ops: Seq<DiffSpan>) -> Seq<ActiveLine>
    decreases ops.len(),
{
    if ops.len() == 0 {
        Seq::empty()
    } else {
        let span = ops.last();
        let prev = moved_lines(active, ops.drop_last());
        if span.kind == DiffKind::Equal {
            prev + shifted(lines_in_range(active, span.new_start as int, span.new_end as int), span)
        } else {
            prev
        }
    }
}

/// Whether some inserted or replaced range holds an active line of head
/// index `h`.
pub open spec fn touched_by(active: Seq<ActiveLine>, ops: Seq<DiffSpan>, h: int) -> bool {
    exists|i: int, j: int|
        #![trigger ops[i], active[j]]
        0 <= i < ops.len() && 0 <= j < active.len() && (ops[i].kind == DiffKind::Insert
            || ops[i].kind == DiffKind::Replace) && active[j].head_index == h && ops[i].new_start
            <= active[j].position < ops[i].new_end
}

/// The attributions after the operations: a line keeps the commit it already
/// has, and a line touched by an insertion or replacement gets `commit`.
pub open spec fn annotated(
    ann: Seq<Option<usize>>,
    active: Seq<ActiveLine>,
    ops: Seq<DiffSpan>,
    commit: usize,
) -> Seq<Option<usize>> {
    Seq::new(
        ann.len(),
        |h: int|
            if ann[h] is Some {
                ann[h]
            } else if touched_by(active, ops, h) {
                Some(commit)
            } else {
                None
            },
    )
}

/// Every active line refers to a line of the head version.
pub open spec fn active_wf(active: Seq<ActiveLine>, head_len: int) -> bool {
    forall|j: int| 0 <= j < active.len() ==> (#[trigger] active[j]).head_index < head_len
}

/// Every spanning operation has ordered bounds, and an equal range has the
/// same length on both sides.
pub open spec fn spans_ordered(ops: Seq<DiffSpan>) -> bool {
    forall|i: int|
        0 <= i < ops.len() ==> {
            &&& (#[trigger] ops[i]).old_start <= ops[i].old_end
            &&& ops[i].new_start <= ops[i].new_end
            &&& ops[i].kind == DiffKind::Equal ==> ops[i].old_end - ops[i].old_start
                == ops[i].new_end - ops[i].new_start
        }
}

/// The active lines that lie in `range`, in order.
pub fn active_lines_in_range(active_lines: &[ActiveLine], range: Range<usize>) -> (r: Vec<
    ActiveLine,
>)
    ensures
        r@ == lines_in_range(active_lines@, range.start as int, range.end as int),
{
    let ghost pred = in_range(range.start as int, range.end as int);
    let mut r: Vec<ActiveLine> = Vec::new();
    for i in 0..active_lines.len()
        invariant
            pred == in_range(range.start as int, range.end as int),
            r@ == active_lines@.take(i as int).filter(pred),
    {
        let line = active_lines[i];
        proof {
            assert(active_lines@.take(i + 1) =~= active_lines@.take(i as int).push(line));
            active_lines@.take(i as int).lemma_filter_push(line, pred);
        }
        if range.start <= line.position && line.position < range.end {
            r.push(line);
        }
    }
    proof {
        assert(active_lines@.take(active_lines@.len() as int) =~= active_lines@);
    }
    r
}

proof fn lemma_in_filter<A>(s: Seq<A>, p: spec_fn(A) -> bool, j: int)
    requires
        0 <= j < s.len(),
        p(s[j]),
    ensures
        exists|k: int| 0 <= k < s.filter(p).len() && s.filter(p)[k] == s[j],
{
    s.lemma_filter_contains(p, j);
}

proof fn lemma_from_filter<A>(s: Seq<A>, p: spec_fn(A) -> bool, k: int)
    requires
        0 <= k < s.filter(p).len(),
    ensures
        exists|j: int| 0 <= j < s.len() && s[j] == s.filter(p)[k] && p(s[j]),
{
    s.lemma_filter_pred(p, k);
    assert(s.filter(p).contains(s.filter(p)[k]));
    s.lemma_filter_contains_rev(p, s.filter(p)[k]);
}

/// A position within the new lines lies in the new range of some operation
/// of a tiling.
proof fn lemma_tile_covers(ops: Seq<DiffSpan>, old_len: int, new_len: int, p: int)
    requires
        spans_tile(ops, old_len, new_len),
        forall|i: int| 0 <= i < ops.len() ==> (#[trigger] ops[i]).new_start <= ops[i].new_end,
        0 <= p < new_len,
    ensures
        exists|i: int| 0 <= i < ops.len() && (#[trigger] ops[i]).new_start <= p < ops[i].new_end,
    decreases ops.len(),
{
    let n = ops.len() as int;
    let last = ops[n - 1];
    if last.new_start as int <= p {
        assert(ops[n - 1].new_start <= p < ops[n - 1].new_end);
    } else {
        let prefix = ops.drop_last();
        assert(n >= 2) by {
            if n == 1 {
                assert(ops[0] == last);
            }
        }
        let a = ops[n - 2];
        let b = ops[n - 1];
        assert(a.old_end == b.old_start && a.new_end == b.new_start);
        assert(spans_tile(prefix, ops[n - 2].old_end as int, ops[n - 2].new_end as int)) by {
            assert forall|i: int, k: int|
                0 <= i && k == i + 1 && k < prefix.len() implies #[trigger] prefix[i].old_end
                == #[trigger] prefix[k].old_start && prefix[i].new_end == prefix[k].new_start by {
                assert(prefix[i] == ops[i] && prefix[k] == ops[k]);
            }
        }
        lemma_tile_covers(prefix, ops[n - 2].old_end as int, ops[n - 2].new_end as int, p);
        let i = choose|i: int| 0 <= i < prefix.len() && (#[trigger] prefix[i]).new_start <= p < prefix[i].new_end;
        assert(ops[i] == prefix[i]);
    }
}

/// An active line inside the new range of an equal operation stays active,
/// at the same offset in the operation's old range.
proof fn lemma_moved_contains(active: Seq<ActiveLine>, ops: Seq<DiffSpan>, i: int, j: int)
    requires
        0 <= i < ops.len(),
        ops[i].kind == DiffKind::Equal,
        ops[i].old_start <= ops[i].old_end,
        ops[i].old_end - ops[i].old_start == ops[i].new_end - ops[i].new_start,
        0 <= j < active.len(),
        ops[i].new_start <= active[j].position < ops[i].new_end,
    ensures
        exists|k: int|
            0 <= k < moved_lines(active, ops).len() && (#[trigger] moved_lines(active, ops)[k]).head_index
                == active[j].head_index && moved_lines(active, ops)[k].position == ops[i].old_start
                + active[j].position - ops[i].new_start,
    decreases ops.len(),
{
    let n = ops.len() as int;
    let prev = moved_lines(active, ops.drop_last());
    if i == n - 1 {
        let span = ops[i];
        let pred = in_range(span.new_start as int, span.new_end as int);
        lemma_in_filter(active, pred, j);
        let q = choose|q: int|
            0 <= q < active.filter(pred).len() && #[trigger] active.filter(pred)[q] == active[j];
        let sh = shifted(lines_in_range(active, span.new_start as int, span.new_end as int), span);
        assert(moved_lines(active, ops) == prev + sh);
        assert(moved_lines(active, ops)[prev.len() + q] == sh[q]);
    } else {
        assert(ops.drop_last()[i] == ops[i]);
        lemma_moved_contains(active, ops.drop_last(), i, j);
        let k = choose|k: int|
            0 <= k < prev.len() && (#[trigger] prev[k]).head_index == active[j].head_index
                && prev[k].position == ops[i].old_start + active[j].position - ops[i].new_start;
        assert(moved_lines(active, ops)[k] == prev[k]);
    }
}

/// Every line that stays active comes from an active line inside the new
/// range of an equal operation.
proof fn lemma_moved_from(active: Seq<ActiveLine>, ops: Seq<DiffSpan>, k: int)
    requires
        0 <= k < moved_lines(active, ops).len(),
    ensures
        exists|i: int, j: int|
            0 <= i < ops.len() && 0 <= j < active.len() && (#[trigger] ops[i]).kind == DiffKind::Equal
                && ops[i].new_start <= (#[trigger] active[j]).position < ops[i].new_end
                && active[j].head_index == moved_lines(active, ops)[k].head_index,
    decreases ops.len(),
{
    let n = ops.len() as int;
    let prev = moved_lines(active, ops.drop_last());
    if k < prev.len() {
        if ops.len() > 0 && ops[n - 1].kind == DiffKind::Equal {
            let span = ops[n - 1];
            let sh = shifted(lines_in_range(active, span.new_start as int, span.new_end as int), span);
            assert(moved_lines(active, ops) == prev + sh);
        }
        assert(moved_lines(active, ops)[k] == prev[k]);
        lemma_moved_from(active, ops.drop_last(), k);
        let (i, j) = choose|i: int, j: int|
            0 <= i < ops.drop_last().len() && 0 <= j < active.len() && (#[trigger] ops.drop_last()[i]).kind
                == DiffKind::Equal && ops.drop_last()[i].new_start <= (#[trigger] active[j]).position
                < ops.drop_last()[i].new_end && active[j].head_index == prev[k].head_index;
        assert(ops.drop_last()[i] == ops[i]);
    } else {
        let span = ops[n - 1];
        let pred = in_range(span.new_start as int, span.new_end as int);
        let sh = shifted(lines_in_range(active, span.new_start as int, span.new_end as int), span);
        assert(span.kind == DiffKind::Equal);
        assert(moved_lines(active, ops) == prev + sh);
        let q = k - prev.len();
        lemma_from_filter(active, pred, q);
        let j = choose|j: int| 0 <= j < active.len() && active[j] == active.filter(pred)[q] && pred(active[j]);
        assert(moved_lines(active, ops)[k] == sh[q]);
        assert(ops[n - 1].new_start <= active[j].position < ops[n - 1].new_end);
    }
}

/// In a tiling, an earlier operation's new range ends before a later one's
/// begins.
proof fn lemma_tile_ordered(ops: Seq<DiffSpan>, old_len: int, new_len: int, i: int, m: int)
    requires
        spans_tile(ops, old_len, new_len),
        forall|x: int| 0 <= x < ops.len() ==> (#[trigger] ops[x]).new_start <= ops[x].new_end,
        0 <= i < m < ops.len(),
    ensures
        ops[i].new_end <= ops[m].new_start,
    decreases m - i,
{
    let a = ops[m - 1];
    let b = ops[m];
    assert(a.old_end == b.old_start && a.new_end == b.new_start);
    if i < m - 1 {
        lemma_tile_ordered(ops, old_len, new_len, i, m - 1);
        assert(ops[m - 1].new_start <= ops[m - 1].new_end);
    }
}

/// No line stays active when every equal operation is empty on the new side.
proof fn lemma_moved_empty(active: Seq<ActiveLine>, ops: Seq<DiffSpan>)
    requires
        forall|i: int|
            0 <= i < ops.len() && (#[trigger] ops[i]).kind == DiffKind::Equal ==> ops[i].new_start
                == ops[i].new_end,
    ensures
        moved_lines(active, ops).len() == 0,
    decreases ops.len(),
{
    if ops.len() > 0 {
        let n = ops.len() as int;
        assert forall|i: int|
            0 <= i < ops.drop_last().len() && (#[trigger] ops.drop_last()[i]).kind == DiffKind::Equal
                implies ops.drop_last()[i].new_start == ops.drop_last()[i].new_end by {
            assert(ops.drop_last()[i] == ops[i]);
        }
        lemma_moved_empty(active, ops.drop_last());
        let span = ops[n - 1];
        if span.kind == DiffKind::Equal {
            let pred = in_range(span.new_start as int, span.new_end as int);
            if active.filter(pred).len() > 0 {
                lemma_from_filter(active, pred, 0);
            }
        }
    }
}

/// Whether the active lines refer to different head lines.
pub open spec fn heads_distinct(active: Seq<ActiveLine>) -> bool {
    forall|a: int, b: int|
        0 <= a < b < active.len() ==> (#[trigger] active[a]).head_index != (#[trigger] active[b]).head_index
}

/// Whether the active line `l` stays active, at a parent line equal to its
/// line in the commit's version.
pub open spec fn moved_with_text(
    l: ActiveLine,
    after: Seq<ActiveLine>,
    parent: Seq<Seq<char>>,
    version: Seq<Seq<char>>,
) -> bool {
    exists|k: int|
        0 <= k < after.len() && (#[trigger] after[k]).head_index == l.head_index && after[k].position
            < parent.len() && parent[after[k].position as int] == version[l.position as int]
}

/// At a commit that changed the file, every active line within the commit's
/// version either stays active, at a parent line with the same text, or has
/// a commit; where the active lines refer to different head lines and the
/// line had no commit yet, exactly one of the two happens, the commit being
/// this one. Every line that stays active was active before.
pub open spec fn each_line_moved_or_attributed(
    before: Seq<ActiveLine>,
    after: Seq<ActiveLine>,
    ann_before: Seq<Option<usize>>,
    ann: Seq<Option<usize>>,
    commit: usize,
    parent: Seq<Seq<char>>,
    version: Seq<Seq<char>>,
) -> bool {
    &&& forall|j: int|
        0 <= j < before.len() && (#[trigger] before[j]).position < version.len() ==> moved_with_text(
            before[j],
            after,
            parent,
            version,
        ) || ann[before[j].head_index as int] is Some
    &&& forall|j: int|
        0 <= j < before.len() && (#[trigger] before[j]).position < version.len() && heads_distinct(
            before,
        ) && ann_before[before[j].head_index as int] is None ==> (moved_with_text(
            before[j],
            after,
            parent,
            version,
        ) && ann[before[j].head_index as int] is None) || (!moved_with_text(
            before[j],
            after,
            parent,
            version,
        ) && ann[before[j].head_index as int] == Some(commit))
    &&& forall|k: int| 0 <= k < after.len() ==> was_active(#[trigger] after[k], before)
}

/// Whether an active line with the head index of `l` was among `before`.
pub open spec fn was_active(l: ActiveLine, before: Seq<ActiveLine>) -> bool {
    exists|j: int| 0 <= j < before.len() && (#[trigger] before[j]).head_index == l.head_index
}

/// The lines of a version of the file (none where the file is absent).
pub open spec fn version_lines(v: Option<Seq<char>>) -> Seq<Seq<char>> {
    match v {
        Some(t) => split_lines_spec(t),
        None => Seq::empty(),
    }
}

/// Applying a tiling diff: each active line within the new lines is moved
/// (it lies in an equal range, whose lines are the same on both sides) or
/// attributed (an inserted or replaced range), since a deletion holds no new
/// line, and never both when head lines are distinct; and nothing stays
/// active when the old side has no lines.
proof fn lemma_apply_tiling(
    active: Seq<ActiveLine>,
    ann: Seq<Option<usize>>,
    ops: Seq<DiffSpan>,
    commit: usize,
    old: Seq<Seq<char>>,
    new: Seq<Seq<char>>,
)
    requires
        active_wf(active, ann.len() as int),
        spans_tile(ops, old.len() as int, new.len() as int),
        forall|i: int| 0 <= i < ops.len() ==> span_fits(#[trigger] ops[i], old, new),
    ensures
        each_line_moved_or_attributed(
            active,
            moved_lines(active, ops),
            ann,
            annotated(ann, active, ops, commit),
            commit,
            old,
            new,
        ),
        old.len() == 0 ==> moved_lines(active, ops).len() == 0,
{
    let moved = moved_lines(active, ops);
    let ann2 = annotated(ann, active, ops, commit);
    assert forall|i: int| 0 <= i < ops.len() implies (#[trigger] ops[i]).new_start <= ops[i].new_end by {
        assert(span_fits(ops[i], old, new));
    }
    assert forall|j: int|
        0 <= j < active.len() && (#[trigger] active[j]).position < new.len() implies {
        &&& moved_with_text(active[j], moved, old, new) || ann2[active[j].head_index as int] is Some
        &&& heads_distinct(active) && ann[active[j].head_index as int] is None ==> (moved_with_text(
            active[j],
            moved,
            old,
            new,
        ) && ann2[active[j].head_index as int] is None) || (!moved_with_text(active[j], moved, old, new)
            && ann2[active[j].head_index as int] == Some(commit))
    } by {
        lemma_tile_covers(ops, old.len() as int, new.len() as int, active[j].position as int);
        let i = choose|i: int|
            0 <= i < ops.len() && (#[trigger] ops[i]).new_start <= active[j].position < ops[i].new_end;
        assert(span_fits(ops[i], old, new));
        let h = active[j].head_index as int;
        if ops[i].kind == DiffKind::Equal {
            let span = ops[i];
            assert(old.subrange(span.old_start as int, span.old_end as int).len() == new.subrange(
                span.new_start as int,
                span.new_end as int,
            ).len());
            lemma_moved_contains(active, ops, i, j);
            let k = choose|k: int|
                0 <= k < moved.len() && (#[trigger] moved[k]).head_index == active[j].head_index
                    && moved[k].position == span.old_start + active[j].position - span.new_start;
            let d = active[j].position - span.new_start;
            assert(old.subrange(span.old_start as int, span.old_end as int)[d] == new.subrange(
                span.new_start as int,
                span.new_end as int,
            )[d]);
            assert(moved_with_text(active[j], moved, old, new));
            if heads_distinct(active) && ann[h] is None {
                if touched_by(active, ops, h) {
                    let (i2, j2) = choose|i2: int, j2: int|
                        #![trigger ops[i2], active[j2]]
                        0 <= i2 < ops.len() && 0 <= j2 < active.len() && (ops[i2].kind == DiffKind::Insert
                            || ops[i2].kind == DiffKind::Replace) && active[j2].head_index == h
                            && ops[i2].new_start <= active[j2].position < ops[i2].new_end;
                    if j2 != j {
                        if j2 < j {
                            assert(active[j2].head_index != active[j].head_index);
                        } else {
                            assert(active[j].head_index != active[j2].head_index);
                        }
                    }
                    if i < i2 {
                        lemma_tile_ordered(ops, old.len() as int, new.len() as int, i, i2);
                    } else {
                        lemma_tile_ordered(ops, old.len() as int, new.len() as int, i2, i);
                    }
                }
            }
        } else if ops[i].kind == DiffKind::Delete {
            assert(false);
        } else {
            assert(touched_by(active, ops, h));
            assert(ann2[h] is Some);
            if heads_distinct(active) && ann[h] is None && moved_with_text(active[j], moved, old, new) {
                let k = choose|k: int|
                    0 <= k < moved.len() && (#[trigger] moved[k]).head_index == active[j].head_index
                        && moved[k].position < old.len() && old[moved[k].position as int]
                        == new[active[j].position as int];
                lemma_moved_from(active, ops, k);
                let (i2, j2) = choose|i2: int, j2: int|
                    0 <= i2 < ops.len() && 0 <= j2 < active.len() && (#[trigger] ops[i2]).kind
                        == DiffKind::Equal && ops[i2].new_start <= (#[trigger] active[j2]).position
                        < ops[i2].new_end && active[j2].head_index == moved[k].head_index;
                if j2 != j {
                    if j2 < j {
                        assert(active[j2].head_index != active[j].head_index);
                    } else {
                        assert(active[j].head_index != active[j2].head_index);
                    }
                }
                if i < i2 {
                    lemma_tile_ordered(ops, old.len() as int, new.len() as int, i, i2);
                } else {
                    lemma_tile_ordered(ops, old.len() as int, new.len() as int, i2, i);
                }
            }
        }
    }
    assert forall|k: int| 0 <= k < moved.len() implies was_active(#[trigger] moved[k], active) by {
        lemma_moved_from(active, ops, k);
    }
    if old.len() == 0 {
        assert forall|i: int|
            0 <= i < ops.len() && (#[trigger] ops[i]).kind == DiffKind::Equal implies ops[i].new_start
            == ops[i].new_end by {
            assert(span_fits(ops[i], old, new));
            assert(old.subrange(ops[i].old_start as int, ops[i].old_end as int).len() == 0);
        }
        lemma_moved_empty(active, ops);
    }
}

/// Applies the diff operations of one commit: attributes the active lines in
/// inserted or replaced ranges to `commit`, where they have no commit yet, and
/// returns the lines of equal ranges moved to the parent.
pub fn apply_diff_ops(
    active_lines: &Vec<ActiveLine>,
    annotations: &mut Vec<Option<usize>>,
    ops: &Vec<DiffSpan>,
    commit: usize,
) -> (next: Vec<ActiveLine>)
    requires
        active_wf(active_lines@, old(annotations)@.len() as int),
        spans_ordered(ops@),
    ensures
        next@ == moved_lines(active_lines@, ops@),
        final(annotations)@ == annotated(old(annotations)@, active_lines@, ops@, commit),
        active_wf(next@, old(annotations)@.len() as int),
{
    let ghost orig = annotations@;
    let mut next: Vec<ActiveLine> = Vec::new();
    proof {
        assert(annotations@ =~= annotated(orig, active_lines@, ops@.take(0), commit));
    }
    for k in 0..ops.len()
        invariant
            spans_ordered(ops@),
            active_wf(active_lines@, orig.len() as int),
            annotations@.len() == orig.len(),
            next@ == moved_lines(active_lines@, ops@.take(k as int)),
            annotations@ == annotated(orig, active_lines@, ops@.take(k as int), commit),
            active_wf(next@, orig.len() as int),
    {
        let span = ops[k];
        let ghost done = ops@.take(k as int);
        let ghost before = annotations@;
        proof {
            assert(ops@.take(k + 1).drop_last() =~= done);
            assert(ops@.take(k + 1).last() == span);
        }
        let in_span = active_lines_in_range(active_lines, span.new_start..span.new_end);
        let ghost in_view = in_span@;
        proof {
            assert forall|m: int| 0 <= m < in_view.len() implies (#[trigger] in_view[m]).head_index
                < orig.len() && span.new_start <= in_view[m].position < span.new_end by {
                lemma_from_filter(active_lines@, in_range(span.new_start as int, span.new_end as int), m);
            }
        }
        match span.kind {
            DiffKind::Equal => {
                let ghost base = next@;
                for m in 0..in_span.len()
                    invariant
                        in_span@ == in_view,
                        forall|q: int| 0 <= q < in_view.len() ==> (#[trigger] in_view[q]).head_index
                            < orig.len() && span.new_start <= in_view[q].position < span.new_end,
                        span.old_end - span.old_start == span.new_end - span.new_start,
                        span.old_start <= span.old_end,
                        next@ == base + shifted(in_view.take(m as int), span),
                        active_wf(next@, orig.len() as int),
                {
                    let line = in_span[m];
                    let moved = ActiveLine {
                        position: span.old_start + (line.position - span.new_start),
                        head_index: line.head_index,
                    };
                    next.push(moved);
                    proof {
                        assert(in_view.take(m + 1) =~= in_view.take(m as int).push(line));
                        assert(shifted(in_view.take(m + 1), span) =~= shifted(
                            in_view.take(m as int),
                            span,
                        ).push(moved));
                    }
                }
                proof {
                    assert(in_view.take(in_view.len() as int) =~= in_view);
                    assert(annotated(orig, active_lines@, ops@.take(k + 1), commit) =~= before)
                        by {
                        assert forall|h: int| 0 <= h < orig.len() implies touched_by(
                            active_lines@,
                            ops@.take(k + 1),
                            h,
                        ) == touched_by(active_lines@, done, h) by {
                            if touched_by(active_lines@, ops@.take(k + 1), h) {
                                let (i, j) = choose|i: int, j: int|
                                    #![trigger ops@.take(k + 1)[i], active_lines@[j]]
                                    0 <= i < ops@.take(k + 1).len() && 0 <= j
                                        < active_lines@.len() && (ops@.take(k + 1)[i].kind
                                        == DiffKind::Insert || ops@.take(k + 1)[i].kind
                                        == DiffKind::Replace) && active_lines@[j].head_index == h
                                        && ops@.take(k + 1)[i].new_start
                                        <= active_lines@[j].position < ops@.take(k + 1)[i].new_end;
                                assert(i < k);
                                assert(done[i] == ops@.take(k + 1)[i]);
                            }
                            if touched_by(active_lines@, done, h) {
                                let (i, j) = choose|i: int, j: int|
                                    #![trigger done[i], active_lines@[j]]
                                    0 <= i < done.len() && 0 <= j < active_lines@.len() && (
                                    done[i].kind == DiffKind::Insert || done[i].kind
                                        == DiffKind::Replace) && active_lines@[j].head_index == h
                                        && done[i].new_start <= active_lines@[j].position
                                        < done[i].new_end;
                                assert(ops@.take(k + 1)[i] == done[i]);
                            }
                        }
                    }
                }
            },
            DiffKind::Insert | DiffKind::Replace => {
                for m in 0..in_span.len()
                    invariant
                        in_span@ == in_view,
                        forall|q: int| 0 <= q < in_view.len() ==> (#[trigger] in_view[q]).head_index
                            < orig.len() && span.new_start <= in_view[q].position < span.new_end,
                        annotations@.len() == orig.len(),
                        forall|h: int|
                            0 <= h < orig.len() ==> #[trigger] annotations@[h] == if before[h] is Some {
                                before[h]
                            } else if exists|q: int|
                                0 <= q < m && (#[trigger] in_view[q]).head_index == h {
                                Some(commit)
                            } else {
                                None
                            },
                {
                    let line = in_span[m];
                    if annotations[line.head_index].is_none() {
                        annotations.set(line.head_index, Some(commit));
                    }
                    proof {
                        assert forall|h: int| 0 <= h < orig.len() implies #[trigger] annotations@[h]
                            == if before[h] is Some {
                            before[h]
                        } else if exists|q: int|
                            0 <= q < m + 1 && (#[trigger] in_view[q]).head_index == h {
                            Some(commit)
                        } else {
                            None
                        } by {
                            if h == line.head_index {
                                assert(in_view[m as int].head_index == h);
                            }
                        }
                    }
                }
                proof {
                    let after = annotated(orig, active_lines@, ops@.take(k + 1), commit);
                    assert forall|h: int| 0 <= h < orig.len() implies #[trigger] annotations@[h]
                        == after[h] by {
                        let in_done = touched_by(active_lines@, done, h);
                        let in_here = exists|q: int|
                            0 <= q < in_view.len() && (#[trigger] in_view[q]).head_index == h;
                        if in_here {
                            let q = choose|q: int|
                                0 <= q < in_view.len() && (#[trigger] in_view[q]).head_index == h;
                            lemma_from_filter(
                                active_lines@,
                                in_range(span.new_start as int, span.new_end as int),
                                q,
                            );
                            let j = choose|j: int|
                                0 <= j < active_lines@.len() && active_lines@[j] == active_lines@.filter(
                                    in_range(span.new_start as int, span.new_end as int),
                                )[q] && in_range(span.new_start as int, span.new_end as int)(
                                    active_lines@[j],
                                );
                            assert(ops@.take(k + 1)[k as int] == span);
                            assert(touched_by(active_lines@, ops@.take(k + 1), h)) by {
                                assert(0 <= k < ops@.take(k + 1).len());
                                assert(active_lines@[j].head_index == h);
                            }
                        }
                        if in_done {
                            let (i, j) = choose|i: int, j: int|
                                #![trigger done[i], active_lines@[j]]
                                0 <= i < done.len() && 0 <= j < active_lines@.len() && (
                                done[i].kind == DiffKind::Insert || done[i].kind
                                    == DiffKind::Replace) && active_lines@[j].head_index == h
                                    && done[i].new_start <= active_lines@[j].position
                                    < done[i].new_end;
                            assert(ops@.take(k + 1)[i] == done[i]);
                            assert(touched_by(active_lines@, ops@.take(k + 1), h));
                        }
                        if touched_by(active_lines@, ops@.take(k + 1), h) {
                            let (i, j) = choose|i: int, j: int|
                                #![trigger ops@.take(k + 1)[i], active_lines@[j]]
                                0 <= i < ops@.take(k + 1).len() && 0 <= j < active_lines@.len()
                                    && (ops@.take(k + 1)[i].kind == DiffKind::Insert || ops@.take(
                                    k + 1,
                                )[i].kind == DiffKind::Replace) && active_lines@[j].head_index
                                    == h && ops@.take(k + 1)[i].new_start
                                    <= active_lines@[j].position < ops@.take(k + 1)[i].new_end;
                            if i < k {
                                assert(done[i] == ops@.take(k + 1)[i]);
                                assert(in_done);
                            } else {
                                lemma_in_filter(
                                    active_lines@,
                                    in_range(span.new_start as int, span.new_end as int),
                                    j,
                                );
                                let q = choose|q: int|
                                    0 <= q < in_view.len() && in_view[q] == active_lines@[j];
                                assert(in_view[q].head_index == h);
                                assert(in_here);
                            }
                        }
                    }
                    assert(annotations@ =~= after);
                }
            },
            DiffKind::Delete => {
                proof {
                    assert(annotated(orig, active_lines@, ops@.take(k + 1), commit) =~= before)
                        by {
                        assert forall|h: int| 0 <= h < orig.len() implies touched_by(
                            active_lines@,
                            ops@.take(k + 1),
                            h,
                        ) == touched_by(active_lines@, done, h) by {
                            if touched_by(active_lines@, ops@.take(k + 1), h) {
                                let (i, j) = choose|i: int, j: int|
                                    #![trigger ops@.take(k + 1)[i], active_lines@[j]]
                                    0 <= i < ops@.take(k + 1).len() && 0 <= j
                                        < active_lines@.len() && (ops@.take(k + 1)[i].kind
                                        == DiffKind::Insert || ops@.take(k + 1)[i].kind
                                        == DiffKind::Replace) && active_lines@[j].head_index == h
                                        && ops@.take(k + 1)[i].new_start
                                        <= active_lines@[j].position < ops@.take(k + 1)[i].new_end;
                                assert(i < k);
                                assert(done[i] == ops@.take(k + 1)[i]);
                            }
                            if touched_by(active_lines@, done, h) {
                                let (i, j) = choose|i: int, j: int|
                                    #![trigger done[i], active_lines@[j]]
                                    0 <= i < done.len() && 0 <= j < active_lines@.len() && (
                                    done[i].kind == DiffKind::Insert || done[i].kind
                                        == DiffKind::Replace) && active_lines@[j].head_index == h
                                        && done[i].new_start <= active_lines@[j].position
                                        < done[i].new_end;
                                assert(ops@.take(k + 1)[i] == done[i]);
                            }
                        }
                    }
                }
            },
        }
    }
    proof {
        assert(ops@.take(ops@.len() as int) =~= ops@);
    }
    next
}

/// The version of the file at a commit of the history, with the version at
/// the commit's first parent (`None`: the file does not exist there).
#[derive(Debug)]
pub struct CommitSnapshot {
    pub commit: Commit,
    pub content: Option<String>,
    pub parent_content: Option<String>,
}

pub open spec fn opt_text(o: Option<String>) -> Option<Seq<char>> {
    match o {
        Some(s) => Some(s@),
        None => None,
    }
}

/// The state of a blame walk: the lines still active, and the commit (by its
/// position in the history) attributed to each head line so far.
pub struct BlameState {
    pub active: Seq<ActiveLine>,
    pub annotations: Seq<Option<usize>>,
}

pub open spec fn state_of(active: Seq<ActiveLine>, annotations: Seq<Option<usize>>) -> BlameState {
    BlameState { active, annotations }
}

/// The blame line of head line `i` (counted from 0).
pub open spec fn blame_line_view(i: int, commit: CommitView, content: Seq<char>) -> BlameLineView {
    BlameLineView { line_number: (i + 1) as usize, commit, content }
}

/// Before any commit: every head line active at its own position.
pub open spec fn initial_state(n: nat) -> BlameState {
    BlameState {
        active: Seq::new(n, |i: int| ActiveLine { position: i as usize, head_index: i as usize }),
        annotations: Seq::new(n, |i: int| None::<usize>),
    }
}

/// One commit of the walk (see [`blame_commit`]).
pub open spec fn blame_step(
    state: BlameState,
    commit: usize,
    content: Option<Seq<char>>,
    parent: Option<Seq<char>>,
) -> BlameState {
    match content {
        None => state,
        Some(c) => {
            let commit_lines = split_lines_spec(c);
            let parent_lines = match parent {
                Some(p) => split_lines_spec(p),
                None => Seq::empty(),
            };
            if commit_lines == parent_lines {
                state
            } else {
                let ops = patience_line_ops(parent_lines, commit_lines);
                BlameState {
                    active: moved_lines(state.active, ops),
                    annotations: annotated(state.annotations, state.active, ops, commit),
                }
            }
        },
    }
}

/// The state after the first `k` commits of the history; the walk stops once
/// no line is active.
pub open spec fn blame_after(
    n: nat,
    snaps: Seq<(Option<Seq<char>>, Option<Seq<char>>)>,
    k: nat,
) -> BlameState
    decreases k,
{
    if k == 0 {
        initial_state(n)
    } else {
        let prev = blame_after(n, snaps, (k - 1) as nat);
        if prev.active.len() == 0 {
            prev
        } else {
            blame_step(prev, (k - 1) as usize, snaps[k - 1].0, snaps[k - 1].1)
        }
    }
}

pub open spec fn snapshots_view(history: Seq<CommitSnapshot>) -> Seq<
    (Option<Seq<char>>, Option<Seq<char>>),
> {
    history.map_values(|s: CommitSnapshot| (opt_text(s.content), opt_text(s.parent_content)))
}

pub open spec fn commits_view(history: Seq<CommitSnapshot>) -> Seq<CommitView> {
    history.map_values(|s: CommitSnapshot| s.commit@)
}

/// What blaming gives from the final attributions: every head line with its
/// commit, or the first line that no commit of the history explains.
pub open spec fn blame_outcome(
    head_lines: Seq<Seq<char>>,
    annotations: Seq<Option<usize>>,
    commits: Seq<CommitView>,
    result: Result<Seq<BlameLineView>, OxenError>,
) -> bool {
    match result {
        Ok(lines) => {
            &&& lines.len() == head_lines.len()
            &&& forall|i: int|
                0 <= i < head_lines.len() ==> #[trigger] annotations[i] is Some && lines[i]
                    == blame_line_view(i, commits[annotations[i]->0 as int], head_lines[i])
        },
        Err(e) => {
            &&& e matches OxenError::BlameUnresolved { line_number }
            &&& 1 <= line_number <= head_lines.len()
            &&& annotations[line_number - 1] is None
            &&& forall|i: int| 0 <= i < line_number - 1 ==> #[trigger] annotations[i] is Some
        },
    }
}

pub open spec fn blame_lines_view(r: Result<Vec<BlameLine>, OxenError>) -> Result<
    Seq<BlameLineView>,
    OxenError,
> {
    match r {
        Ok(v) => Ok(v@.map_values(|l: BlameLine| l@)),
        Err(e) => Err(e),
    }
}

/// Every attribution names one of the first `k` commits.
pub open spec fn annotations_below(ann: Seq<Option<usize>>, k: int) -> bool {
    forall|h: int| 0 <= h < ann.len() ==> (#[trigger] ann[h] matches Some(c) ==> c < k)
}

/// Walks one commit of the history: when the file exists there and differs
/// from its first parent's version, applies the patience diff from the
/// parent's lines to the commit's lines (see [`apply_diff_ops`]).
pub fn blame_commit(
    active_lines: &mut Vec<ActiveLine>,
    annotations: &mut Vec<Option<usize>>,
    commit: usize,
    content: &Option<String>,
    parent_content: &Option<String>,
)
    requires
        active_wf(old(active_lines)@, old(annotations)@.len() as int),
    ensures
        state_of(final(active_lines)@, final(annotations)@) == blame_step(
            state_of(old(active_lines)@, old(annotations)@),
            commit,
            opt_text(*content),
            opt_text(*parent_content),
        ),
        active_wf(final(active_lines)@, old(annotations)@.len() as int),
        final(annotations)@.len() == old(annotations)@.len(),
        content is Some && version_lines(opt_text(*content)) != version_lines(
            opt_text(*parent_content),
        ) ==> each_line_moved_or_attributed(
            old(active_lines)@,
            final(active_lines)@,
            old(annotations)@,
            final(annotations)@,
            commit,
            version_lines(opt_text(*parent_content)),
            version_lines(opt_text(*content)),
        ) && (version_lines(opt_text(*parent_content)).len() == 0 ==> final(active_lines)@.len()
            == 0),
{
    let commit_content = match content {
        Some(c) => c,
        None => return ,
    };
    let commit_lines = split_lines(commit_content.as_str());
    let parent_lines = match parent_content {
        Some(p) => split_lines(p.as_str()),
        None => {
            let empty: Vec<String> = Vec::new();
            assert(empty.deep_view() =~= Seq::<Seq<char>>::empty());
            empty
        },
    };
    if strings_equal(&commit_lines, &parent_lines) {
        return ;
    }
    let ops = diff_line_slices(&parent_lines, &commit_lines);
    proof {
        assert forall|i: int| 0 <= i < ops@.len() implies {
            &&& (#[trigger] ops@[i]).old_start <= ops@[i].old_end
            &&& ops@[i].new_start <= ops@[i].new_end
            &&& ops@[i].kind == DiffKind::Equal ==> ops@[i].old_end - ops@[i].old_start
                == ops@[i].new_end - ops@[i].new_start
        } by {
            assert(span_fits(ops[i], parent_lines.deep_view(), commit_lines.deep_view()));
            if ops@[i].kind == DiffKind::Equal {
                let span = ops@[i];
                assert(parent_lines.deep_view().subrange(span.old_start as int, span.old_end as int).len()
                    == commit_lines.deep_view().subrange(span.new_start as int, span.new_end as int).len());
            }
        }
    }
    let ghost before_active = active_lines@;
    let ghost before_ann = annotations@;
    let next = apply_diff_ops(active_lines, annotations, &ops, commit);
    proof {
        lemma_apply_tiling(
            before_active,
            before_ann,
            ops@,
            commit,
            parent_lines.deep_view(),
            commit_lines.deep_view(),
        );
    }
    *active_lines = next;
}

/// Once no line is active the walk is over: the commits after that change
/// nothing.
pub proof fn lemma_blame_after_stops(
    n: nat,
    snaps: Seq<(Option<Seq<char>>, Option<Seq<char>>)>,
    k: nat,
    m: nat,
)
    requires
        k <= m,
        blame_after(n, snaps, k).active.len() == 0,
    ensures
        blame_after(n, snaps, m) == blame_after(n, snaps, k),
    decreases m - k,
{
    if k < m {
        lemma_blame_after_stops(n, snaps, k, (m - 1) as nat);
    }
}

/// A blame walk in progress: the lines of the head version, the lines still
/// active, the commit (by its position in the history) attributed to each
/// head line so far, and how many commits of the history were walked.
pub struct BlameWalk {
    head_lines: Vec<String>,
    active: Vec<ActiveLine>,
    annotations: Vec<Option<usize>>,
    walked: usize,
}

impl BlameWalk {
    #[verifier::type_invariant]
    spec fn well_formed(self) -> bool {
        &&& self.annotations@.len() == self.head_lines@.len()
        &&& active_wf(self.active@, self.annotations@.len() as int)
        &&& annotations_below(self.annotations@, self.walked as int)
    }

    /// The lines of the head version.
    pub closed spec fn head_lines(self) -> Seq<Seq<char>> {
        self.head_lines.deep_view()
    }

    /// The active lines and the attributions so far.
    pub closed spec fn state(self) -> BlameState {
        state_of(self.active@, self.annotations@)
    }

    /// How many commits were walked.
    pub closed spec fn walked(self) -> nat {
        self.walked as nat
    }

    /// The walk before any commit: every head line active at its own position.
    pub fn new(head_content: &str) -> (w: BlameWalk)
        ensures
            w.head_lines() == split_lines_spec(head_content@),
            w.state() == initial_state(split_lines_spec(head_content@).len()),
            w.walked() == 0,
    {
        let head_lines = split_lines(head_content);
        let n = head_lines.len();
        let mut active: Vec<ActiveLine> = Vec::new();
        let mut annotations: Vec<Option<usize>> = Vec::new();
        for i in 0..n
            invariant
                n == head_lines.len(),
                active@ == initial_state(n as nat).active.take(i as int),
                annotations@ == initial_state(n as nat).annotations.take(i as int),
        {
            active.push(ActiveLine { position: i, head_index: i });
            annotations.push(None);
            proof {
                assert(active@ =~= initial_state(n as nat).active.take(i + 1));
                assert(annotations@ =~= initial_state(n as nat).annotations.take(i + 1));
            }
        }
        proof {
            assert(active@ =~= initial_state(n as nat).active);
            assert(annotations@ =~= initial_state(n as nat).annotations);
        }
        BlameWalk { head_lines, active, annotations, walked: 0 }
    }

    /// Whether the walk is over: no line is active any more, so the older
    /// commits of the history need not be read.
    pub fn is_done(&self) -> (r: bool)
        ensures
            r == (self.state().active.len() == 0),
    {
        self.active.len() == 0
    }

    /// Walks the next commit of the history (see [`blame_commit`]), given the
    /// file at that commit and at its first parent.
    pub fn step(self, snapshot: &CommitSnapshot) -> (w: BlameWalk)
        requires
            self.walked() < usize::MAX,
        ensures
            w.state() == blame_step(
                self.state(),
                self.walked() as usize,
                opt_text(snapshot.content),
                opt_text(snapshot.parent_content),
            ),
            w.walked() == self.walked() + 1,
            w.head_lines() == self.head_lines(),
    {
        proof {
            use_type_invariant(&self);
        }
        let BlameWalk { head_lines, mut active, mut annotations, walked } = self;
        let ghost before = annotations@;
        let ghost before_active = active@;
        blame_commit(&mut active, &mut annotations, walked, &snapshot.content, &snapshot.parent_content);
        proof {
            assert forall|h: int| 0 <= h < annotations@.len() implies (#[trigger] annotations@[h] matches Some(
                c,
            ) ==> c < walked + 1) by {
                let next_state = blame_step(
                    state_of(before_active, before),
                    walked,
                    opt_text(snapshot.content),
                    opt_text(snapshot.parent_content),
                );
                assert(annotations@ == next_state.annotations);
                assert(before[h] matches Some(c) ==> c < walked);
            }
        }
        BlameWalk { head_lines, active, annotations, walked: walked + 1 }
    }

    /// The blame of every head line: its commit among the walked ones of
    /// `history`, or the first line no walked commit explains.
    pub fn finish(self, history: &Vec<CommitSnapshot>) -> (result: Result<Vec<BlameLine>, OxenError>)
        requires
            self.walked() <= history.len(),
        ensures
            blame_outcome(
                self.head_lines(),
                self.state().annotations,
                commits_view(history@),
                blame_lines_view(result),
            ),
    {
        proof {
            use_type_invariant(&self);
        }
        let ghost head_view = self.head_lines();
        let ghost ann = self.annotations@;
        let n = self.head_lines.len();
        let mut lines: Vec<BlameLine> = Vec::new();
        for idx in 0..n
            invariant
                n == self.head_lines.len(),
                self.head_lines.deep_view() == head_view,
                ann == self.annotations@,
                ann.len() == n,
                annotations_below(ann, history.len() as int),
                lines@.len() == idx,
                forall|i: int|
                    0 <= i < idx ==> #[trigger] ann[i] is Some && lines@[i]@ == blame_line_view(
                        i,
                        commits_view(history@)[ann[i]->0 as int],
                        head_view[i],
                    ),
        {
            match self.annotations[idx] {
                Some(c) => {
                    let commit = history[c].commit.duplicate();
                    let content = self.head_lines[idx].clone();
                    lines.push(BlameLine { line_number: idx + 1, commit, content });
                },
                None => {
                    return Err(OxenError::BlameUnresolved { line_number: idx + 1 });
                },
            }
        }
        proof {
            assert(lines@.map_values(|l: BlameLine| l@).len() == n);
        }
        Ok(lines)
    }
}

/// Attributes each line of the head version of a file to the commit of the
/// history (newest first) that last changed it, walking the history until no
/// line is active.
pub fn blame_file(head_content: &str, history: &Vec<CommitSnapshot>) -> (result: Result<
    Vec<BlameLine>,
    OxenError,
>)
    ensures
        blame_outcome(
            split_lines_spec(head_content@),
            blame_after(
                split_lines_spec(head_content@).len(),
                snapshots_view(history@),
                history@.len(),
            ).annotations,
            commits_view(history@),
            blame_lines_view(result),
        ),
{
    let ghost n = split_lines_spec(head_content@).len();
    let ghost snaps = snapshots_view(history@);
    let mut walk = BlameWalk::new(head_content);
    let mut k: usize = 0;
    while k < history.len()
        invariant
            k <= history.len(),
            snaps == snapshots_view(history@),
            walk.walked() == k,
            walk.head_lines() == split_lines_spec(head_content@),
            walk.state() == blame_after(n, snaps, k as nat),
        ensures
            walk.walked() <= history.len(),
            walk.head_lines() == split_lines_spec(head_content@),
            walk.state().annotations == blame_after(n, snaps, history.len() as nat).annotations,
        decreases history.len() - k,
    {
        if walk.is_done() {
            proof {
                lemma_blame_after_stops(n, snaps, k as nat, history.len() as nat);
            }
            break;
        }
        proof {
            assert(snaps[k as int] == (opt_text(history[k as int].content), opt_text(
                history[k as int].parent_content,
            )));
        }
        walk = walk.step(&history[k]);
        k = k + 1;
    }
    walk.finish(history)
}

/// The first eight bytes of a commit id, where the id is that long and they
/// end on a character boundary; the whole id otherwise.
pub fn short_commit_id(commit_id: &str) -> (s: &str)
    ensures
        if is_char_boundary(commit_id.spec_bytes(), 8) {
            s.spec_bytes() == commit_id.spec_bytes().subrange(0, 8)
        } else {
            s@ == commit_id@
        },
{
    proof {
        broadcast use vstd::utf8::encode_utf8_valid_utf8;
    }
    if commit_id.is_char_boundary(8) {
        commit_id.split_at(8).0
    } else {
        commit_id
    }
}

} // verus!
