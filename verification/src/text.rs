//! Character-level helpers for the text the library handles: splitting file
//! content into lines and dropping line endings.

use vstd::prelude::*;

verus! {

broadcast use vstd::string::group_string_axioms;

/// Calls `String::push`. Trusted: the character is appended.
#[verifier::external_body]
pub(crate) fn push_char(s: &mut String, c: char)
    ensures
        final(s)@ == old(s)@.push(c),
{
    s.push(c)
}

/// The characters of a string, in order.
pub fn chars_of(s: &str) -> (v: Vec<char>)
    ensures
        v@ == s@,
{
    let mut out: Vec<char> = Vec::new();
    for c in it: s.chars()
        invariant
            out@ == it.seq().take(it.index() as int),
    {
        out.push(c);
    }
    out
}

/// The string made of the first `len` characters.
pub fn string_from_chars(chars: &Vec<char>, len: usize) -> (s: String)
    requires
        len <= chars.len(),
    ensures
        s@ == chars@.take(len as int),
{
    let mut s = String::new();
    let mut i: usize = 0;
    while i < len
        invariant
            i <= len <= chars.len(),
            s@ == chars@.take(i as int),
        decreases len - i,
    {
        push_char(&mut s, chars[i]);
        assert(chars@.take(i + 1) == chars@.take(i as int).push(chars@[i as int]));
        i = i + 1;
    }
    s
}

/// The pieces of `s` between `'\n'` characters, as `str::split('\n')` yields
/// them: one more piece than there are newlines.
pub open spec fn split_newlines(s: Seq<char>) -> Seq<Seq<char>>
    decreases s.len(),
{
    if s.len() == 0 {
        seq![Seq::empty()]
    } else {
        let rest = split_newlines(s.drop_last());
        if s.last() == '\n' {
            rest.push(Seq::empty())
        } else {
            rest.update(rest.len() - 1, rest.last().push(s.last()))
        }
    }
}

pub proof fn lemma_split_newlines_nonempty(s: Seq<char>)
    ensures
        split_newlines(s).len() >= 1,
    decreases s.len(),
{
    if s.len() > 0 {
        lemma_split_newlines_nonempty(s.drop_last());
    }
}

/// `line` without one trailing `'\r'`.
pub open spec fn strip_cr(line: Seq<char>) -> Seq<char> {
    if line.len() > 0 && line.last() == '\r' {
        line.drop_last()
    } else {
        line
    }
}

/// The lines of some content: the pieces between newlines, each without a
/// trailing carriage return; a final newline ends the last line rather than
/// starting an empty one, and empty content has no lines.
pub open spec fn split_lines_spec(s: Seq<char>) -> Seq<Seq<char>> {
    if s.len() == 0 {
        Seq::empty()
    } else {
        let pieces = split_newlines(s).map_values(|p: Seq<char>| strip_cr(p));
        if s.last() == '\n' {
            pieces.drop_last()
        } else {
            pieces
        }
    }
}

/// The string of `chars`, without one trailing carriage return.
fn strip_cr_string(chars: &Vec<char>) -> (s: String)
    ensures
        s@ == strip_cr(chars@),
{
    let n = chars.len();
    if n > 0 && chars[n - 1] == '\r' {
        string_from_chars(chars, n - 1)
    } else {
        string_from_chars(chars, n)
    }
}

/// Splits content into lines (see [`split_lines_spec`]).
pub fn split_lines(content: &str) -> (lines: Vec<String>)
    ensures
        lines.deep_view() == split_lines_spec(content@),
{
    let chars = chars_of(content);
    let ghost s = content@;
    if chars.len() == 0 {
        let lines: Vec<String> = Vec::new();
        assert(lines.deep_view() =~= Seq::<Seq<char>>::empty());
        return lines;
    }
    let mut lines: Vec<String> = Vec::new();
    let mut cur: Vec<char> = Vec::new();
    let mut i: usize = 0;
    proof {
        assert(s.take(0) =~= Seq::<char>::empty());
        assert(lines.deep_view() =~= split_newlines(s.take(0)).drop_last().map_values(
            |p: Seq<char>| strip_cr(p),
        ));
    }
    while i < chars.len()
        invariant
            chars@ == s,
            i <= chars.len(),
            split_newlines(s.take(i as int)).len() >= 1,
            lines.deep_view() == split_newlines(s.take(i as int)).drop_last().map_values(
                |p: Seq<char>| strip_cr(p),
            ),
            cur@ == split_newlines(s.take(i as int)).last(),
        decreases chars.len() - i,
    {
        let c = chars[i];
        let ghost prev = split_newlines(s.take(i as int));
        proof {
            assert(s.take(i + 1).drop_last() =~= s.take(i as int));
            lemma_split_newlines_nonempty(s.take(i + 1));
        }
        if c == '\n' {
            let line = strip_cr_string(&cur);
            let ghost old_lines = lines.deep_view();
            let ghost line_view = line@;
            lines.push(line);
            cur = Vec::new();
            proof {
                assert(lines.deep_view() =~= old_lines.push(line_view));
                let next = split_newlines(s.take(i + 1));
                assert(next == prev.push(Seq::empty()));
                assert(next.drop_last() =~= prev);
                assert(prev =~= prev.drop_last().push(prev.last()));
                assert(lines.deep_view() =~= next.drop_last().map_values(
                    |p: Seq<char>| strip_cr(p),
                ));
                assert(cur@ =~= next.last());
            }
        } else {
            cur.push(c);
            proof {
                let next = split_newlines(s.take(i + 1));
                assert(next == prev.update(prev.len() - 1, prev.last().push(c)));
                assert(next.drop_last() =~= prev.drop_last());
            }
        }
        i = i + 1;
    }
    proof {
        assert(s.take(chars.len() as int) =~= s);
    }
    let ghost pieces = split_newlines(s).map_values(|p: Seq<char>| strip_cr(p));
    if chars[chars.len() - 1] == '\n' {
        proof {
            assert(pieces.drop_last() =~= split_newlines(s).drop_last().map_values(
                |p: Seq<char>| strip_cr(p),
            ));
        }
        lines
    } else {
        let line = strip_cr_string(&cur);
        let ghost old_lines = lines.deep_view();
        let ghost line_view = line@;
        lines.push(line);
        proof {
            assert(lines.deep_view() =~= old_lines.push(line_view));
            let all = split_newlines(s);
            assert(all =~= all.drop_last().push(all.last()));
            assert(lines.deep_view() =~= pieces);
        }
        lines
    }
}

/// `line` without its line ending: `"\r\n"`, or else one `'\n'`, or else one
/// `'\r'`.
pub open spec fn strip_line_ending_spec(line: Seq<char>) -> Seq<char> {
    let n = line.len();
    if n >= 2 && line[n - 2] == '\r' && line[n - 1] == '\n' {
        line.take(n - 2)
    } else if n >= 1 && (line[n - 1] == '\n' || line[n - 1] == '\r') {
        line.take(n - 1)
    } else {
        line
    }
}

/// Drops the line ending of a line (see [`strip_line_ending_spec`]).
pub fn strip_line_ending(line: &str) -> (s: String)
    ensures
        s@ == strip_line_ending_spec(line@),
{
    let chars = chars_of(line);
    let n = chars.len();
    if n >= 2 && chars[n - 2] == '\r' && chars[n - 1] == '\n' {
        string_from_chars(&chars, n - 2)
    } else if n >= 1 && (chars[n - 1] == '\n' || chars[n - 1] == '\r') {
        string_from_chars(&chars, n - 1)
    } else {
        proof {
            assert(chars@.take(n as int) =~= chars@);
        }
        string_from_chars(&chars, n)
    }
}

} // verus!
