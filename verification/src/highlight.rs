//! What to place in a buffer and what to collect from it: the highlights
//! (extmarks) for the keywords of a buffer's lines, and the TODO list
//! entries of a named buffer. Reading buffers from Neovim and placing the
//! extmarks is left to the caller.

use vstd::prelude::*;
use vstd::string::StringSliceAdditionalSpecFns;
use vstd::utf8::encode_utf8;

use crate::keywords::{name_bytes, spec_match_at, Keyword};
use crate::scanner::{scan_line, spec_scan_line, Match};

verus! {

/// Priority of keyword highlights: above treesitter (100).
pub const KEYWORD_PRIORITY: u32 = 200;

/// A highlight to place: the keyword tag that spans bytes `col..end_col`
/// of line `line` (0-based) of a buffer.
#[derive(Debug, Clone, Copy, PartialEq, Eq, Structural)]
pub struct Extmark {
    /// The line, counted from 0.
    pub line: usize,
    /// Byte offset at which the tag begins.
    pub col: usize,
    /// Byte offset just past the tag.
    pub end_col: usize,
    /// The keyword, whose group, sign and sign group the highlight uses.
    pub keyword: Keyword,
}

/// The extmark for match `m` on line `line`.
pub open spec fn extmark_of(line: int, m: Match) -> Extmark {
    Extmark {
        line: line as usize,
        col: m.byte_offset,
        end_col: (m.byte_offset + m.byte_len) as usize,
        keyword: m.keyword,
    }
}

/// The extmarks of one line, in the order of its matches.
pub open spec fn line_extmarks(line: int, text: Seq<char>) -> Seq<Extmark> {
    spec_scan_line(text).map_values(|m: Match| extmark_of(line, m))
}

/// The extmarks of a buffer's lines: those of each line in turn, top to bottom.
pub open spec fn spec_buffer_extmarks(lines: Seq<Seq<char>>) -> Seq<Extmark>
    decreases lines.len(),
{
    if lines.len() == 0 {
        seq![]
    } else {
        spec_buffer_extmarks(lines.drop_last()) + line_extmarks(
            lines.len() - 1,
            lines.last(),
        )
    }
}

/// Every extmark spans the tag of its keyword on its line: the line exists,
/// the tag begins at `col` and `end_col - col` is the length of the
/// keyword's name.
pub proof fn lemma_extmarks_span_tags(lines: Seq<Seq<char>>)
    requires
        lines.len() <= usize::MAX,
        forall|i: int| 0 <= i < lines.len() ==> encode_utf8(#[trigger] lines[i]).len() <= usize::MAX,
    ensures
        forall|n: int|
            0 <= n < spec_buffer_extmarks(lines).len() ==> {
                let e = #[trigger] spec_buffer_extmarks(lines)[n];
                let b = encode_utf8(lines[e.line as int]);
                &&& e.line < lines.len()
                &&& e.col < e.end_col <= b.len()
                &&& e.end_col - e.col == name_bytes(e.keyword).len()
                &&& spec_match_at(b.skip(e.col as int)) == Some(e.keyword)
            },
    decreases lines.len(),
{
    if lines.len() > 0 {
        let front = lines.drop_last();
        lemma_extmarks_span_tags(front);
        let last = lines.len() - 1;
        let b = encode_utf8(lines.last());
        crate::scanner::lemma_scan_line_sound(lines.last());
        let earlier = spec_buffer_extmarks(front);
        let here = line_extmarks(last, lines.last());
        let all = spec_buffer_extmarks(lines);
        assert forall|n: int| 0 <= n < all.len() implies {
            let e = #[trigger] all[n];
            let bl = encode_utf8(lines[e.line as int]);
            &&& e.line < lines.len()
            &&& e.col < e.end_col <= bl.len()
            &&& e.end_col - e.col == name_bytes(e.keyword).len()
            &&& spec_match_at(bl.skip(e.col as int)) == Some(e.keyword)
        } by {
            if n < earlier.len() {
                assert(all[n] == earlier[n]);
                assert(front[earlier[n].line as int] == lines[earlier[n].line as int]);
            } else {
                let m = spec_scan_line(lines.last())[n - earlier.len()];
                assert(all[n] == here[n - earlier.len()]);
                assert(all[n] == extmark_of(last, m));
                crate::keywords::lemma_name_bytes(m.keyword);
            }
        }
    }
}

/// The extmark `e`, moved `d` lines down.
pub open spec fn moved_down(e: Extmark, d: int) -> Extmark {
    Extmark { line: (e.line + d) as usize, col: e.col, end_col: e.end_col, keyword: e.keyword }
}

/// The number of matches in all the lines.
pub open spec fn total_matches(lines: Seq<Seq<char>>) -> nat
    decreases lines.len(),
{
    if lines.len() == 0 {
        0
    } else {
        total_matches(lines.drop_last()) + spec_scan_line(lines.last()).len()
    }
}

/// The extmarks of two runs of lines, one after the other, are those of the
/// first run followed by those of the second, moved down past the first: no
/// line, empty or not, hides or changes the marks of another.
pub proof fn lemma_buffer_extmarks_append(a: Seq<Seq<char>>, b: Seq<Seq<char>>)
    requires
        a.len() + b.len() <= usize::MAX,
    ensures
        spec_buffer_extmarks(a + b) == spec_buffer_extmarks(a) + spec_buffer_extmarks(b).map_values(
            |e: Extmark| moved_down(e, a.len() as int),
        ),
    decreases b.len(),
{
    let d = a.len() as int;
    if b.len() == 0 {
        assert(a + b =~= a);
        assert(spec_buffer_extmarks(b).map_values(|e: Extmark| moved_down(e, d))
            =~= Seq::<Extmark>::empty());
        assert(spec_buffer_extmarks(a) + Seq::<Extmark>::empty() =~= spec_buffer_extmarks(a));
    } else {
        let ab = a + b;
        assert(ab.drop_last() =~= a + b.drop_last());
        assert(ab.last() == b.last());
        lemma_buffer_extmarks_append(a, b.drop_last());
        let here = line_extmarks(ab.len() - 1, ab.last());
        let there = line_extmarks(b.len() - 1, b.last());
        assert(here =~= there.map_values(|e: Extmark| moved_down(e, d)));
        let sb = spec_buffer_extmarks(b.drop_last());
        assert((sb + there).map_values(|e: Extmark| moved_down(e, d)) =~= sb.map_values(
            |e: Extmark| moved_down(e, d),
        ) + there.map_values(|e: Extmark| moved_down(e, d)));
        assert(spec_buffer_extmarks(ab) =~= spec_buffer_extmarks(a) + spec_buffer_extmarks(
            b,
        ).map_values(|e: Extmark| moved_down(e, d)));
    }
}

/// Every match of every line has its extmark.
pub proof fn lemma_buffer_extmarks_complete(lines: Seq<Seq<char>>, i: int, j: int)
    requires
        lines.len() <= usize::MAX,
        0 <= i < lines.len(),
        0 <= j < spec_scan_line(lines[i]).len(),
    ensures
        exists|n: int|
            0 <= n < spec_buffer_extmarks(lines).len() && #[trigger] spec_buffer_extmarks(lines)[n]
                == extmark_of(i, spec_scan_line(lines[i])[j]),
    decreases lines.len(),
{
    let front = lines.drop_last();
    let earlier = spec_buffer_extmarks(front);
    let all = spec_buffer_extmarks(lines);
    if i == lines.len() - 1 {
        let n = earlier.len() + j;
        assert(all[n] == line_extmarks(i, lines.last())[j]);
    } else {
        assert(front[i] == lines[i]);
        lemma_buffer_extmarks_complete(front, i, j);
        let n = choose|n: int|
            0 <= n < earlier.len() && #[trigger] earlier[n] == extmark_of(
                i,
                spec_scan_line(front[i])[j],
            );
        assert(all[n] == earlier[n]);
    }
}

/// Every extmark is that of a match of its line.
pub proof fn lemma_buffer_extmarks_sound(lines: Seq<Seq<char>>, n: int)
    requires
        lines.len() <= usize::MAX,
        0 <= n < spec_buffer_extmarks(lines).len(),
    ensures
        exists|i: int, j: int|
            0 <= i < lines.len() && 0 <= j < spec_scan_line(lines[i]).len()
                && spec_buffer_extmarks(lines)[n] == extmark_of(i, #[trigger] spec_scan_line(lines[i])[j]),
    decreases lines.len(),
{
    let front = lines.drop_last();
    let earlier = spec_buffer_extmarks(front);
    let all = spec_buffer_extmarks(lines);
    let last = lines.len() - 1;
    if n < earlier.len() {
        lemma_buffer_extmarks_sound(front, n);
        let (i, j) = choose|i: int, j: int|
            0 <= i < front.len() && 0 <= j < spec_scan_line(front[i]).len()
                && earlier[n] == extmark_of(i, #[trigger] spec_scan_line(front[i])[j]);
        assert(all[n] == earlier[n]);
        assert(front[i] == lines[i]);
        assert(all[n] == extmark_of(i, spec_scan_line(lines[i])[j]));
    } else {
        let j = n - earlier.len();
        assert(all[n] == line_extmarks(last, lines.last())[j]);
        assert(all[n] == extmark_of(last, spec_scan_line(lines[last])[j]));
    }
}

/// There is one extmark per match, over all lines.
pub proof fn lemma_buffer_extmarks_count(lines: Seq<Seq<char>>)
    ensures
        spec_buffer_extmarks(lines).len() == total_matches(lines),
    decreases lines.len(),
{
    if lines.len() > 0 {
        lemma_buffer_extmarks_count(lines.drop_last());
    }
}

/// Every extmark lies on one of the lines.
proof fn lemma_extmark_lines(lines: Seq<Seq<char>>)
    requires
        lines.len() <= usize::MAX,
    ensures
        forall|n: int|
            0 <= n < spec_buffer_extmarks(lines).len() ==> (#[trigger] spec_buffer_extmarks(
                lines,
            )[n]).line < lines.len(),
    decreases lines.len(),
{
    if lines.len() > 0 {
        let front = lines.drop_last();
        lemma_extmark_lines(front);
        let earlier = spec_buffer_extmarks(front);
        let here = line_extmarks(lines.len() - 1, lines.last());
        let all = spec_buffer_extmarks(lines);
        assert forall|n: int| 0 <= n < all.len() implies (#[trigger] all[n]).line < lines.len() by {
            if n < earlier.len() {
                assert(all[n] == earlier[n]);
            } else {
                assert(all[n] == here[n - earlier.len()]);
            }
        }
    }
}

/// The extmarks for the keywords of a buffer's lines.
pub fn buffer_extmarks(lines: &Vec<String>) -> (r: Vec<Extmark>)
    ensures
        r@ == spec_buffer_extmarks(lines.deep_view()),
{
    let ghost ls = lines.deep_view();
    let mut marks: Vec<Extmark> = Vec::new();
    let mut idx: usize = 0;
    while idx < lines.len()
        invariant
            ls == lines.deep_view(),
            0 <= idx <= ls.len(),
            marks@ == spec_buffer_extmarks(ls.take(idx as int)),
        decreases lines.len() - idx,
    {
        let line = lines[idx].as_str();
        let ghost b = line.spec_bytes();
        proof {
            assert(ls[idx as int] == line@);
        }
        let len = line.as_bytes().len();
        let matches = scan_line(line);
        proof {
            crate::scanner::lemma_scan_line_sound(line@);
        }
        let ghost before = marks@;
        let ghost here = line_extmarks(idx as int, line@);
        let mut j: usize = 0;
        while j < matches.len()
            invariant
                matches@ == spec_scan_line(line@),
                b == encode_utf8(line@),
                len == b.len(),
                here == line_extmarks(idx as int, line@),
                forall|i: int|
                    0 <= i < matches@.len() ==> (#[trigger] matches@[i]).byte_offset
                        + matches@[i].byte_len <= b.len(),
                0 <= j <= matches@.len(),
                marks@ == before + here.take(j as int),
            decreases matches.len() - j,
        {
            let m = &matches[j];
            assert(m.byte_offset + m.byte_len <= len);
            marks.push(
                Extmark {
                    line: idx,
                    col: m.byte_offset,
                    end_col: m.byte_offset + m.byte_len,
                    keyword: m.keyword,
                },
            );
            proof {
                assert(here[j as int] == extmark_of(idx as int, matches@[j as int]));
                assert(here.take(j + 1) =~= here.take(j as int).push(here[j as int]));
            }
            j += 1;
        }
        proof {
            assert(here.take(matches@.len() as int) =~= here);
            let next = ls.take(idx + 1);
            assert(next.drop_last() =~= ls.take(idx as int));
            assert(next.last() == ls[idx as int]);
        }
        idx += 1;
    }
    proof {
        assert(ls.take(ls.len() as int) =~= ls);
    }
    marks
}

/// Whether the TODO list covers a buffer with this name: unnamed (scratch)
/// buffers are skipped.
pub fn is_listed_buffer(name: &str) -> (r: bool)
    ensures
        r == (name@.len() > 0),
{
    !name.is_empty()
}

/// The TODO list entries of the buffer named `name` with the given lines:
/// for each keyword found, top to bottom, the buffer's name, the line number
/// counted from 1, the keyword and the whole line's text.
pub fn buffer_todos(name: &str, lines: &Vec<String>) -> (r: Vec<(String, usize, Keyword, String)>)
    ensures
        r@.len() == spec_buffer_extmarks(lines.deep_view()).len(),
        forall|n: int|
            0 <= n < r@.len() ==> {
                let e = #[trigger] spec_buffer_extmarks(lines.deep_view())[n];
                &&& r@[n].0@ == name@
                &&& r@[n].1 == e.line + 1
                &&& r@[n].2 == e.keyword
                &&& r@[n].3@ == lines.deep_view()[e.line as int]
            },
{
    let ghost ls = lines.deep_view();
    let marks = buffer_extmarks(lines);
    let count = lines.len();
    proof {
        lemma_extmark_lines(ls);
    }
    let mut todos: Vec<(String, usize, Keyword, String)> = Vec::new();
    let mut n: usize = 0;
    while n < marks.len()
        invariant
            ls == lines.deep_view(),
            count == ls.len(),
            marks@ == spec_buffer_extmarks(ls),
            forall|i: int| 0 <= i < marks@.len() ==> (#[trigger] marks@[i]).line < ls.len(),
            0 <= n <= marks@.len(),
            todos@.len() == n,
            forall|i: int|
                0 <= i < n ==> {
                    let e = #[trigger] marks@[i];
                    &&& todos@[i].0@ == name@
                    &&& todos@[i].1 == e.line + 1
                    &&& todos@[i].2 == e.keyword
                    &&& todos@[i].3@ == ls[e.line as int]
                },
        decreases marks.len() - n,
    {
        let e = marks[n];
        assert(e.line < count);
        let text = lines[e.line].clone();
        todos.push((name.to_owned(), e.line + 1, e.keyword, text));
        n += 1;
    }
    todos
}

} // verus!
