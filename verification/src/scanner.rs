//! Line scanner for keyword matches.
//!
//! Scans a line of text and returns every comment-keyword match with its
//! byte offset. The line is read as bytes; every function here is specified
//! over the UTF-8 bytes of the line.

use vstd::prelude::*;
use vstd::string::StringSliceAdditionalSpecFns;

use crate::keywords::{name_bytes, spec_match_at, tag_at, Keyword};
use crate::text::{
    is_ascii_whitespace, is_ascii_whitespace_byte, is_white_space, is_white_space_char,
    leading_white_space, lemma_encode_utf8_append, lemma_encode_utf8_take, utf8_width,
};
use vstd::std_specs::iter::IteratorSpec;
use vstd::utf8::{encode_scalar, encode_utf8};

verus! {

/// A single keyword match within a line.
#[derive(Debug, Clone, PartialEq, Eq, Structural)]
pub struct Match {
    /// The matched keyword.
    pub keyword: Keyword,
    /// Byte offset of the keyword within the line.
    pub byte_offset: usize,
    /// Byte length of the keyword tag (e.g. `4` for `TODO`, `5` for `FIXME`).
    pub byte_len: usize,
}

// ---------------------------------------------------------------------------
// The model of a line
// ---------------------------------------------------------------------------

/// The comment leaders, in the order in which they are tried: `///` and
/// `//!` before `//`, and `/*` before `*`.
pub open spec fn leader_chars(k: int) -> Seq<char> {
    if k == 0 {
        seq!['/', '/', '/']
    } else if k == 1 {
        seq!['/', '/', '!']
    } else if k == 2 {
        seq!['/', '/']
    } else if k == 3 {
        seq!['/', '*']
    } else if k == 4 {
        seq!['-', '-']
    } else if k == 5 {
        seq!['#']
    } else if k == 6 {
        seq!['*']
    } else if k == 7 {
        seq!['%']
    } else {
        seq![';']
    }
}

/// The number of comment leaders.
pub open spec fn leader_count() -> int {
    9
}

/// The bytes of comment leader `k`.
pub open spec fn leader_bytes(k: int) -> Seq<u8> {
    leader_chars(k).map_values(|c: char| c as u8)
}

/// Leader `k` begins with `//`; the slashes that follow it belong to it too.
pub open spec fn is_slash_leader(k: int) -> bool {
    let l = leader_bytes(k);
    l.len() >= 2 && l[0] == 47 && l[1] == 47
}

/// Leader `k` occurs in `b` at index `i`.
pub open spec fn leader_occurs_at(b: Seq<u8>, i: int, k: int) -> bool {
    &&& 0 <= i
    &&& i + leader_bytes(k).len() <= b.len()
    &&& b.subrange(i, i + leader_bytes(k).len()) == leader_bytes(k)
}

/// The first leader, from position `k` of the order on, that occurs at `i`.
pub open spec fn first_leader_from(b: Seq<u8>, i: int, k: int) -> Option<int>
    decreases leader_count() - k,
{
    if k < 0 || k >= leader_count() {
        None
    } else if leader_occurs_at(b, i, k) {
        Some(k)
    } else {
        first_leader_from(b, i, k + 1)
    }
}

/// The first index at or after `j` that does not hold a `/`.
pub open spec fn skip_slashes(b: Seq<u8>, j: int) -> int
    decreases b.len() - j,
{
    if 0 <= j < b.len() && b[j] == 47 {
        skip_slashes(b, j + 1)
    } else {
        j
    }
}

/// The first index at or after `j` that does not hold ASCII whitespace.
pub open spec fn skip_ws(b: Seq<u8>, j: int) -> int
    decreases b.len() - j,
{
    if 0 <= j < b.len() && is_ascii_whitespace(b[j]) {
        skip_ws(b, j + 1)
    } else {
        j
    }
}

/// The index just past leader `k` found at `i`, with the extra slashes of a
/// `//` leader (as in `////`).
pub open spec fn end_of_leader(b: Seq<u8>, i: int, k: int) -> int {
    let e = i + leader_bytes(k).len();
    if is_slash_leader(k) {
        skip_slashes(b, e)
    } else {
        e
    }
}

/// The positions that follow comment leaders, reading `b` from `i` left to
/// right: at each index the first leader of the order that occurs there is
/// taken, the position after it and its whitespace is recorded, and reading
/// resumes at the end of the leader; where no leader occurs, reading moves
/// on by one byte.
pub open spec fn leader_targets(b: Seq<u8>, i: int) -> Seq<int>
    decreases b.len() - i,
{
    if i < 0 || i >= b.len() {
        seq![]
    } else {
        match first_leader_from(b, i, 0) {
            Some(k) => {
                let e = end_of_leader(b, i, k);
                proof {
                    lemma_end_of_leader(b, i, k);
                }
                seq![skip_ws(b, e)] + leader_targets(b, e)
            },
            None => leader_targets(b, i + 1),
        }
    }
}

/// The byte offset at which a line's text begins: past its leading white
/// space (what `str::trim_start` strips).
pub open spec fn text_start(text: Seq<char>) -> int {
    encode_utf8(text.take(leading_white_space(text) as int)).len() as int
}

/// The start `t` of the line's text, when a keyword tag begins there.
pub open spec fn line_start_candidates(b: Seq<u8>, t: int) -> Seq<int> {
    if t < b.len() && spec_match_at(b.skip(t)) is Some {
        seq![t]
    } else {
        seq![]
    }
}

/// The position after a `"` that opens the line's text at `t` (the Vim
/// comment leader) and the whitespace after it.
pub open spec fn quote_candidates(b: Seq<u8>, t: int) -> Seq<int> {
    if t < b.len() && b[t] == 34 {
        seq![skip_ws(b, t + 1)]
    } else {
        seq![]
    }
}

/// All positions considered, in the order in which they are found, for a
/// line with bytes `b` whose text begins at `t`.
pub open spec fn raw_candidates(b: Seq<u8>, t: int) -> Seq<int> {
    line_start_candidates(b, t) + leader_targets(b, 0) + quote_candidates(b, t)
}

/// Appends to `acc`, in order, each position of `cands` that lies inside the
/// line (below `len`) and is not yet in the list.
pub open spec fn keep_new(acc: Seq<int>, cands: Seq<int>, len: int) -> Seq<int>
    decreases cands.len(),
{
    if cands.len() == 0 {
        acc
    } else {
        let c = cands[0];
        let next = if c < len && !acc.contains(c) {
            acc.push(c)
        } else {
            acc
        };
        keep_new(next, cands.drop_first(), len)
    }
}

/// The byte offsets at which a keyword may begin, without repetition.
pub open spec fn candidate_positions(b: Seq<u8>, t: int) -> Seq<int> {
    keep_new(seq![], raw_candidates(b, t), b.len() as int)
}

/// The match for keyword `k` at offset `p`.
pub open spec fn match_of(k: Keyword, p: int) -> Match {
    Match { keyword: k, byte_offset: p as usize, byte_len: name_bytes(k).len() as usize }
}

/// For each position of `ps`, in order, the match of the keyword whose tag
/// begins there, if one does.
pub open spec fn matches_at(b: Seq<u8>, ps: Seq<int>) -> Seq<Match>
    decreases ps.len(),
{
    if ps.len() == 0 {
        seq![]
    } else {
        let earlier = matches_at(b, ps.drop_last());
        match spec_match_at(b.skip(ps.last())) {
            Some(k) => earlier.push(match_of(k, ps.last())),
            None => earlier,
        }
    }
}

/// The matches found in a line with bytes `b` whose text begins at `t`.
pub open spec fn scan_bytes(b: Seq<u8>, t: int) -> Seq<Match> {
    matches_at(b, candidate_positions(b, t))
}

/// What `scan_line` returns for a line of text.
pub open spec fn spec_scan_line(text: Seq<char>) -> Seq<Match> {
    scan_bytes(encode_utf8(text), text_start(text))
}

/// The positions of a `Vec<usize>` as integers.
pub open spec fn as_ints(v: Seq<usize>) -> Seq<int> {
    v.map_values(|p: usize| p as int)
}

// ---------------------------------------------------------------------------
// Lemmas about the model
// ---------------------------------------------------------------------------

proof fn lemma_leader_bytes(k: int)
    requires
        0 <= k < leader_count(),
    ensures
        1 <= leader_bytes(k).len() <= 3,
        leader_bytes(k).len() == leader_chars(k).len(),
        forall|j: int|
            0 <= j < leader_bytes(k).len() ==> #[trigger] leader_bytes(k)[j] == leader_chars(
                k,
            )[j] as u8,
        vstd::utf8::is_ascii_chars(leader_chars(k)),
        is_slash_leader(k) <==> k <= 2,
{
}

proof fn lemma_skip_slashes(b: Seq<u8>, j: int)
    ensures
        skip_slashes(b, j) >= j,
        j <= b.len() ==> skip_slashes(b, j) <= b.len(),
    decreases b.len() - j,
{
    if 0 <= j < b.len() && b[j] == 47 {
        lemma_skip_slashes(b, j + 1);
    }
}

proof fn lemma_skip_ws(b: Seq<u8>, j: int)
    ensures
        skip_ws(b, j) >= j,
        j <= b.len() ==> skip_ws(b, j) <= b.len(),
        forall|m: int| j <= m < skip_ws(b, j) ==> #[trigger] is_ascii_whitespace(b[m]),
    decreases b.len() - j,
{
    if 0 <= j < b.len() && is_ascii_whitespace(b[j]) {
        lemma_skip_ws(b, j + 1);
    }
}

proof fn lemma_first_leader_from(b: Seq<u8>, i: int, k: int)
    ensures
        first_leader_from(b, i, k) matches Some(l) ==> k <= l < leader_count() && leader_occurs_at(
            b,
            i,
            l,
        ),
    decreases leader_count() - k,
{
    if 0 <= k < leader_count() && !leader_occurs_at(b, i, k) {
        lemma_first_leader_from(b, i, k + 1);
    }
}

/// Reading moves forward past a leader, and stays inside the line.
pub proof fn lemma_end_of_leader(b: Seq<u8>, i: int, k: int)
    requires
        first_leader_from(b, i, 0) == Some(k),
    ensures
        i < end_of_leader(b, i, k) <= b.len(),
{
    lemma_first_leader_from(b, i, 0);
    lemma_leader_bytes(k);
    lemma_skip_slashes(b, i + leader_bytes(k).len());
}

/// Processing two lists of candidates one after the other.
proof fn lemma_keep_new_append(acc: Seq<int>, s1: Seq<int>, s2: Seq<int>, len: int)
    ensures
        keep_new(acc, s1 + s2, len) == keep_new(keep_new(acc, s1, len), s2, len),
    decreases s1.len(),
{
    if s1.len() == 0 {
        assert(s1 + s2 =~= s2);
    } else {
        let next = if s1[0] < len && !acc.contains(s1[0]) {
            acc.push(s1[0])
        } else {
            acc
        };
        assert((s1 + s2).drop_first() =~= s1.drop_first() + s2);
        lemma_keep_new_append(next, s1.drop_first(), s2, len);
    }
}

/// What `keep_new` keeps: positions below `len`, without repetition, each
/// from `acc` or from `cands`, and every position of `cands` below `len`.
proof fn lemma_keep_new(acc: Seq<int>, cands: Seq<int>, len: int)
    ensures
        (forall|x: int| acc.contains(x) ==> x < len) ==> forall|x: int| #[trigger]
            keep_new(acc, cands, len).contains(x) ==> x < len,
        acc.no_duplicates() ==> keep_new(acc, cands, len).no_duplicates(),
        forall|x: int| #[trigger]
            keep_new(acc, cands, len).contains(x) ==> acc.contains(x) || cands.contains(x),
        forall|x: int| #[trigger] acc.contains(x) ==> keep_new(acc, cands, len).contains(x),
        forall|x: int| #[trigger] cands.contains(x) && x < len ==> keep_new(acc, cands, len).contains(x),
        acc.is_prefix_of(keep_new(acc, cands, len)),
    decreases cands.len(),
{
    if cands.len() > 0 {
        let c = cands[0];
        let next = if c < len && !acc.contains(c) {
            acc.push(c)
        } else {
            acc
        };
        lemma_keep_new(next, cands.drop_first(), len);
        let r = keep_new(acc, cands, len);
        assert(r == keep_new(next, cands.drop_first(), len));
        assert forall|x: int| #[trigger] acc.contains(x) implies r.contains(x) by {
            let j = choose|j: int| 0 <= j < acc.len() && acc[j] == x;
            assert(next[j] == x);
        }
        assert forall|x: int| #[trigger] r.contains(x) implies acc.contains(x) || cands.contains(x) by {
            if next.contains(x) && !acc.contains(x) {
                assert(x == c);
                assert(cands[0] == x);
            }
            if cands.drop_first().contains(x) {
                let j = choose|j: int| 0 <= j < cands.drop_first().len() && cands.drop_first()[j] == x;
                assert(cands[j + 1] == x);
            }
        }
        assert forall|x: int| #[trigger] cands.contains(x) && x < len implies r.contains(x) by {
            let j = choose|j: int| 0 <= j < cands.len() && cands[j] == x;
            if j == 0 {
                if acc.contains(x) {
                    let l = choose|l: int| 0 <= l < acc.len() && acc[l] == x;
                    assert(next[l] == x);
                } else {
                    assert(next[acc.len() as int] == x);
                }
            } else {
                assert(cands.drop_first()[j - 1] == x);
                assert(cands.drop_first().contains(x));
            }
        }
        if (forall|x: int| acc.contains(x) ==> x < len) {
            assert forall|x: int| next.contains(x) implies x < len by {
                if !acc.contains(x) {
                    assert(x == c);
                }
            }
        }
        if acc.no_duplicates() {
            if c < len && !acc.contains(c) {
                assert(next.no_duplicates()) by {
                    assert forall|i: int, j: int|
                        0 <= i < next.len() && 0 <= j < next.len() && i != j implies next[i]
                        != next[j] by {
                        if i == acc.len() {
                            assert(acc.contains(next[j]));
                        } else if j == acc.len() {
                            assert(acc.contains(next[i]));
                        }
                    }
                }
            }
        }
        assert(acc.is_prefix_of(next));
    }
}

/// Every match found at the positions `ps` sits at one of them and names the
/// keyword whose tag begins there; if the positions are distinct, so are the
/// offsets of the matches.
proof fn lemma_matches_at(b: Seq<u8>, ps: Seq<int>)
    requires
        forall|i: int| 0 <= i < ps.len() ==> 0 <= #[trigger] ps[i] <= usize::MAX,
    ensures
        forall|i: int|
            0 <= i < matches_at(b, ps).len() ==> {
                let m = #[trigger] matches_at(b, ps)[i];
                &&& ps.contains(m.byte_offset as int)
                &&& spec_match_at(b.skip(m.byte_offset as int)) == Some(m.keyword)
                &&& m == match_of(m.keyword, m.byte_offset as int)
            },
        forall|p: int|
            #![trigger ps.contains(p)]
            ps.contains(p) && spec_match_at(b.skip(p)) is Some ==> exists|i: int|
                0 <= i < matches_at(b, ps).len() && #[trigger] matches_at(b, ps)[i].byte_offset
                    == p,
        ps.no_duplicates() ==> forall|i: int, j: int|
            0 <= i < j < matches_at(b, ps).len() ==> #[trigger] matches_at(b, ps)[i].byte_offset
                != #[trigger] matches_at(b, ps)[j].byte_offset,
    decreases ps.len(),
{
    if ps.len() > 0 {
        let front = ps.drop_last();
        let p = ps.last();
        lemma_matches_at(b, front);
        let earlier = matches_at(b, front);
        let all = matches_at(b, ps);
        assert forall|i: int| 0 <= i < all.len() implies {
            let m = #[trigger] all[i];
            &&& ps.contains(m.byte_offset as int)
            &&& spec_match_at(b.skip(m.byte_offset as int)) == Some(m.keyword)
            &&& m == match_of(m.keyword, m.byte_offset as int)
        } by {
            if i < earlier.len() {
                assert(all[i] == earlier[i]);
                let q = all[i].byte_offset as int;
                let j = choose|j: int| 0 <= j < front.len() && front[j] == q;
                assert(ps[j] == q);
            } else {
                assert(ps[ps.len() - 1] == p);
            }
        }
        assert forall|q: int|
            #![trigger ps.contains(q)]
            ps.contains(q) && spec_match_at(b.skip(q)) is Some implies exists|i: int|
                0 <= i < all.len() && #[trigger] all[i].byte_offset == q by {
            let j = choose|j: int| 0 <= j < ps.len() && ps[j] == q;
            if j < ps.len() - 1 {
                assert(front[j] == q);
                assert(front.contains(q));
                let i = choose|i: int| 0 <= i < earlier.len() && #[trigger] earlier[i].byte_offset == q;
                assert(all[i] == earlier[i]);
            } else {
                assert(all[all.len() - 1].byte_offset == q);
            }
        }
        if ps.no_duplicates() {
            assert(front.no_duplicates());
            assert forall|i: int, j: int|
                0 <= i < j < all.len() implies #[trigger] all[i].byte_offset
                    != #[trigger] all[j].byte_offset by {
                if j >= earlier.len() {
                    assert(all[i] == earlier[i]);
                    let q = earlier[i].byte_offset as int;
                    let l = choose|l: int| 0 <= l < front.len() && front[l] == q;
                    assert(ps[l] == q);
                    assert(all[j].byte_offset == p);
                    assert(ps[ps.len() - 1] == p);
                } else {
                    assert(all[i] == earlier[i]);
                    assert(all[j] == earlier[j]);
                }
            }
        }
    }
}

/// Every position that follows a leader lies at most at the end of the line.
proof fn lemma_leader_targets(b: Seq<u8>, i: int)
    requires
        0 <= i,
    ensures
        forall|x: int| #[trigger] leader_targets(b, i).contains(x) ==> 0 <= x <= b.len(),
        forall|x: int| #[trigger]
            leader_targets(b, i).contains(x) ==> exists|j: int, k: int|
                #![trigger leader_occurs_at(b, j, k)]
                i <= j && 0 <= k < leader_count() && leader_occurs_at(b, j, k) && x == skip_ws(
                    b,
                    end_of_leader(b, j, k),
                ),
    decreases b.len() - i,
{
    if i < b.len() {
        match first_leader_from(b, i, 0) {
            Some(k) => {
                let e = end_of_leader(b, i, k);
                lemma_end_of_leader(b, i, k);
                lemma_first_leader_from(b, i, 0);
                lemma_leader_targets(b, e);
                lemma_skip_ws(b, e);
                let t = leader_targets(b, i);
                let rest = leader_targets(b, e);
                assert(t == seq![skip_ws(b, e)] + rest);
                assert forall|x: int| #[trigger] t.contains(x) implies 0 <= x <= b.len() && exists|
                    j: int,
                    k2: int,
                |
                    #![trigger leader_occurs_at(b, j, k2)]
                    i <= j && 0 <= k2 < leader_count() && leader_occurs_at(b, j, k2) && x
                        == skip_ws(b, end_of_leader(b, j, k2)) by {
                    let n = choose|n: int| 0 <= n < t.len() && t[n] == x;
                    if n == 0 {
                        assert(x == skip_ws(b, end_of_leader(b, i, k)));
                        assert(leader_occurs_at(b, i, k));
                    } else {
                        assert(rest[n - 1] == x);
                        assert(rest.contains(x));
                    }
                }
            },
            None => {
                lemma_leader_targets(b, i + 1);
                assert(leader_targets(b, i) == leader_targets(b, i + 1));
            },
        }
    }
}

/// Every candidate position lies at most at the end of the line.
proof fn lemma_raw_candidates_bounded(b: Seq<u8>, t: int)
    requires
        0 <= t,
    ensures
        forall|x: int| #[trigger] raw_candidates(b, t).contains(x) ==> 0 <= x <= b.len(),
{
    let ls = line_start_candidates(b, t);
    let lt = leader_targets(b, 0);
    let q = quote_candidates(b, t);
    lemma_leader_targets(b, 0);
    lemma_skip_ws(b, t + 1);
    assert forall|x: int| #[trigger] raw_candidates(b, t).contains(x) implies 0 <= x <= b.len() by {
        let r = raw_candidates(b, t);
        let n = choose|n: int| 0 <= n < r.len() && r[n] == x;
        if n < ls.len() {
            assert(ls[n] == x);
        } else if n < ls.len() + lt.len() {
            assert(lt[n - ls.len()] == x);
            assert(lt.contains(x));
        } else {
            assert(q[n - ls.len() - lt.len()] == x);
        }
    }
}

/// The candidate positions are distinct and lie inside the line.
proof fn lemma_candidate_positions(b: Seq<u8>, t: int)
    requires
        0 <= t,
    ensures
        candidate_positions(b, t).no_duplicates(),
        forall|x: int| #[trigger] candidate_positions(b, t).contains(x) ==> 0 <= x < b.len(),
        forall|x: int| #[trigger]
            candidate_positions(b, t).contains(x) <==> raw_candidates(b, t).contains(x) && x
                < b.len(),
{
    let empty: Seq<int> = seq![];
    lemma_keep_new(empty, raw_candidates(b, t), b.len() as int);
    lemma_raw_candidates_bounded(b, t);
}

/// The candidate positions of a line whose length fits a `usize` are `usize`s.
proof fn lemma_candidate_positions_fit(b: Seq<u8>, t: int)
    requires
        0 <= t,
        b.len() <= usize::MAX,
    ensures
        forall|i: int|
            0 <= i < candidate_positions(b, t).len() ==> 0 <= #[trigger] candidate_positions(
                b,
                t,
            )[i] < b.len(),
{
    lemma_candidate_positions(b, t);
    let ps = candidate_positions(b, t);
    assert forall|i: int| 0 <= i < ps.len() implies 0 <= #[trigger] ps[i] < b.len() by {
        assert(ps.contains(ps[i]));
    }
}

proof fn lemma_scan_bytes_sound(b: Seq<u8>, t: int)
    requires
        0 <= t,
        b.len() <= usize::MAX,
    ensures
        forall|i: int|
            0 <= i < scan_bytes(b, t).len() ==> {
                let m = #[trigger] scan_bytes(b, t)[i];
                &&& m.byte_offset < b.len()
                &&& spec_match_at(b.skip(m.byte_offset as int)) == Some(m.keyword)
                &&& m.byte_len == name_bytes(m.keyword).len()
                &&& m.byte_offset + m.byte_len <= b.len()
            },
{
    let ps = candidate_positions(b, t);
    lemma_candidate_positions(b, t);
    lemma_candidate_positions_fit(b, t);
    lemma_matches_at(b, ps);
    assert forall|i: int| 0 <= i < scan_bytes(b, t).len() implies {
        let m = #[trigger] scan_bytes(b, t)[i];
        &&& m.byte_offset < b.len()
        &&& spec_match_at(b.skip(m.byte_offset as int)) == Some(m.keyword)
        &&& m.byte_len == name_bytes(m.keyword).len()
        &&& m.byte_offset + m.byte_len <= b.len()
    } by {
        let m = scan_bytes(b, t)[i];
        let rest = b.skip(m.byte_offset as int);
        crate::keywords::lemma_match_at_iff_tag(rest, m.keyword);
        crate::keywords::lemma_name_bytes(m.keyword);
    }
}

proof fn lemma_scan_bytes_reports(b: Seq<u8>, t: int, p: int)
    requires
        0 <= t,
        b.len() <= usize::MAX,
    ensures
        (exists|i: int| 0 <= i < scan_bytes(b, t).len() && #[trigger] scan_bytes(b, t)[i].byte_offset == p)
            <==> (0 <= p < b.len() && raw_candidates(b, t).contains(p) && spec_match_at(b.skip(p)) is Some),
{
    let ps = candidate_positions(b, t);
    lemma_candidate_positions(b, t);
    lemma_candidate_positions_fit(b, t);
    lemma_matches_at(b, ps);
    if exists|i: int| 0 <= i < scan_bytes(b, t).len() && #[trigger] scan_bytes(b, t)[i].byte_offset == p {
        let i = choose|i: int| 0 <= i < scan_bytes(b, t).len() && #[trigger] scan_bytes(b, t)[i].byte_offset == p;
        let m = scan_bytes(b, t)[i];
        assert(ps.contains(m.byte_offset as int));
    }
    if 0 <= p < b.len() && raw_candidates(b, t).contains(p) && spec_match_at(b.skip(p)) is Some {
        assert(ps.contains(p));
    }
}

proof fn lemma_matches_at_first(b: Seq<u8>, ps: Seq<int>)
    requires
        ps.len() > 0,
        spec_match_at(b.skip(ps[0])) is Some,
    ensures
        matches_at(b, ps).len() > 0,
        matches_at(b, ps)[0] == match_of(spec_match_at(b.skip(ps[0]))->0, ps[0]),
    decreases ps.len(),
{
    if ps.len() > 1 {
        assert(ps.drop_last()[0] == ps[0]);
        lemma_matches_at_first(b, ps.drop_last());
        assert(matches_at(b, ps)[0] == matches_at(b, ps.drop_last())[0]);
    } else {
        let k = spec_match_at(b.skip(ps[0]))->0;
        assert(ps.drop_last().len() == 0);
        assert(matches_at(b, ps.drop_last()).len() == 0);
        assert(ps.last() == ps[0]);
        assert(matches_at(b, ps) == matches_at(b, ps.drop_last()).push(match_of(k, ps[0])));
    }
}

/// The text of a line begins at a byte offset at most its length.
pub proof fn lemma_text_start(text: Seq<char>)
    ensures
        0 <= text_start(text) <= encode_utf8(text).len(),
        leading_white_space(text) <= text.len(),
{
    lemma_leading_white_space_bound(text);
    let n = leading_white_space(text) as int;
    assert(text =~= text.take(n) + text.skip(n));
    lemma_encode_utf8_append(text.take(n), text.skip(n));
}

proof fn lemma_leading_white_space_bound(s: Seq<char>)
    ensures
        leading_white_space(s) <= s.len(),
        forall|i: int| 0 <= i < leading_white_space(s) ==> is_white_space(#[trigger] s[i]),
        leading_white_space(s) < s.len() ==> !is_white_space(s[leading_white_space(s) as int]),
    decreases s.len(),
{
    if s.len() > 0 && is_white_space(s[0]) {
        lemma_leading_white_space_bound(s.drop_first());
        assert forall|i: int| 0 <= i < leading_white_space(s) implies is_white_space(#[trigger] s[i]) by {
            if i > 0 {
                assert(s[i] == s.drop_first()[i - 1]);
            }
        }
    }
}

// ---------------------------------------------------------------------------
// Laws of the scanner
// ---------------------------------------------------------------------------

/// Every match that `scan_line` reports names the keyword whose tag begins at
/// its offset, inside the line, and spans exactly the keyword's name.
pub proof fn lemma_scan_line_sound(text: Seq<char>)
    requires
        encode_utf8(text).len() <= usize::MAX,
    ensures
        forall|i: int|
            0 <= i < spec_scan_line(text).len() ==> {
                let m = #[trigger] spec_scan_line(text)[i];
                let b = encode_utf8(text);
                &&& m.byte_offset < b.len()
                &&& spec_match_at(b.skip(m.byte_offset as int)) == Some(m.keyword)
                &&& m.byte_len == name_bytes(m.keyword).len()
                &&& m.byte_offset + m.byte_len <= b.len()
            },
{
    lemma_text_start(text);
    lemma_scan_bytes_sound(encode_utf8(text), text_start(text));
}

/// No byte offset is reported twice.
pub proof fn lemma_scan_line_offsets_distinct(text: Seq<char>)
    requires
        encode_utf8(text).len() <= usize::MAX,
    ensures
        forall|i: int, j: int|
            0 <= i < j < spec_scan_line(text).len() ==> #[trigger] spec_scan_line(text)[i].byte_offset
                != #[trigger] spec_scan_line(text)[j].byte_offset,
{
    let b = encode_utf8(text);
    let t = text_start(text);
    lemma_text_start(text);
    lemma_candidate_positions(b, t);
    lemma_candidate_positions_fit(b, t);
    lemma_matches_at(b, candidate_positions(b, t));
}

/// A keyword is reported at offset `p` exactly when `p` lies inside the line,
/// is one of the places where a keyword may begin (the start of the text,
/// after a comment leader and whitespace, or after an opening `"` and
/// whitespace), and a keyword tag begins there.
pub proof fn lemma_scan_line_reports(text: Seq<char>, p: int)
    requires
        encode_utf8(text).len() <= usize::MAX,
    ensures
        ({
            let b = encode_utf8(text);
            (exists|i: int| 0 <= i < spec_scan_line(text).len() && #[trigger] spec_scan_line(text)[i].byte_offset == p)
                <==> (0 <= p < b.len() && raw_candidates(b, text_start(text)).contains(p) && spec_match_at(b.skip(p)) is Some)
        }),
{
    lemma_text_start(text);
    lemma_scan_bytes_reports(encode_utf8(text), text_start(text), p);
}

/// Where a reported keyword can stand: at the start of the line's text
/// after white space, right after a comment leader (with its extra slashes)
/// and whitespace, or after a `"` that opens the text and whitespace.
pub proof fn lemma_scan_line_placement(text: Seq<char>, i: int)
    requires
        encode_utf8(text).len() <= usize::MAX,
        0 <= i < spec_scan_line(text).len(),
    ensures
        ({
            let b = encode_utf8(text);
            let p = spec_scan_line(text)[i].byte_offset as int;
            let t = text_start(text);
            ||| p == t
            ||| exists|j: int, k: int|
                #![trigger leader_occurs_at(b, j, k)]
                0 <= k < leader_count() && leader_occurs_at(b, j, k) && p == skip_ws(
                    b,
                    end_of_leader(b, j, k),
                )
            ||| (b[t] == 34 && p == skip_ws(b, t + 1))
        }),
{
    let b = encode_utf8(text);
    let t = text_start(text);
    let p = spec_scan_line(text)[i].byte_offset as int;
    lemma_scan_line_reports(text, p);
    lemma_leader_targets(b, 0);
    let ls = line_start_candidates(b, t);
    let lt = leader_targets(b, 0);
    let q = quote_candidates(b, t);
    let r = raw_candidates(b, t);
    let n = choose|n: int| 0 <= n < r.len() && r[n] == p;
    if n < ls.len() {
        assert(ls[n] == p);
    } else if n < ls.len() + lt.len() {
        assert(lt[n - ls.len()] == p);
        assert(lt.contains(p));
    } else {
        assert(q[n - ls.len() - lt.len()] == p);
    }
}

/// When the line's text, after leading white space, begins with a keyword
/// tag, that keyword is the first match reported.
pub proof fn lemma_scan_line_start(text: Seq<char>)
    ensures
        ({
            let b = encode_utf8(text);
            let t = text_start(text);
            t < b.len() && spec_match_at(b.skip(t)) is Some ==> {
                &&& spec_scan_line(text).len() > 0
                &&& spec_scan_line(text)[0] == match_of(spec_match_at(b.skip(t))->0, t)
            }
        }),
{
    let b = encode_utf8(text);
    let t = text_start(text);
    if t < b.len() && spec_match_at(b.skip(t)) is Some {
        let empty: Seq<int> = seq![];
        let ps = candidate_positions(b, t);
        let rest = leader_targets(b, 0) + quote_candidates(b, t);
        lemma_keep_new_append(empty, line_start_candidates(b, t), rest, b.len() as int);
        assert(raw_candidates(b, t) =~= line_start_candidates(b, t) + rest);
        let first = keep_new(empty, line_start_candidates(b, t), b.len() as int);
        assert(line_start_candidates(b, t) == seq![t]);
        assert(line_start_candidates(b, t).drop_first() =~= Seq::<int>::empty());
        assert(!empty.contains(t));
        assert(first == keep_new(empty.push(t), Seq::<int>::empty(), b.len() as int));
        assert(first =~= seq![t]);
        lemma_keep_new(first, rest, b.len() as int);
        assert(first.is_prefix_of(ps));
        assert(ps[0] == t);
        lemma_matches_at_first(b, ps);
    }
}

/// Skipping whitespace twice skips no more than once.
pub proof fn lemma_skip_ws_idempotent(b: Seq<u8>, j: int)
    ensures
        skip_ws(b, skip_ws(b, j)) == skip_ws(b, j),
    decreases b.len() - j,
{
    if 0 <= j < b.len() && is_ascii_whitespace(b[j]) {
        lemma_skip_ws_idempotent(b, j + 1);
    }
}

// ---------------------------------------------------------------------------
// Indentation
// ---------------------------------------------------------------------------

/// The positions `s`, each moved `d` bytes to the right.
pub open spec fn shifted(s: Seq<int>, d: int) -> Seq<int> {
    s.map_values(|x: int| x + d)
}

/// The match `m`, one byte further to the right.
pub open spec fn indented_match(m: Match) -> Match {
    Match { keyword: m.keyword, byte_offset: (m.byte_offset + 1) as usize, byte_len: m.byte_len }
}

proof fn lemma_leader_occurs_shift(p: Seq<u8>, b: Seq<u8>, i: int, k: int)
    requires
        0 <= i,
    ensures
        leader_occurs_at(p + b, i + p.len(), k) == leader_occurs_at(b, i, k),
{
    let l = leader_bytes(k).len();
    if i + l <= b.len() {
        assert((p + b).subrange(i + p.len(), i + p.len() + l) =~= b.subrange(i, i + l));
    }
}

proof fn lemma_first_leader_shift(p: Seq<u8>, b: Seq<u8>, i: int, k: int)
    requires
        0 <= i,
    ensures
        first_leader_from(p + b, i + p.len(), k) == first_leader_from(b, i, k),
    decreases leader_count() - k,
{
    if 0 <= k < leader_count() {
        lemma_leader_occurs_shift(p, b, i, k);
        lemma_first_leader_shift(p, b, i, k + 1);
    }
}

proof fn lemma_skip_slashes_shift(p: Seq<u8>, b: Seq<u8>, j: int)
    requires
        0 <= j,
    ensures
        skip_slashes(p + b, j + p.len()) == skip_slashes(b, j) + p.len(),
    decreases b.len() - j,
{
    if j < b.len() {
        assert((p + b)[j + p.len()] == b[j]);
        if b[j] == 47 {
            lemma_skip_slashes_shift(p, b, j + 1);
        }
    }
}

proof fn lemma_skip_ws_shift(p: Seq<u8>, b: Seq<u8>, j: int)
    requires
        0 <= j,
    ensures
        skip_ws(p + b, j + p.len()) == skip_ws(b, j) + p.len(),
    decreases b.len() - j,
{
    if j < b.len() {
        assert((p + b)[j + p.len()] == b[j]);
        if is_ascii_whitespace(b[j]) {
            lemma_skip_ws_shift(p, b, j + 1);
        }
    }
}

/// Reading for leaders after a prefix finds the same leaders, moved by the
/// prefix's length.
proof fn lemma_leader_targets_shift(p: Seq<u8>, b: Seq<u8>, i: int)
    requires
        0 <= i,
    ensures
        leader_targets(p + b, i + p.len()) == shifted(leader_targets(b, i), p.len() as int),
    decreases b.len() - i,
{
    let d = p.len() as int;
    let pb = p + b;
    if i >= b.len() {
        assert(shifted(leader_targets(b, i), d) =~= Seq::<int>::empty());
    } else {
        lemma_first_leader_shift(p, b, i, 0);
        match first_leader_from(b, i, 0) {
            Some(k) => {
                lemma_end_of_leader(b, i, k);
                let e = end_of_leader(b, i, k);
                let l = leader_bytes(k).len() as int;
                if is_slash_leader(k) {
                    lemma_skip_slashes_shift(p, b, i + l);
                }
                assert(end_of_leader(pb, i + d, k) == e + d);
                lemma_skip_ws_shift(p, b, e);
                lemma_leader_targets_shift(p, b, e);
                assert(leader_targets(pb, i + d) == seq![skip_ws(pb, e + d)] + leader_targets(
                    pb,
                    e + d,
                ));
                assert(shifted(leader_targets(b, i), d) =~= seq![skip_ws(b, e) + d] + shifted(
                    leader_targets(b, e),
                    d,
                ));
            },
            None => {
                lemma_leader_targets_shift(p, b, i + 1);
            },
        }
    }
}

/// No leader begins with a space.
proof fn lemma_no_leader_at_space(b: Seq<u8>, i: int, k: int)
    requires
        0 <= i < b.len(),
        b[i] == 32,
    ensures
        first_leader_from(b, i, k) is None,
    decreases leader_count() - k,
{
    if 0 <= k < leader_count() {
        lemma_leader_bytes(k);
        if leader_occurs_at(b, i, k) {
            assert(b.subrange(i, i + leader_bytes(k).len())[0] == b[i]);
        }
        lemma_no_leader_at_space(b, i, k + 1);
    }
}

/// Keeping new positions commutes with moving them all by `d`.
proof fn lemma_keep_new_shift(acc: Seq<int>, cands: Seq<int>, len: int, d: int)
    ensures
        keep_new(shifted(acc, d), shifted(cands, d), len + d) == shifted(
            keep_new(acc, cands, len),
            d,
        ),
    decreases cands.len(),
{
    if cands.len() == 0 {
        assert(shifted(cands, d).len() == 0);
    } else {
        let c = cands[0];
        let next = if c < len && !acc.contains(c) {
            acc.push(c)
        } else {
            acc
        };
        assert(shifted(cands, d)[0] == c + d);
        assert(shifted(cands, d).drop_first() =~= shifted(cands.drop_first(), d));
        assert(shifted(acc, d).contains(c + d) <==> acc.contains(c)) by {
            if acc.contains(c) {
                let j = choose|j: int| 0 <= j < acc.len() && acc[j] == c;
                assert(shifted(acc, d)[j] == c + d);
            }
            if shifted(acc, d).contains(c + d) {
                let j = choose|j: int| 0 <= j < shifted(acc, d).len() && shifted(acc, d)[j] == c + d;
                assert(acc[j] == c);
            }
        }
        if c < len && !acc.contains(c) {
            assert(shifted(acc.push(c), d) =~= shifted(acc, d).push(c + d));
        }
        lemma_keep_new_shift(next, cands.drop_first(), len, d);
    }
}

/// Matching at positions moved by one byte in a line with one more byte in
/// front gives the same matches, each one byte further.
proof fn lemma_matches_at_shift(b: Seq<u8>, ps: Seq<int>)
    requires
        b.len() + 1 <= usize::MAX,
        forall|i: int| 0 <= i < ps.len() ==> 0 <= #[trigger] ps[i] < b.len(),
    ensures
        matches_at(seq![32u8] + b, shifted(ps, 1)) == matches_at(b, ps).map_values(
            |m: Match| indented_match(m),
        ),
    decreases ps.len(),
{
    let sb = seq![32u8] + b;
    if ps.len() == 0 {
        assert(shifted(ps, 1).len() == 0);
        assert(matches_at(b, ps).map_values(|m: Match| indented_match(m)) =~= Seq::<Match>::empty());
    } else {
        let front = ps.drop_last();
        let p = ps.last();
        assert(shifted(ps, 1).drop_last() =~= shifted(front, 1));
        assert(shifted(ps, 1).last() == p + 1);
        assert(sb.skip(p + 1) =~= b.skip(p));
        assert(ps[ps.len() - 1] == p);
        lemma_matches_at_shift(b, front);
        let earlier = matches_at(b, front);
        match spec_match_at(b.skip(p)) {
            Some(k) => {
                assert(indented_match(match_of(k, p)) == match_of(k, p + 1));
                assert(earlier.push(match_of(k, p)).map_values(|m: Match| indented_match(m))
                    =~= earlier.map_values(|m: Match| indented_match(m)).push(match_of(k, p + 1)));
            },
            None => {},
        }
    }
}

/// Indenting a line by one space moves every match one byte to the right
/// and changes nothing else.
pub proof fn lemma_scan_line_indent(text: Seq<char>)
    requires
        encode_utf8(text).len() + 1 <= usize::MAX,
    ensures
        spec_scan_line(seq![' '] + text) == spec_scan_line(text).map_values(
            |m: Match| indented_match(m),
        ),
{
    let sp = seq![32u8];
    let itext = seq![' '] + text;
    let b = encode_utf8(text);
    let ib = encode_utf8(itext);
    let t = text_start(text);
    lemma_text_start(text);
    // The encoding gains one space byte in front.
    assert(itext[0] == ' ');
    assert(itext.drop_first() =~= text);
    assert((0x20u32 & 0x7fu32) == 0x20u32) by (bit_vector);
    assert(vstd::utf8::encode_scalar(' ' as u32) =~= sp);
    assert(ib == vstd::utf8::encode_scalar(' ' as u32) + encode_utf8(text));
    assert(ib =~= sp + b);
    // The text begins one byte later.
    let n = leading_white_space(text) as int;
    assert(leading_white_space(itext) == 1 + leading_white_space(text));
    assert(itext.take(n + 1) =~= seq![' '] + text.take(n));
    assert(itext.take(n + 1)[0] == ' ');
    assert(itext.take(n + 1).drop_first() =~= text.take(n));
    assert(encode_utf8(itext.take(n + 1)) == vstd::utf8::encode_scalar(' ' as u32) + encode_utf8(
        text.take(n),
    ));
    assert(encode_utf8(itext.take(n + 1)) =~= sp + encode_utf8(text.take(n)));
    assert(text_start(itext) == t + 1);
    // The candidates move by one byte.
    lemma_no_leader_at_space(ib, 0, 0);
    lemma_leader_targets_shift(sp, b, 0);
    assert(leader_targets(ib, 0) == leader_targets(ib, 1));
    assert(ib.skip(t + 1) =~= b.skip(t));
    assert(line_start_candidates(ib, t + 1) =~= shifted(line_start_candidates(b, t), 1));
    if t < b.len() {
        assert(ib[t + 1] == b[t]);
        lemma_skip_ws_shift(sp, b, t + 1);
    }
    assert(quote_candidates(ib, t + 1) =~= shifted(quote_candidates(b, t), 1));
    assert(raw_candidates(ib, t + 1) =~= shifted(raw_candidates(b, t), 1));
    let empty: Seq<int> = seq![];
    assert(shifted(empty, 1) =~= empty);
    lemma_keep_new_shift(empty, raw_candidates(b, t), b.len() as int, 1);
    assert(candidate_positions(ib, t + 1) == shifted(candidate_positions(b, t), 1));
    lemma_candidate_positions_fit(b, t);
    lemma_matches_at_shift(b, candidate_positions(b, t));
}

/// A byte that begins no comment leader.
pub open spec fn begins_no_leader(c: u8) -> bool {
    c != 47 && c != 45 && c != 35 && c != 42 && c != 37 && c != 59
}

/// The match `m`, moved `d` bytes to the right.
pub open spec fn moved_match(m: Match, d: int) -> Match {
    Match { keyword: m.keyword, byte_offset: (m.byte_offset + d) as usize, byte_len: m.byte_len }
}

proof fn lemma_no_leader_at(b: Seq<u8>, i: int, k: int)
    requires
        0 <= i < b.len(),
        begins_no_leader(b[i]),
    ensures
        first_leader_from(b, i, k) is None,
    decreases leader_count() - k,
{
    if 0 <= k < leader_count() {
        lemma_leader_bytes(k);
        if leader_occurs_at(b, i, k) {
            assert(b.subrange(i, i + leader_bytes(k).len())[0] == b[i]);
        }
        lemma_no_leader_at(b, i, k + 1);
    }
}

/// Reading for leaders moves through a prefix in which no byte begins one.
proof fn lemma_leader_targets_skip_prefix(p: Seq<u8>, b: Seq<u8>, i: int)
    requires
        0 <= i <= p.len(),
        forall|j: int| 0 <= j < p.len() ==> begins_no_leader(#[trigger] p[j]),
    ensures
        leader_targets(p + b, i) == leader_targets(p + b, p.len() as int),
    decreases p.len() - i,
{
    if i < p.len() {
        let pb = p + b;
        assert(pb[i] == p[i]);
        lemma_no_leader_at(pb, i, 0);
        assert(leader_targets(pb, i) == leader_targets(pb, i + 1));
        lemma_leader_targets_skip_prefix(p, b, i + 1);
    }
}

/// Matching at positions moved past a prefix, in the line with the prefix
/// in front, gives the same matches, each moved by the prefix's length.
proof fn lemma_matches_at_prefix(p: Seq<u8>, b: Seq<u8>, ps: Seq<int>)
    requires
        b.len() + p.len() <= usize::MAX,
        forall|i: int| 0 <= i < ps.len() ==> 0 <= #[trigger] ps[i] < b.len(),
    ensures
        matches_at(p + b, shifted(ps, p.len() as int)) == matches_at(b, ps).map_values(
            |m: Match| moved_match(m, p.len() as int),
        ),
    decreases ps.len(),
{
    let d = p.len() as int;
    let pb = p + b;
    if ps.len() == 0 {
        assert(shifted(ps, d).len() == 0);
        assert(matches_at(b, ps).map_values(|m: Match| moved_match(m, d)) =~= Seq::<Match>::empty());
    } else {
        let front = ps.drop_last();
        let q = ps.last();
        assert(shifted(ps, d).drop_last() =~= shifted(front, d));
        assert(shifted(ps, d).last() == q + d);
        assert(pb.skip(q + d) =~= b.skip(q));
        assert(ps[ps.len() - 1] == q);
        lemma_matches_at_prefix(p, b, front);
        let earlier = matches_at(b, front);
        match spec_match_at(b.skip(q)) {
            Some(k) => {
                assert(moved_match(match_of(k, q), d) == match_of(k, q + d));
                assert(earlier.push(match_of(k, q)).map_values(|m: Match| moved_match(m, d))
                    =~= earlier.map_values(|m: Match| moved_match(m, d)).push(match_of(k, q + d)));
            },
            None => {},
        }
    }
}

/// The bytes of a white-space character begin no leader and are no `"`.
proof fn lemma_white_space_encoding(c: char)
    requires
        is_white_space(c),
    ensures
        1 <= encode_scalar(c as u32).len() <= 4,
        forall|j: int|
            0 <= j < encode_scalar(c as u32).len() ==> begins_no_leader(
                #[trigger] encode_scalar(c as u32)[j],
            ) && encode_scalar(c as u32)[j] != 34,
{
    let v = c as u32;
    let e = encode_scalar(v);
    if v <= 0x7f {
        assert(v <= 0x7f ==> (v & 0x7f) == v) by (bit_vector);
    } else if v <= 0x7ff {
        let x = ((v >> 6) & 0x1f) as u8;
        let y = (v & 0x3f) as u8;
        assert((0xc0u8 | x) >= 0xc0u8) by (bit_vector);
        assert((0x80u8 | y) >= 0x80u8) by (bit_vector);
        assert(e[0] == 0xc0u8 | x);
        assert(e[1] == 0x80u8 | y);
    } else {
        let x = ((v >> 12) & 0x0f) as u8;
        let y = ((v >> 6) & 0x3f) as u8;
        let z = (v & 0x3f) as u8;
        assert((0xe0u8 | x) >= 0xe0u8) by (bit_vector);
        assert((0x80u8 | y) >= 0x80u8) by (bit_vector);
        assert((0x80u8 | z) >= 0x80u8) by (bit_vector);
        assert(e[0] == 0xe0u8 | x);
        assert(e[1] == 0x80u8 | y);
        assert(e[2] == 0x80u8 | z);
    }
}

/// A white-space character in front of a line moves every match by the
/// length of its encoding and changes nothing else.
pub proof fn lemma_scan_line_white_space_prefix(c: char, text: Seq<char>)
    requires
        is_white_space(c),
        encode_utf8(text).len() + 4 <= usize::MAX,
    ensures
        spec_scan_line(seq![c] + text) == spec_scan_line(text).map_values(
            |m: Match| moved_match(m, encode_scalar(c as u32).len() as int),
        ),
{
    let p = encode_scalar(c as u32);
    let d = p.len() as int;
    let itext = seq![c] + text;
    let b = encode_utf8(text);
    let ib = encode_utf8(itext);
    let t = text_start(text);
    lemma_white_space_encoding(c);
    lemma_text_start(text);
    // The encoding gains the character's bytes in front.
    assert(itext[0] == c);
    assert(itext.drop_first() =~= text);
    assert(ib == p + encode_utf8(text));
    // The text begins past them.
    let n = leading_white_space(text) as int;
    assert(leading_white_space(itext) == 1 + leading_white_space(text));
    assert(itext.take(n + 1)[0] == c);
    assert(itext.take(n + 1).drop_first() =~= text.take(n));
    assert(encode_utf8(itext.take(n + 1)) == p + encode_utf8(text.take(n)));
    assert(text_start(itext) == t + d);
    // The candidates move by `d` bytes.
    lemma_leader_targets_skip_prefix(p, b, 0);
    lemma_leader_targets_shift(p, b, 0);
    assert(ib.skip(t + d) =~= b.skip(t));
    assert(line_start_candidates(ib, t + d) =~= shifted(line_start_candidates(b, t), d));
    if t < b.len() {
        assert(ib[t + d] == b[t]);
        lemma_skip_ws_shift(p, b, t + 1);
    }
    assert(quote_candidates(ib, t + d) =~= shifted(quote_candidates(b, t), d));
    assert(raw_candidates(ib, t + d) =~= shifted(raw_candidates(b, t), d));
    let empty: Seq<int> = seq![];
    assert(shifted(empty, d) =~= empty);
    lemma_keep_new_shift(empty, raw_candidates(b, t), b.len() as int, d);
    assert(candidate_positions(ib, t + d) == shifted(candidate_positions(b, t), d));
    lemma_candidate_positions_fit(b, t);
    lemma_matches_at_prefix(p, b, candidate_positions(b, t));
}

/// The characters of the Unicode White_Space property, one by one: tab,
/// line feed, vertical tab, form feed, carriage return, space, U+0085,
/// U+00A0, U+1680, U+2000 to U+200A, U+2028, U+2029, U+202F, U+205F and
/// U+3000.
pub open spec fn is_listed_white_space(c: char) -> bool {
    let v = c as u32;
    ||| v == 0x9 || v == 0xa || v == 0xb || v == 0xc || v == 0xd || v == 0x20
    ||| v == 0x85 || v == 0xa0 || v == 0x1680
    ||| v == 0x2000 || v == 0x2001 || v == 0x2002 || v == 0x2003 || v == 0x2004 || v == 0x2005
    ||| v == 0x2006 || v == 0x2007 || v == 0x2008 || v == 0x2009 || v == 0x200a
    ||| v == 0x2028 || v == 0x2029 || v == 0x202f || v == 0x205f || v == 0x3000
}

/// The text of a line begins right after its longest prefix of White_Space
/// characters: at the first character that is not one, or at the end.
pub proof fn lemma_text_start_is_first_non_space(text: Seq<char>)
    ensures
        exists|n: int|
            #![trigger text.take(n)]
            0 <= n <= text.len() && (forall|i: int|
                0 <= i < n ==> is_listed_white_space(#[trigger] text[i])) && (n < text.len()
                ==> !is_listed_white_space(text[n])) && text_start(text) == encode_utf8(
                text.take(n),
            ).len(),
{
    lemma_leading_white_space_bound(text);
    let n = leading_white_space(text) as int;
    assert forall|i: int| 0 <= i < n implies is_listed_white_space(#[trigger] text[i]) by {
        assert(is_white_space(text[i]));
    }
    if n < text.len() {
        assert(!is_white_space(text[n]));
    }
    assert(text_start(text) == encode_utf8(text.take(n)).len());
}

/// Every Unicode White_Space character in front of a line is leading white
/// space: every match moves by the length of its encoding, and nothing else
/// changes.
pub proof fn lemma_scan_line_leading_white_space(c: char, text: Seq<char>)
    requires
        is_listed_white_space(c),
        encode_utf8(text).len() + 4 <= usize::MAX,
    ensures
        spec_scan_line(seq![c] + text) == spec_scan_line(text).map_values(
            |m: Match| moved_match(m, encode_scalar(c as u32).len() as int),
        ),
{
    assert(is_white_space(c));
    lemma_scan_line_white_space_prefix(c, text);
}

// ---------------------------------------------------------------------------
// Executable scanner
// ---------------------------------------------------------------------------

/// Scan a single line for keyword matches.
///
/// Keywords are recognised only after a comment leader character sequence
/// (`///`, `//!`, `//`, `/*`, `--`, `#`, `*`, `%`, `;`) or at the very start
/// of a line (after whitespace). The `"` leader is only recognised at the
/// start of a line (Vim convention). This avoids false positives inside
/// string literals and identifiers.
///
/// The line is read as UTF-8 bytes: comment leaders, whitespace and tags are
/// ASCII, and offsets are byte offsets.
#[must_use]
pub fn scan_line(line: &str) -> (r: Vec<Match>)
    ensures
        r@ == spec_scan_line(line@),
{
    let positions = keyword_candidate_positions(line);
    let b = line.as_bytes();
    let ghost t = text_start(line@);
    let ghost ps = as_ints(positions@);
    proof {
        lemma_text_start(line@);
        lemma_candidate_positions(b@, t);
        assert forall|i: int| 0 <= i < ps.len() implies #[trigger] ps[i] < b@.len() by {
            assert(ps.contains(ps[i]));
        }
    }
    let mut results: Vec<Match> = Vec::new();
    let mut n: usize = 0;
    while n < positions.len()
        invariant
            ps == as_ints(positions@),
            ps == candidate_positions(b@, t),
            forall|i: int| 0 <= i < ps.len() ==> #[trigger] ps[i] < b@.len(),
            0 <= n <= positions.len(),
            results@ == matches_at(b@, ps.take(n as int)),
        decreases positions.len() - n,
    {
        let start = positions[n];
        assert(ps[n as int] == start);
        assert(ps.take(n + 1).drop_last() =~= ps.take(n as int));
        if let Some(kw) = tag_at(b, start) {
            results.push(Match { keyword: kw, byte_offset: start, byte_len: kw.name().len() });
        }
        n += 1;
    }
    assert(ps.take(positions.len() as int) =~= ps);
    results
}

/// Byte offsets within `line` where a keyword could plausibly begin.
///
/// These are the positions right after a comment leader token, past any
/// whitespace, and the start of the line (after leading whitespace) when a
/// keyword is there.
fn keyword_candidate_positions(line: &str) -> (r: Vec<usize>)
    ensures
        as_ints(r@) == candidate_positions(line.spec_bytes(), text_start(line@)),
{
    let b = line.as_bytes();
    let len = b.len();
    let ghost bs = b@;
    let ghost len_i = len as int;
    // The start of the line's text, after leading white space.
    let leading_ws = text_start_offset(line);
    let ghost t = leading_ws as int;
    let ghost q = quote_candidates(bs, t);
    let mut positions: Vec<usize> = Vec::new();
    if leading_ws < len && tag_at(b, leading_ws).is_some() {
        positions.push(leading_ws);
    }
    proof {
        let empty: Seq<int> = seq![];
        assert(as_ints(positions@) =~= keep_new(empty, line_start_candidates(bs, t), len_i)) by {
            if leading_ws < len && spec_match_at(bs.skip(leading_ws as int)) is Some {
                let s = line_start_candidates(bs, t);
                assert(s.drop_first() =~= seq![]);
                assert(keep_new(empty, s, len_i) == keep_new(empty.push(leading_ws as int), s.drop_first(), len_i));
            }
        }
        lemma_keep_new_append(
            empty,
            line_start_candidates(bs, t),
            leader_targets(bs, 0) + q,
            len_i,
        );
        assert(raw_candidates(bs, t) =~= line_start_candidates(bs, t) + (leader_targets(bs, 0) + q));
    }
    // The positions after each comment leader, read left to right.
    let mut i: usize = 0;
    while i < len
        invariant
            b@ == bs,
            bs == line.spec_bytes(),
            len == bs.len(),
            len_i == len,
            q == quote_candidates(bs, t),
            t == leading_ws,
            0 <= i <= len,
            keep_new(as_ints(positions@), leader_targets(bs, i as int) + q, len_i)
                == candidate_positions(bs, t),
        decreases len - i,
    {
        match leader_at(b, i) {
            Some(k) => {
                let after = leader_end(b, i, k);
                let pos = skip_whitespace(line, after);
                let ghost acc = as_ints(positions@);
                let ghost rest = leader_targets(bs, after as int);
                proof {
                    lemma_end_of_leader(bs, i as int, k as int);
                    assert(first_leader_from(bs, i as int, 0) == Some(k as int));
                    assert(end_of_leader(bs, i as int, k as int) == after as int);
                    assert(skip_ws(bs, after as int) == pos as int);
                    assert(leader_targets(bs, i as int) == seq![pos as int] + rest);
                    assert((seq![pos as int] + rest) + q =~= seq![pos as int] + (rest + q));
                    assert((seq![pos as int] + (rest + q)).drop_first() =~= rest + q);
                }
                if pos < len && !contains_position(&positions, pos) {
                    positions.push(pos);
                    proof {
                        assert(as_ints(positions@) =~= acc.push(pos as int));
                    }
                }
                i = after;
            },
            None => {
                i += 1;
            },
        }
    }
    // `"` is a comment leader only at the start of the line (Vim).
    proof {
        assert(leader_targets(bs, i as int) + q =~= q);
    }
    let ghost acc = as_ints(positions@);
    if leading_ws < len && b[leading_ws] == 34 {
        let after_quote = leading_ws + 1;
        let pos = skip_whitespace(line, after_quote);
        proof {
            assert(q == seq![pos as int]);
            assert(q.drop_first() =~= Seq::<int>::empty());
        }
        if pos < len && !contains_position(&positions, pos) {
            positions.push(pos);
            proof {
                assert(as_ints(positions@) =~= acc.push(pos as int));
                assert(keep_new(acc, q, len_i) == keep_new(
                    acc.push(pos as int),
                    Seq::<int>::empty(),
                    len_i,
                ));
            }
        } else {
            assert(keep_new(acc, q, len_i) == keep_new(acc, Seq::<int>::empty(), len_i));
        }
    } else {
        assert(q =~= Seq::<int>::empty());
    }
    positions
}

/// Whether `v` holds `x`.
fn contains_position(v: &Vec<usize>, x: usize) -> (r: bool)
    ensures
        r == as_ints(v@).contains(x as int),
{
    let mut i: usize = 0;
    while i < v.len()
        invariant
            0 <= i <= v@.len(),
            forall|j: int| 0 <= j < i ==> v@[j] != x,
        decreases v.len() - i,
    {
        if v[i] == x {
            assert(as_ints(v@)[i as int] == x as int);
            return true;
        }
        i += 1;
    }
    proof {
        if as_ints(v@).contains(x as int) {
            let j = choose|j: int| 0 <= j < as_ints(v@).len() && as_ints(v@)[j] == x as int;
            assert(v@[j] == x);
        }
    }
    false
}

/// The comment leader `k` of the order.
fn comment_leader(k: usize) -> (r: &'static str)
    requires
        k < leader_count(),
    ensures
        r.spec_bytes() == leader_bytes(k as int),
{
    let r = if k == 0 {
        proof { reveal_strlit("///"); }
        "///"
    } else if k == 1 {
        proof { reveal_strlit("//!"); }
        "//!"
    } else if k == 2 {
        proof { reveal_strlit("//"); }
        "//"
    } else if k == 3 {
        proof { reveal_strlit("/*"); }
        "/*"
    } else if k == 4 {
        proof { reveal_strlit("--"); }
        "--"
    } else if k == 5 {
        proof { reveal_strlit("#"); }
        "#"
    } else if k == 6 {
        proof { reveal_strlit("*"); }
        "*"
    } else if k == 7 {
        proof { reveal_strlit("%"); }
        "%"
    } else {
        proof { reveal_strlit(";"); }
        ";"
    };
    proof {
        lemma_leader_bytes(k as int);
        assert(r@ =~= leader_chars(k as int));
        vstd::string::is_ascii_spec_bytes(r);
        assert(r.spec_bytes() =~= leader_bytes(k as int));
    }
    r
}

/// Whether `b` holds `pat` at index `i`.
fn bytes_at(b: &[u8], i: usize, pat: &[u8]) -> (r: bool)
    requires
        i <= b@.len(),
    ensures
        r == (i + pat@.len() <= b@.len() && b@.subrange(i as int, i + pat@.len()) == pat@),
{
    let n = pat.len();
    if n > b.len() - i {
        return false;
    }
    let mut j: usize = 0;
    while j < n
        invariant
            n == pat@.len(),
            i + n <= b.len(),
            0 <= j <= n,
            forall|m: int| 0 <= m < j ==> b@[i + m] == pat@[m],
        decreases n - j,
    {
        if b[i + j] != pat[j] {
            assert(b@.subrange(i as int, i + n)[j as int] != pat@[j as int]);
            return false;
        }
        j += 1;
    }
    assert(b@.subrange(i as int, i + n) =~= pat@);
    true
}

/// The first comment leader of the order that occurs in `b` at `i`.
fn leader_at(b: &[u8], i: usize) -> (r: Option<usize>)
    requires
        i < b@.len(),
    ensures
        match r {
            Some(k) => first_leader_from(b@, i as int, 0) == Some(k as int),
            None => first_leader_from(b@, i as int, 0) is None,
        },
{
    let mut k: usize = 0;
    while k < 9
        invariant
            0 <= k <= leader_count(),
            i < b@.len(),
            first_leader_from(b@, i as int, 0) == first_leader_from(b@, i as int, k as int),
        decreases 9 - k,
    {
        let leader = comment_leader(k).as_bytes();
        if bytes_at(b, i, leader) {
            return Some(k);
        }
        k += 1;
    }
    None
}

/// The index past leader `k`, found at `i`, and past the extra slashes of a
/// `//` leader.
fn leader_end(b: &[u8], i: usize, k: usize) -> (r: usize)
    requires
        i < b@.len(),
        first_leader_from(b@, i as int, 0) == Some(k as int),
    ensures
        r == end_of_leader(b@, i as int, k as int),
{
    proof {
        lemma_first_leader_from(b@, i as int, 0);
    }
    let leader = comment_leader(k).as_bytes();
    let blen = b.len();
    assert(i + leader.len() <= blen);
    let mut after = i + leader.len();
    if leader.len() >= 2 && leader[0] == 47 && leader[1] == 47 {
        // For `//`-family leaders, consume any additional slashes.
        while after < b.len() && b[after] == 47
            invariant
                i + leader@.len() <= after <= b@.len(),
                skip_slashes(b@, after as int) == skip_slashes(b@, i + leader@.len()),
            decreases b.len() - after,
        {
            after += 1;
        }
    }
    after
}

/// Skip ASCII whitespace starting at `from`, returning the first non-space
/// byte offset (or `line.len()` if the rest is whitespace).
fn skip_whitespace(line: &str, from: usize) -> (r: usize)
    ensures
        r == skip_ws(line.spec_bytes(), from as int),
{
    let bytes = line.as_bytes();
    let mut i = from;
    while i < bytes.len() && is_ascii_whitespace_byte(bytes[i])
        invariant
            from <= i,
            skip_ws(bytes@, i as int) == skip_ws(bytes@, from as int),
        decreases bytes@.len() - i,
    {
        i += 1;
    }
    i
}

/// The byte offset at which the line's text begins, past its leading white
/// space (what `str::trim_start` strips).
fn text_start_offset(line: &str) -> (r: usize)
    ensures
        r == text_start(line@),
{
    broadcast use vstd::string::axiom_spec_iter, vstd::string::next_postcondition;

    let ghost text = line@;
    let blen = line.as_bytes().len();
    let mut chars = line.chars();
    let mut start: usize = 0;
    let ghost mut n: int = 0;
    proof {
        assert(text.skip(0) =~= text);
        assert(text.take(0) =~= Seq::<char>::empty());
    }
    loop
        invariant_except_break
            text == line@,
            blen == encode_utf8(text).len(),
            0 <= n <= text.len(),
            chars.remaining() == text.skip(n),
            start == encode_utf8(text.take(n)).len(),
            leading_white_space(text) == n + leading_white_space(text.skip(n)),
        ensures
            start == text_start(text),
        decreases text.len() - n,
    {
        let ghost before = chars.remaining();
        match chars.next() {
            Some(c) => {
                proof {
                    assert(c == text[n]);
                }
                if is_white_space_char(c) {
                    proof {
                        lemma_encode_utf8_take(text, n);
                        assert(text.skip(n).drop_first() =~= text.skip(n + 1));
                    }
                    start = start + utf8_width(c);
                    proof {
                        n = n + 1;
                    }
                } else {
                    proof {
                        assert(leading_white_space(text.skip(n)) == 0);
                    }
                    break;
                }
            },
            None => {
                proof {
                    assert(leading_white_space(text.skip(n)) == 0);
                }
                break;
            },
        }
    }
    start
}

} // verus!
