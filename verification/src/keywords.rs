//! Keyword definitions with colors and sign text.

use vstd::prelude::*;
use vstd::utf8::is_ascii_chars;

use crate::text::{
    ascii_lower, eq_ignore_ascii_case, is_ascii_whitespace, is_ascii_whitespace_byte, to_ascii_lower,
};
use vstd::string::StringSliceAdditionalSpecFns;

verus! {

/// A keyword that is highlighted in comments.
#[derive(Debug, Clone, Copy, PartialEq, Eq, Hash, Structural)]
pub enum Keyword {
    Todo,
    Fixme,
    Hack,
    Warn,
    Note,
    Perf,
    Test,
}

/// The canonical (uppercase) name of a keyword.
pub open spec fn spec_name(k: Keyword) -> Seq<char> {
    match k {
        Keyword::Todo => seq!['T', 'O', 'D', 'O'],
        Keyword::Fixme => seq!['F', 'I', 'X', 'M', 'E'],
        Keyword::Hack => seq!['H', 'A', 'C', 'K'],
        Keyword::Warn => seq!['W', 'A', 'R', 'N'],
        Keyword::Note => seq!['N', 'O', 'T', 'E'],
        Keyword::Perf => seq!['P', 'E', 'R', 'F'],
        Keyword::Test => seq!['T', 'E', 'S', 'T'],
    }
}


/// The keywords in the order in which `match_at` tries them.
pub open spec fn keyword_order(i: int) -> Keyword {
    if i == 0 {
        Keyword::Todo
    } else if i == 1 {
        Keyword::Fixme
    } else if i == 2 {
        Keyword::Hack
    } else if i == 3 {
        Keyword::Warn
    } else if i == 4 {
        Keyword::Note
    } else if i == 5 {
        Keyword::Perf
    } else {
        Keyword::Test
    }
}

/// The number of keywords.
pub open spec fn keyword_count() -> int {
    7
}

/// The UTF-8 bytes of a keyword's name (one byte per character: the names are ASCII).
pub open spec fn name_bytes(k: Keyword) -> Seq<u8> {
    spec_name(k).map_values(|c: char| c as u8)
}

/// A byte that may follow a keyword tag: `:`, `(` or ASCII whitespace.
pub open spec fn is_tag_terminator(c: u8) -> bool {
    c == 58 || c == 40 || is_ascii_whitespace(c)
}

/// `b` begins with the tag of `k`: its name in any ASCII case, followed by the
/// end of `b` or by a terminator byte.
pub open spec fn tag_at_start(b: Seq<u8>, k: Keyword) -> bool {
    let n = name_bytes(k);
    &&& n.len() <= b.len()
    &&& eq_ignore_ascii_case(b.take(n.len() as int), n)
    &&& (b.len() == n.len() || is_tag_terminator(b[n.len() as int]))
}

/// The first keyword, from position `i` of the order on, whose tag begins `b`.
pub open spec fn first_tag_from(b: Seq<u8>, i: int) -> Option<Keyword>
    decreases keyword_count() - i,
{
    if i < 0 || i >= keyword_count() {
        None
    } else if tag_at_start(b, keyword_order(i)) {
        Some(keyword_order(i))
    } else {
        first_tag_from(b, i + 1)
    }
}

/// The keyword whose tag begins the byte sequence `b`, if any.
pub open spec fn spec_match_at(b: Seq<u8>) -> Option<Keyword> {
    first_tag_from(b, 0)
}

/// Foreground colour of each keyword's highlight group.
pub open spec fn spec_fg_color(k: Keyword) -> Seq<char> {
    match k {
        Keyword::Todo => "#2563eb"@,
        Keyword::Fixme => "#dc2626"@,
        Keyword::Hack => "#ea580c"@,
        Keyword::Warn => "#d97706"@,
        Keyword::Note => "#16a34a"@,
        Keyword::Perf => "#9333ea"@,
        Keyword::Test => "#0891b2"@,
    }
}

/// Background colour of each keyword's highlight group.
pub open spec fn spec_bg_color(k: Keyword) -> Seq<char> {
    match k {
        Keyword::Todo => "#1e3a5f"@,
        Keyword::Fixme => "#3f1219"@,
        Keyword::Hack => "#431407"@,
        Keyword::Warn => "#451a03"@,
        Keyword::Note => "#052e16"@,
        Keyword::Perf => "#2e1065"@,
        Keyword::Test => "#083344"@,
    }
}

/// Highlight group of each keyword.
pub open spec fn spec_hl_group(k: Keyword) -> Seq<char> {
    match k {
        Keyword::Todo => "ShirubeTodo"@,
        Keyword::Fixme => "ShirubeFixme"@,
        Keyword::Hack => "ShirubeHack"@,
        Keyword::Warn => "ShirubeWarn"@,
        Keyword::Note => "ShirubeNote"@,
        Keyword::Perf => "ShirubePerf"@,
        Keyword::Test => "ShirubeTest"@,
    }
}

/// Sign-column text of each keyword.
pub open spec fn spec_sign_text(k: Keyword) -> Seq<char> {
    match k {
        Keyword::Todo => "TD"@,
        Keyword::Fixme => "FX"@,
        Keyword::Hack => "HK"@,
        Keyword::Warn => "WN"@,
        Keyword::Note => "NT"@,
        Keyword::Perf => "PF"@,
        Keyword::Test => "TS"@,
    }
}

/// Facts about the bytes of each name: ASCII uppercase letters, four or five of them.
pub proof fn lemma_name_bytes(k: Keyword)
    ensures
        is_ascii_chars(spec_name(k)),
        name_bytes(k).len() == spec_name(k).len(),
        4 <= name_bytes(k).len() <= 5,
        forall|i: int|
            0 <= i < name_bytes(k).len() ==> 65 <= #[trigger] name_bytes(k)[i] <= 90,
        forall|i: int|
            0 <= i < name_bytes(k).len() ==> #[trigger] name_bytes(k)[i] == spec_name(k)[i] as u8,
{
}

/// Two keyword tags never begin the same text: whichever of two names fits,
/// the byte after the shorter one would have to be both a terminator and a letter.
pub proof fn lemma_tags_exclusive(b: Seq<u8>, k1: Keyword, k2: Keyword)
    requires
        tag_at_start(b, k1),
        tag_at_start(b, k2),
    ensures
        k1 == k2,
{
    lemma_name_bytes(k1);
    lemma_name_bytes(k2);
    let n1 = name_bytes(k1);
    let n2 = name_bytes(k2);
    let w1 = b.take(n1.len() as int);
    let w2 = b.take(n2.len() as int);
    assert(ascii_lower(w1[0]) == ascii_lower(n1[0]));
    assert(ascii_lower(w2[0]) == ascii_lower(n2[0]));
    assert(ascii_lower(w1[1]) == ascii_lower(n1[1]));
    assert(ascii_lower(w2[1]) == ascii_lower(n2[1]));
    assert(ascii_lower(w1[2]) == ascii_lower(n1[2]));
    assert(ascii_lower(w2[2]) == ascii_lower(n2[2]));
    assert(ascii_lower(w1[3]) == ascii_lower(n1[3]));
    assert(ascii_lower(w2[3]) == ascii_lower(n2[3]));
    if n1.len() == 5 {
        assert(ascii_lower(w1[4]) == ascii_lower(n1[4]));
    }
    if n2.len() == 5 {
        assert(ascii_lower(w2[4]) == ascii_lower(n2[4]));
    }
}

proof fn lemma_first_tag_from(b: Seq<u8>, i: int, k: Keyword, j: int)
    requires
        0 <= i <= j < keyword_count(),
        keyword_order(j) == k,
        tag_at_start(b, k),
    ensures
        first_tag_from(b, i) == Some(k),
    decreases j - i,
{
    if tag_at_start(b, keyword_order(i)) {
        lemma_tags_exclusive(b, keyword_order(i), k);
    } else {
        lemma_first_tag_from(b, i + 1, k, j);
    }
}

proof fn lemma_first_tag_from_sound(b: Seq<u8>, i: int)
    ensures
        first_tag_from(b, i) matches Some(k) ==> tag_at_start(b, k),
    decreases keyword_count() - i,
{
    if 0 <= i < keyword_count() && !tag_at_start(b, keyword_order(i)) {
        lemma_first_tag_from_sound(b, i + 1);
    }
}

/// Each keyword has a position in the order.
pub proof fn lemma_keyword_order_covers(k: Keyword)
    ensures
        exists|j: int| 0 <= j < keyword_count() && keyword_order(j) == k,
{
    match k {
        Keyword::Todo => assert(keyword_order(0) == k),
        Keyword::Fixme => assert(keyword_order(1) == k),
        Keyword::Hack => assert(keyword_order(2) == k),
        Keyword::Warn => assert(keyword_order(3) == k),
        Keyword::Note => assert(keyword_order(4) == k),
        Keyword::Perf => assert(keyword_order(5) == k),
        Keyword::Test => assert(keyword_order(6) == k),
    }
}

/// `match_at` finds `k` exactly when the text begins with `k`'s name, in any
/// ASCII case, followed by the end of the text, `:`, `(` or ASCII whitespace.
pub proof fn lemma_match_at_iff_tag(b: Seq<u8>, k: Keyword)
    ensures
        spec_match_at(b) == Some(k) <==> tag_at_start(b, k),
{
    lemma_first_tag_from_sound(b, 0);
    if tag_at_start(b, k) {
        lemma_keyword_order_covers(k);
        let j = choose|j: int| 0 <= j < keyword_count() && keyword_order(j) == k;
        lemma_first_tag_from(b, 0, k, j);
    }
}

/// `match_at` finds nothing exactly when no keyword's tag begins the text.
pub proof fn lemma_match_at_none(b: Seq<u8>)
    ensures
        spec_match_at(b) is None <==> forall|k: Keyword| !tag_at_start(b, k),
{
    lemma_first_tag_from_sound(b, 0);
    if exists|k: Keyword| tag_at_start(b, k) {
        let k = choose|k: Keyword| tag_at_start(b, k);
        lemma_match_at_iff_tag(b, k);
    }
}

/// A keyword's own name, in upper case or in lower case, is matched as that keyword.
pub proof fn lemma_name_matches_itself(k: Keyword)
    ensures
        spec_match_at(name_bytes(k)) == Some(k),
        spec_match_at(name_bytes(k).map_values(|c: u8| ascii_lower(c))) == Some(k),
{
    lemma_name_bytes(k);
    let n = name_bytes(k);
    let l = n.map_values(|c: u8| ascii_lower(c));
    assert(n.take(n.len() as int) =~= n);
    assert(l.take(n.len() as int) =~= l);
    assert(forall|i: int| 0 <= i < l.len() ==> #[trigger] ascii_lower(l[i]) == ascii_lower(n[i]));
    lemma_match_at_iff_tag(n, k);
    lemma_match_at_iff_tag(l, k);
}

/// Changing the ASCII case of the text does not change what `match_at` finds.
pub proof fn lemma_match_at_ignores_case(b1: Seq<u8>, b2: Seq<u8>)
    requires
        eq_ignore_ascii_case(b1, b2),
    ensures
        spec_match_at(b1) == spec_match_at(b2),
{
    assert forall|k: Keyword| tag_at_start(b1, k) <==> tag_at_start(b2, k) by {
        lemma_name_bytes(k);
        let nb = name_bytes(k);
        let n = nb.len() as int;
        if n <= b1.len() {
            let w1 = b1.take(n);
            let w2 = b2.take(n);
            if eq_ignore_ascii_case(w1, nb) {
                assert forall|i: int| 0 <= i < n implies #[trigger] ascii_lower(w2[i])
                    == ascii_lower(nb[i]) by {
                    assert(ascii_lower(b1[i]) == ascii_lower(b2[i]));
                    assert(ascii_lower(w1[i]) == ascii_lower(nb[i]));
                }
            }
            if eq_ignore_ascii_case(w2, nb) {
                assert forall|i: int| 0 <= i < n implies #[trigger] ascii_lower(w1[i])
                    == ascii_lower(nb[i]) by {
                    assert(ascii_lower(b1[i]) == ascii_lower(b2[i]));
                    assert(ascii_lower(w2[i]) == ascii_lower(nb[i]));
                }
            }
            assert(eq_ignore_ascii_case(w1, nb) <==> eq_ignore_ascii_case(w2, nb));
            if n < b1.len() {
                assert(ascii_lower(b1[n]) == ascii_lower(b2[n]));
                assert(is_tag_terminator(b1[n]) <==> is_tag_terminator(b2[n]));
            }
        }
    }
    if spec_match_at(b1) is Some {
        let k = spec_match_at(b1)->0;
        lemma_match_at_iff_tag(b1, k);
        lemma_match_at_iff_tag(b2, k);
    } else if spec_match_at(b2) is Some {
        let k = spec_match_at(b2)->0;
        lemma_match_at_iff_tag(b1, k);
        lemma_match_at_iff_tag(b2, k);
    }
}

/// Text after a tag's terminator never changes what `match_at` finds: if a
/// tag begins `s` and `s` goes on past the name, it begins `s + t` too.
pub proof fn lemma_match_at_suffix(s: Seq<u8>, t: Seq<u8>, k: Keyword)
    requires
        spec_match_at(s) == Some(k),
        s.len() > name_bytes(k).len(),
    ensures
        spec_match_at(s + t) == Some(k),
{
    lemma_match_at_iff_tag(s, k);
    lemma_match_at_iff_tag(s + t, k);
    let n = name_bytes(k).len() as int;
    assert((s + t).take(n) =~= s.take(n));
    assert((s + t)[n] == s[n]);
}

/// A byte is one of those that may end a tag: `:`, `(`, tab, line feed,
/// form feed, carriage return or space.
pub open spec fn is_listed_terminator(c: u8) -> bool {
    c == 58 || c == 40 || c == 9 || c == 10 || c == 12 || c == 13 || c == 32
}

/// Where the first four letters of two names agree, ignoring case, the
/// keywords are the same.
proof fn lemma_name_prefixes_distinct(k1: Keyword, k2: Keyword)
    ensures
        (ascii_lower(name_bytes(k1)[0]) == ascii_lower(name_bytes(k2)[0]) && ascii_lower(
            name_bytes(k1)[1],
        ) == ascii_lower(name_bytes(k2)[1]) && ascii_lower(name_bytes(k1)[2]) == ascii_lower(
            name_bytes(k2)[2],
        ) && ascii_lower(name_bytes(k1)[3]) == ascii_lower(name_bytes(k2)[3])) ==> k1 == k2,
{
    lemma_name_bytes(k1);
    lemma_name_bytes(k2);
}

/// A keyword's name followed by a byte `c` (and anything after it) is a tag
/// of that keyword exactly when `c` may end a tag; followed by a letter, a
/// digit or any other byte it is no tag at all (as `TODOISH` or `Tests`).
pub proof fn lemma_match_at_name_then(k: Keyword, c: u8, t: Seq<u8>)
    ensures
        spec_match_at(name_bytes(k) + seq![c] + t) == (if is_listed_terminator(c) {
            Some(k)
        } else {
            None::<Keyword>
        }),
{
    lemma_name_bytes(k);
    let n = name_bytes(k);
    let s = n + seq![c] + t;
    assert(s.take(n.len() as int) =~= n);
    assert(s[n.len() as int] == c);
    assert forall|i: int| 0 <= i < n.len() implies #[trigger] s[i] == n[i] by {}
    assert forall|k2: Keyword| k2 != k implies !tag_at_start(s, k2) by {
        lemma_name_bytes(k2);
        if tag_at_start(s, k2) {
            let w = s.take(name_bytes(k2).len() as int);
            assert(ascii_lower(w[0]) == ascii_lower(name_bytes(k2)[0]));
            assert(ascii_lower(w[1]) == ascii_lower(name_bytes(k2)[1]));
            assert(ascii_lower(w[2]) == ascii_lower(name_bytes(k2)[2]));
            assert(ascii_lower(w[3]) == ascii_lower(name_bytes(k2)[3]));
            assert(w[0] == n[0] && w[1] == n[1] && w[2] == n[2] && w[3] == n[3]);
            lemma_name_prefixes_distinct(k, k2);
        }
    }
    assert(eq_ignore_ascii_case(s.take(n.len() as int), n));
    assert(tag_at_start(s, k) <==> is_listed_terminator(c));
    lemma_match_at_none(s);
    lemma_match_at_iff_tag(s, k);
}

/// `match_at` finds `k` exactly when the text spells `k`'s name with each
/// letter in upper or lower case, and the name is followed by the end of
/// the text or by `:`, `(`, tab, line feed, form feed, carriage return or
/// space.
pub proof fn lemma_match_at_spells_name(s: Seq<u8>, k: Keyword)
    ensures
        spec_match_at(s) == Some(k) <==> {
            let n = name_bytes(k);
            &&& n.len() <= s.len()
            &&& forall|i: int| 0 <= i < n.len() ==> #[trigger] s[i] == n[i] || s[i] == n[i] + 32
            &&& (s.len() == n.len() || is_listed_terminator(s[n.len() as int]))
        },
{
    lemma_name_bytes(k);
    lemma_match_at_iff_tag(s, k);
    let n = name_bytes(k);
    if n.len() <= s.len() {
        let w = s.take(n.len() as int);
        assert forall|i: int| 0 <= i < n.len() implies (#[trigger] ascii_lower(w[i]) == ascii_lower(
            n[i],
        ) <==> (s[i] == n[i] || s[i] == n[i] + 32)) by {
            assert(w[i] == s[i]);
        }
        if eq_ignore_ascii_case(w, n) {
            assert forall|i: int| 0 <= i < n.len() implies #[trigger] s[i] == n[i] || s[i] == n[i]
                + 32 by {
                assert(ascii_lower(w[i]) == ascii_lower(n[i]));
            }
        }
        if forall|i: int| 0 <= i < n.len() ==> #[trigger] s[i] == n[i] || s[i] == n[i] + 32 {
            assert forall|i: int| 0 <= i < n.len() implies #[trigger] ascii_lower(w[i])
                == ascii_lower(n[i]) by {
                assert(s[i] == n[i] || s[i] == n[i] + 32);
            }
        }
    }
}

/// Each sign text abbreviates its keyword's name: two capitals, the first
/// letter of the name and a later letter of it.
pub proof fn lemma_sign_text_abbreviates(k: Keyword)
    ensures
        spec_sign_text(k).len() == 2,
        spec_sign_text(k)[0] == spec_name(k)[0],
        exists|j: int| 1 <= j < spec_name(k).len() && spec_sign_text(k)[1] == #[trigger] spec_name(k)[j],
{
    reveal_strlit("TD");
    reveal_strlit("FX");
    reveal_strlit("HK");
    reveal_strlit("WN");
    reveal_strlit("NT");
    reveal_strlit("PF");
    reveal_strlit("TS");
    match k {
        Keyword::Todo => assert(spec_sign_text(k)[1] == spec_name(k)[2]),
        Keyword::Fixme => assert(spec_sign_text(k)[1] == spec_name(k)[2]),
        Keyword::Hack => assert(spec_sign_text(k)[1] == spec_name(k)[3]),
        Keyword::Warn => assert(spec_sign_text(k)[1] == spec_name(k)[3]),
        Keyword::Note => assert(spec_sign_text(k)[1] == spec_name(k)[2]),
        Keyword::Perf => assert(spec_sign_text(k)[1] == spec_name(k)[3]),
        Keyword::Test => assert(spec_sign_text(k)[1] == spec_name(k)[2]),
    }
}

/// The ASCII lower-case form of a character.
pub open spec fn char_lower(c: char) -> char {
    if 'A' <= c && c <= 'Z' {
        ((c as u32) + 32) as char
    } else {
        c
    }
}

/// Each highlight group is `Shirube` followed by the keyword's name with
/// only its first letter in capitals.
pub proof fn lemma_hl_group_from_name(k: Keyword)
    ensures
        spec_hl_group(k) == "Shirube"@ + seq![spec_name(k)[0]] + spec_name(k).skip(1).map_values(
            |c: char| char_lower(c),
        ),
{
    reveal_strlit("Shirube");
    reveal_strlit("ShirubeTodo");
    reveal_strlit("ShirubeFixme");
    reveal_strlit("ShirubeHack");
    reveal_strlit("ShirubeWarn");
    reveal_strlit("ShirubeNote");
    reveal_strlit("ShirubePerf");
    reveal_strlit("ShirubeTest");
    let r = "Shirube"@ + seq![spec_name(k)[0]] + spec_name(k).skip(1).map_values(
        |c: char| char_lower(c),
    );
    assert(spec_hl_group(k) =~= r);
}

/// Every name is matched as its own keyword, so no two keywords share a name.
pub proof fn lemma_names_distinct(k1: Keyword, k2: Keyword)
    ensures
        spec_name(k1) == spec_name(k2) ==> k1 == k2,
{
    if spec_name(k1) == spec_name(k2) {
        assert(name_bytes(k1) == name_bytes(k2));
        lemma_name_matches_itself(k1);
        lemma_name_matches_itself(k2);
    }
}

/// Distinct keywords have distinct highlight groups.
pub proof fn lemma_hl_groups_distinct(k1: Keyword, k2: Keyword)
    ensures
        k1 != k2 ==> spec_hl_group(k1) != spec_hl_group(k2),
{
    reveal_strlit("ShirubeTodo");
    reveal_strlit("ShirubeFixme");
    reveal_strlit("ShirubeHack");
    reveal_strlit("ShirubeWarn");
    reveal_strlit("ShirubeNote");
    reveal_strlit("ShirubePerf");
    reveal_strlit("ShirubeTest");
    if k1 != k2 {
        assert(spec_hl_group(k1)[7] != spec_hl_group(k2)[7] || spec_hl_group(k1)[8]
            != spec_hl_group(k2)[8] || spec_hl_group(k1)[9] != spec_hl_group(k2)[9]);
    }
}

/// Distinct keywords have distinct sign texts, and each sign text is two characters.
pub proof fn lemma_sign_texts(k1: Keyword, k2: Keyword)
    ensures
        spec_sign_text(k1).len() == 2,
        k1 != k2 ==> spec_sign_text(k1) != spec_sign_text(k2),
{
    reveal_strlit("TD");
    reveal_strlit("FX");
    reveal_strlit("HK");
    reveal_strlit("WN");
    reveal_strlit("NT");
    reveal_strlit("PF");
    reveal_strlit("TS");
    if k1 != k2 {
        assert(spec_sign_text(k1)[0] != spec_sign_text(k2)[0] || spec_sign_text(k1)[1]
            != spec_sign_text(k2)[1]);
    }
}

/// A `#` followed by six hexadecimal digits.
pub open spec fn is_hex_color(s: Seq<char>) -> bool {
    &&& s.len() == 7
    &&& s[0] == '#'
    &&& forall|i: int|
        1 <= i < 7 ==> ('0' <= #[trigger] s[i] <= '9' || 'a' <= s[i] <= 'f')
}

/// Every foreground and background colour is a `#rrggbb` hex colour.
pub proof fn lemma_colors_are_hex(k: Keyword)
    ensures
        is_hex_color(spec_fg_color(k)),
        is_hex_color(spec_bg_color(k)),
{
    reveal_strlit("#2563eb");
    reveal_strlit("#dc2626");
    reveal_strlit("#ea580c");
    reveal_strlit("#d97706");
    reveal_strlit("#16a34a");
    reveal_strlit("#9333ea");
    reveal_strlit("#0891b2");
    reveal_strlit("#1e3a5f");
    reveal_strlit("#3f1219");
    reveal_strlit("#431407");
    reveal_strlit("#451a03");
    reveal_strlit("#052e16");
    reveal_strlit("#2e1065");
    reveal_strlit("#083344");
}

impl Keyword {
    /// The canonical display name (uppercase).
    #[must_use]
    pub fn name(self) -> (r: &'static str)
        ensures
            r@ == spec_name(self),
            r.spec_bytes() == name_bytes(self),
    {
        let r = match self {
            Keyword::Todo => {
                proof { reveal_strlit("TODO"); }
                "TODO"
            },
            Keyword::Fixme => {
                proof { reveal_strlit("FIXME"); }
                "FIXME"
            },
            Keyword::Hack => {
                proof { reveal_strlit("HACK"); }
                "HACK"
            },
            Keyword::Warn => {
                proof { reveal_strlit("WARN"); }
                "WARN"
            },
            Keyword::Note => {
                proof { reveal_strlit("NOTE"); }
                "NOTE"
            },
            Keyword::Perf => {
                proof { reveal_strlit("PERF"); }
                "PERF"
            },
            Keyword::Test => {
                proof { reveal_strlit("TEST"); }
                "TEST"
            },
        };
        proof {
            lemma_name_bytes(self);
            vstd::string::is_ascii_spec_bytes(r);
            assert(r.spec_bytes() =~= name_bytes(self));
        }
        r
    }

    /// All supported keywords, in the order in which they are tried.
    pub const ALL: [Keyword; 7] = [
        Keyword::Todo,
        Keyword::Fixme,
        Keyword::Hack,
        Keyword::Warn,
        Keyword::Note,
        Keyword::Perf,
        Keyword::Test,
    ];

    /// Foreground color (hex) for the highlight group.
    #[must_use]
    pub fn fg_color(self) -> (r: &'static str)
        ensures
            r@ == spec_fg_color(self),
    {
        match self {
            Keyword::Todo => "#2563eb",
            Keyword::Fixme => "#dc2626",
            Keyword::Hack => "#ea580c",
            Keyword::Warn => "#d97706",
            Keyword::Note => "#16a34a",
            Keyword::Perf => "#9333ea",
            Keyword::Test => "#0891b2",
        }
    }

    /// Background color (hex): a faint tint behind the keyword text.
    #[must_use]
    pub fn bg_color(self) -> (r: &'static str)
        ensures
            r@ == spec_bg_color(self),
    {
        match self {
            Keyword::Todo => "#1e3a5f",
            Keyword::Fixme => "#3f1219",
            Keyword::Hack => "#431407",
            Keyword::Warn => "#451a03",
            Keyword::Note => "#052e16",
            Keyword::Perf => "#2e1065",
            Keyword::Test => "#083344",
        }
    }

    /// The highlight group name used in Neovim (e.g. `ShirubeTodo`).
    #[must_use]
    pub fn hl_group(self) -> (r: &'static str)
        ensures
            r@ == spec_hl_group(self),
    {
        match self {
            Keyword::Todo => "ShirubeTodo",
            Keyword::Fixme => "ShirubeFixme",
            Keyword::Hack => "ShirubeHack",
            Keyword::Warn => "ShirubeWarn",
            Keyword::Note => "ShirubeNote",
            Keyword::Perf => "ShirubePerf",
            Keyword::Test => "ShirubeTest",
        }
    }

    /// Sign-column text (two characters at most).
    #[must_use]
    pub fn sign_text(self) -> (r: &'static str)
        ensures
            r@ == spec_sign_text(self),
    {
        match self {
            Keyword::Todo => "TD",
            Keyword::Fixme => "FX",
            Keyword::Hack => "HK",
            Keyword::Warn => "WN",
            Keyword::Note => "NT",
            Keyword::Perf => "PF",
            Keyword::Test => "TS",
        }
    }

    /// Try to match a keyword tag at the beginning of `s`, ignoring ASCII case.
    ///
    /// Returns `Some(keyword)` if `s` starts with a keyword name followed by
    /// the end of `s`, `:`, `(` or ASCII whitespace; the keywords are tried in
    /// the order of `ALL`.
    #[must_use]
    pub fn match_at(s: &str) -> (r: Option<Keyword>)
        ensures
            r == spec_match_at(s.spec_bytes()),
    {
        let b = s.as_bytes();
        proof {
            assert(b@.skip(0) =~= b@);
        }
        tag_at(b, 0)
    }

}

/// The keyword at position `i` of the order.
fn keyword_at(i: usize) -> (k: Keyword)
    requires
        i < keyword_count(),
    ensures
        k == keyword_order(i as int),
{
    if i == 0 {
        Keyword::Todo
    } else if i == 1 {
        Keyword::Fixme
    } else if i == 2 {
        Keyword::Hack
    } else if i == 3 {
        Keyword::Warn
    } else if i == 4 {
        Keyword::Note
    } else if i == 5 {
        Keyword::Perf
    } else {
        Keyword::Test
    }
}

/// Whether the bytes of `b` from `start` on begin with `name`, ignoring ASCII case.
fn begins_with_ignore_case(b: &[u8], start: usize, name: &[u8]) -> (r: bool)
    requires
        start <= b@.len(),
    ensures
        r == (name@.len() <= b@.len() - start && eq_ignore_ascii_case(
            b@.skip(start as int).take(name@.len() as int),
            name@,
        )),
{
    let len = name.len();
    if len > b.len() - start {
        return false;
    }
    let ghost window = b@.skip(start as int).take(len as int);
    let mut j: usize = 0;
    while j < len
        invariant
            len == name@.len(),
            start + len <= b.len(),
            window == b@.skip(start as int).take(len as int),
            0 <= j <= len,
            forall|i: int| 0 <= i < j ==> #[trigger] ascii_lower(window[i]) == ascii_lower(name@[i]),
        decreases len - j,
    {
        if to_ascii_lower(b[start + j]) != to_ascii_lower(name[j]) {
            assert(ascii_lower(window[j as int]) != ascii_lower(name@[j as int]));
            return false;
        }
        j += 1;
    }
    true
}

/// The keyword whose tag begins the bytes of `b` from `start` on.
pub(crate) fn tag_at(b: &[u8], start: usize) -> (r: Option<Keyword>)
    requires
        start <= b@.len(),
    ensures
        r == spec_match_at(b@.skip(start as int)),
{
    let ghost rest = b@.skip(start as int);
    let mut i: usize = 0;
    while i < 7
        invariant
            0 <= i <= keyword_count(),
            rest == b@.skip(start as int),
            start <= b@.len(),
            spec_match_at(rest) == first_tag_from(rest, i as int),
        decreases 7 - i,
    {
        let kw = keyword_at(i);
        let name = kw.name().as_bytes();
        let len = name.len();
        proof {
            lemma_name_bytes(kw);
        }
        if begins_with_ignore_case(b, start, name) {
            assert(len <= b.len() - start);
            let after = start + len;
            if after == b.len() || is_tag_terminator_byte(b[after]) {
                assert(tag_at_start(rest, kw));
                return Some(kw);
            }
            assert(!tag_at_start(rest, kw));
        }
        i += 1;
    }
    None
}

fn is_tag_terminator_byte(c: u8) -> (r: bool)
    ensures
        r == is_tag_terminator(c),
{
    c == 58 || c == 40 || is_ascii_whitespace_byte(c)
}

} // verus!
