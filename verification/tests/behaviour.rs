use shirube::highlight::{buffer_extmarks, buffer_todos, is_listed_buffer, Extmark, KEYWORD_PRIORITY};
use shirube::keywords::Keyword;
use shirube::scanner::{scan_line, Match};

fn offsets(line: &str) -> Vec<(usize, Keyword)> {
    scan_line(line).iter().map(|m| (m.byte_offset, m.keyword)).collect()
}

#[test]
fn every_name_matches_itself_in_any_case() {
    for kw in Keyword::ALL {
        assert_eq!(Keyword::match_at(kw.name()), Some(kw));
        assert_eq!(Keyword::match_at(&kw.name().to_lowercase()), Some(kw));
    }
}

#[test]
fn match_at_terminators() {
    assert_eq!(Keyword::match_at("TODO\tx"), Some(Keyword::Todo));
    assert_eq!(Keyword::match_at("HACK\n"), Some(Keyword::Hack));
    assert_eq!(Keyword::match_at("NOTE\r"), Some(Keyword::Note));
    assert_eq!(Keyword::match_at("PERF\x0c"), Some(Keyword::Perf));
    // A vertical tab is not ASCII whitespace for `is_ascii_whitespace`.
    assert_eq!(Keyword::match_at("TODO\x0b"), None);
    assert_eq!(Keyword::match_at("TODO-"), None);
    assert_eq!(Keyword::match_at("TODO."), None);
    assert_eq!(Keyword::match_at(" TODO"), None);
    assert_eq!(Keyword::match_at("TOD"), None);
}

#[test]
fn match_at_non_ascii_after_tag() {
    assert_eq!(Keyword::match_at("TODO \u{e9}t\u{e9}"), Some(Keyword::Todo));
    assert_eq!(Keyword::match_at("\u{e9}\u{e9}TODO"), None);
}

#[test]
fn hex_colors_are_full_hex() {
    for kw in Keyword::ALL {
        for c in [kw.fg_color(), kw.bg_color()] {
            assert_eq!(c.len(), 7);
            assert!(c[1..].chars().all(|ch| ch.is_ascii_digit() || ('a'..='f').contains(&ch)));
        }
    }
}

#[test]
fn keyword_vocabulary_values() {
    assert_eq!(Keyword::Todo.fg_color(), "#2563eb");
    assert_eq!(Keyword::Test.bg_color(), "#083344");
    assert_eq!(Keyword::Perf.hl_group(), "ShirubePerf");
    assert_eq!(Keyword::Warn.sign_text(), "WN");
    for kw in Keyword::ALL {
        assert_eq!(kw.sign_text().len(), 2);
        assert_eq!(kw.hl_group(), format!("Shirube{}{}", &kw.name()[..1], kw.name()[1..].to_lowercase()));
    }
}

#[test]
fn extra_slashes_belong_to_the_leader() {
    assert_eq!(offsets("//// TODO"), vec![(5, Keyword::Todo)]);
    assert_eq!(offsets("////TODO"), vec![(4, Keyword::Todo)]);
    assert_eq!(offsets("//! NOTE"), vec![(4, Keyword::Note)]);
}

#[test]
fn several_leaders_in_one_line() {
    assert_eq!(offsets("# TODO # FIXME"), vec![(2, Keyword::Todo), (9, Keyword::Fixme)]);
    assert_eq!(offsets("# # TODO"), vec![(4, Keyword::Todo)]);
    assert_eq!(offsets("// TODO: fix this HACK: workaround"), vec![(3, Keyword::Todo)]);
}

#[test]
fn start_of_line_match_comes_first() {
    let ms = scan_line("TODO: x // FIXME y");
    assert_eq!(
        ms,
        vec![
            Match { keyword: Keyword::Todo, byte_offset: 0, byte_len: 4 },
            Match { keyword: Keyword::Fixme, byte_offset: 11, byte_len: 5 },
        ]
    );
}

#[test]
fn vertical_tab_is_trimmed_but_not_skipped_after_a_leader() {
    assert_eq!(offsets("\x0b// TODO"), vec![(4, Keyword::Todo)]);
    assert_eq!(offsets("\x0bTODO"), vec![(1, Keyword::Todo)]);
    assert_eq!(offsets("//\x0bTODO"), vec![]);
}

#[test]
fn quote_is_a_leader_only_at_the_start() {
    assert_eq!(offsets("  \"  NOTE x"), vec![(5, Keyword::Note)]);
    assert_eq!(offsets("x \" NOTE"), vec![]);
}

#[test]
fn reported_offsets_are_distinct_and_span_the_tag() {
    let line = "/* TODO */ -- HACK ; WARN % PERF";
    let ms = scan_line(line);
    assert_eq!(ms.len(), 4);
    for (i, m) in ms.iter().enumerate() {
        assert_eq!(&line[m.byte_offset..m.byte_offset + m.byte_len], m.keyword.name());
        for other in &ms[i + 1..] {
            assert_ne!(m.byte_offset, other.byte_offset);
        }
    }
}

#[test]
fn extmarks_of_a_buffer() {
    let lines = vec!["// TODO: a".to_string(), "x".to_string(), "# fixme".to_string()];
    assert_eq!(
        buffer_extmarks(&lines),
        vec![
            Extmark { line: 0, col: 3, end_col: 7, keyword: Keyword::Todo },
            Extmark { line: 2, col: 2, end_col: 7, keyword: Keyword::Fixme },
        ]
    );
    assert_eq!(buffer_extmarks(&Vec::new()), vec![]);
    assert_eq!(KEYWORD_PRIORITY, 200);
}

#[test]
fn todos_of_a_buffer() {
    let lines = vec!["// TODO: a".to_string(), "x".to_string(), "# fixme".to_string()];
    assert_eq!(
        buffer_todos("main.rs", &lines),
        vec![
            ("main.rs".to_string(), 1, Keyword::Todo, "// TODO: a".to_string()),
            ("main.rs".to_string(), 3, Keyword::Fixme, "# fixme".to_string()),
        ]
    );
    assert!(buffer_todos("main.rs", &vec!["plain".to_string()]).is_empty());
}

#[test]
fn unnamed_buffers_are_not_listed() {
    assert!(!is_listed_buffer(""));
    assert!(is_listed_buffer("notes.md"));
}

#[test]
fn non_ascii_lines_are_scanned() {
    assert_eq!(
        scan_line("// TODO: \u{65e5}\u{672c}\u{8a9e}"),
        vec![Match { keyword: Keyword::Todo, byte_offset: 3, byte_len: 4 }]
    );
    assert_eq!(scan_line("\u{e9}"), vec![]);
    assert_eq!(offsets("\u{e9}\u{e9} # NOTE \u{e9}"), vec![(7, Keyword::Note)]);
    assert_eq!(Keyword::match_at("abc\u{e9}"), None);
    assert_eq!(Keyword::match_at("TODO\u{e9}"), None);
}

#[test]
fn unicode_white_space_starts_the_text_later() {
    // U+3000 (3 bytes) and U+00A0 (2 bytes) are white space for `trim_start`.
    assert_eq!(offsets("\u{3000}TODO x"), vec![(3, Keyword::Todo)]);
    assert_eq!(offsets("\u{a0}\u{a0}FIXME"), vec![(4, Keyword::Fixme)]);
    assert_eq!(offsets("\u{3000}\" NOTE"), vec![(5, Keyword::Note)]);
    // After a leader only ASCII whitespace is skipped.
    assert_eq!(offsets("//\u{a0}TODO"), vec![]);
}

#[test]
fn indenting_a_line_shifts_every_match() {
    for line in ["TODO: a // HACK b", "# FIXME", "  \" NOTE", "x", "\u{3000}PERF ; TEST"] {
        let indented = format!(" {line}");
        let expected: Vec<Match> = scan_line(line)
            .into_iter()
            .map(|m| Match { byte_offset: m.byte_offset + 1, ..m })
            .collect();
        assert_eq!(scan_line(&indented), expected);
    }
}

#[test]
fn text_after_the_terminator_does_not_matter() {
    for (s, k) in [("TODO:", Keyword::Todo), ("fixme ", Keyword::Fixme), ("Hack(", Keyword::Hack)] {
        assert_eq!(Keyword::match_at(s), Some(k));
        for t in ["", "x", "TODOISH", "\u{e9}"] {
            assert_eq!(Keyword::match_at(&format!("{s}{t}")), Some(k));
        }
    }
}
