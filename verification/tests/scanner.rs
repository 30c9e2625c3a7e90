use shirube::keywords::Keyword;
use shirube::scanner::{scan_line, Match};

// -- helpers ------------------------------------------------------------

fn first_match(line: &str) -> Option<Match> {
    scan_line(line).into_iter().next()
}

fn assert_keyword(line: &str, expected: Keyword) {
    let m = first_match(line);
    assert!(m.is_some(), "expected keyword {} in line: {line:?}", expected.name());
    assert_eq!(m.unwrap().keyword, expected);
}

fn assert_no_match(line: &str) {
    let matches = scan_line(line);
    assert!(
        matches.is_empty(),
        "expected no match in line: {line:?}, got: {matches:?}"
    );
}

// -- basic detection ----------------------------------------------------

#[test]
fn detects_todo_with_double_slash() {
    assert_keyword("// TODO: fix this", Keyword::Todo);
}

#[test]
fn detects_fixme_with_hash() {
    assert_keyword("# FIXME: broken", Keyword::Fixme);
}

#[test]
fn detects_hack_with_block_comment() {
    assert_keyword("/* HACK: workaround */", Keyword::Hack);
}

#[test]
fn detects_warn_with_double_dash() {
    assert_keyword("-- WARN: deprecated", Keyword::Warn);
}

#[test]
fn detects_note_with_star() {
    assert_keyword(" * NOTE: important", Keyword::Note);
}

#[test]
fn detects_perf_with_percent() {
    assert_keyword("% PERF: slow query", Keyword::Perf);
}

#[test]
fn detects_test_with_semicolon() {
    assert_keyword("; TEST: edge case", Keyword::Test);
}

// -- case insensitivity -------------------------------------------------

#[test]
fn case_insensitive_detection() {
    assert_keyword("// todo: lower", Keyword::Todo);
    assert_keyword("// Todo: mixed", Keyword::Todo);
    assert_keyword("# fixme: lower", Keyword::Fixme);
}

// -- optional colon -----------------------------------------------------

#[test]
fn keyword_without_colon() {
    assert_keyword("// TODO fix this", Keyword::Todo);
}

#[test]
fn keyword_with_colon_no_space() {
    assert_keyword("// TODO:fix this", Keyword::Todo);
}

// -- parenthesised attribution ------------------------------------------

#[test]
fn keyword_with_paren_attribution() {
    assert_keyword("// TODO(user): clean up", Keyword::Todo);
}

// -- indented comment ---------------------------------------------------

#[test]
fn indented_comment() {
    assert_keyword("    // TODO: indented", Keyword::Todo);
}

// -- at start of line (bare keyword) ------------------------------------

#[test]
fn bare_keyword_at_start() {
    assert_keyword("TODO: standalone", Keyword::Todo);
}

#[test]
fn bare_keyword_with_leading_whitespace() {
    assert_keyword("   FIXME: indented bare", Keyword::Fixme);
}

// -- no false positives ------------------------------------------------

#[test]
fn no_match_in_identifier() {
    // "TODOISH" is not a keyword: letters follow the tag.
    assert_no_match("let todoish = 5;");
}

#[test]
fn no_match_in_string_literal() {
    // No comment leader, and the start-of-line trim yields `let`.
    assert_no_match("let s = \"TODO: not a comment\";");
}

#[test]
fn no_match_plain_code() {
    assert_no_match("fn main() {}");
}

#[test]
fn no_match_empty_line() {
    assert_no_match("");
}

#[test]
fn no_match_whitespace_only() {
    assert_no_match("   ");
}

// -- byte offsets -------------------------------------------------------

#[test]
fn byte_offset_is_correct() {
    let m = first_match("// TODO: fix").unwrap();
    assert_eq!(m.byte_offset, 3); // "// " -> offset 3
    assert_eq!(m.byte_len, 4); // "TODO"
}

#[test]
fn byte_offset_with_extra_spaces() {
    let m = first_match("//   FIXME: blah").unwrap();
    assert_eq!(m.byte_offset, 5); // "//   " -> offset 5
    assert_eq!(m.byte_len, 5); // "FIXME"
}

// -- multiple keywords in one line --------------------------------------

#[test]
fn multiple_keywords_in_line() {
    let matches = scan_line("// TODO: fix this HACK: workaround");
    // At minimum the TODO right after the comment leader is found.
    assert!(matches.iter().any(|m| m.keyword == Keyword::Todo));
}

// -- vim double-quote comment leader ------------------------------------

#[test]
fn vim_double_quote_comment() {
    assert_keyword("\" TODO: vimscript comment", Keyword::Todo);
}

// -- Rust doc comment ---------------------------------------------------

#[test]
fn rust_doc_comment() {
    assert_keyword("/// TODO: document this", Keyword::Todo);
}

// -- no keyword after leader but has one later --------------------------

#[test]
fn keyword_deep_in_comment() {
    // Only the position right after the comment leader is a candidate, so a
    // keyword later in the comment text is not highlighted.
    let matches = scan_line("// some text TODO: late");
    assert!(matches.is_empty());
}
