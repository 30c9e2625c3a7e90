use shirube::keywords::Keyword;

#[test]
fn all_keywords_have_unique_hl_groups() {
    let mut groups: Vec<&str> = Keyword::ALL.iter().map(|k| k.hl_group()).collect();
    groups.sort_unstable();
    groups.dedup();
    assert_eq!(groups.len(), Keyword::ALL.len());
}

#[test]
fn all_keywords_have_unique_sign_text() {
    let mut signs: Vec<&str> = Keyword::ALL.iter().map(|k| k.sign_text()).collect();
    signs.sort_unstable();
    signs.dedup();
    assert_eq!(signs.len(), Keyword::ALL.len());
}

#[test]
fn sign_text_max_two_chars() {
    for kw in Keyword::ALL {
        assert!(kw.sign_text().len() <= 2, "{} sign_text too long", kw.name());
    }
}

#[test]
fn match_at_exact() {
    assert_eq!(Keyword::match_at("TODO"), Some(Keyword::Todo));
    assert_eq!(Keyword::match_at("FIXME"), Some(Keyword::Fixme));
    assert_eq!(Keyword::match_at("HACK"), Some(Keyword::Hack));
    assert_eq!(Keyword::match_at("WARN"), Some(Keyword::Warn));
    assert_eq!(Keyword::match_at("NOTE"), Some(Keyword::Note));
    assert_eq!(Keyword::match_at("PERF"), Some(Keyword::Perf));
    assert_eq!(Keyword::match_at("TEST"), Some(Keyword::Test));
}

#[test]
fn match_at_case_insensitive() {
    assert_eq!(Keyword::match_at("todo"), Some(Keyword::Todo));
    assert_eq!(Keyword::match_at("Todo"), Some(Keyword::Todo));
    assert_eq!(Keyword::match_at("fixme"), Some(Keyword::Fixme));
    assert_eq!(Keyword::match_at("Fixme"), Some(Keyword::Fixme));
}

#[test]
fn match_at_with_colon() {
    assert_eq!(Keyword::match_at("TODO:"), Some(Keyword::Todo));
    assert_eq!(Keyword::match_at("TODO: fix this"), Some(Keyword::Todo));
    assert_eq!(Keyword::match_at("fixme: urgent"), Some(Keyword::Fixme));
}

#[test]
fn match_at_with_paren() {
    assert_eq!(Keyword::match_at("TODO(drzzln): check"), Some(Keyword::Todo));
}

#[test]
fn match_at_with_whitespace() {
    assert_eq!(Keyword::match_at("TODO fix this later"), Some(Keyword::Todo));
}

#[test]
fn match_at_rejects_continuation() {
    // "TODOISH" should not match: the keyword is followed by more letters.
    assert_eq!(Keyword::match_at("TODOISH"), None);
    assert_eq!(Keyword::match_at("FIXMEUP"), None);
    assert_eq!(Keyword::match_at("NOTING"), None);
}

#[test]
fn match_at_empty() {
    assert_eq!(Keyword::match_at(""), None);
}

#[test]
fn match_at_no_keyword() {
    assert_eq!(Keyword::match_at("hello world"), None);
    assert_eq!(Keyword::match_at("let x = 5;"), None);
}

#[test]
fn display_impl() {
    assert_eq!(Keyword::Todo.name(), "TODO");
    assert_eq!(Keyword::Fixme.name(), "FIXME");
}

#[test]
fn fg_colors_are_valid_hex() {
    for kw in Keyword::ALL {
        let c = kw.fg_color();
        assert!(c.starts_with('#'), "{} fg_color missing #", kw.name());
        assert_eq!(c.len(), 7, "{} fg_color wrong length", kw.name());
    }
}

#[test]
fn bg_colors_are_valid_hex() {
    for kw in Keyword::ALL {
        let c = kw.bg_color();
        assert!(c.starts_with('#'), "{} bg_color missing #", kw.name());
        assert_eq!(c.len(), 7, "{} bg_color wrong length", kw.name());
    }
}
