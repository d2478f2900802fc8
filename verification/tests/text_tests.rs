use kura_voice::normalize_name;

#[test]
fn normalize_trims_and_lowercases() {
    assert_eq!(normalize_name("  Bohemian Rhapsody  "), "bohemian rhapsody");
    assert_eq!(normalize_name("Take Five"), "take five");
    assert_eq!(normalize_name("\t MiXeD CaSe \n"), "mixed case");
    assert_eq!(normalize_name(""), "");
    assert_eq!(normalize_name("   \t\n  "), "");
}

#[test]
fn normalize_keeps_inner_whitespace_and_symbols() {
    assert_eq!(normalize_name("A  B"), "a  b");
    assert_eq!(normalize_name("track_01-final.v2"), "track_01-final.v2");
}

#[test]
fn normalize_folds_unicode_case() {
    assert_eq!(normalize_name("É"), "é");
    assert_eq!(normalize_name("BEYONCÉ"), "beyoncé");
    assert_eq!(normalize_name("ÜBERGRÖSSE"), "übergrösse");
}

#[test]
fn normalize_trims_unicode_whitespace() {
    // no-break space, em space and ideographic space are all trimmed
    assert_eq!(normalize_name("\u{a0}a"), "a");
    assert_eq!(normalize_name("\u{2003}Take Five\u{3000}"), "take five");
    assert_eq!(normalize_name("\u{a0}\u{2028}\u{205f}"), "");
}

#[test]
fn normalize_is_idempotent_on_samples() {
    let samples = [
        "  Bohemian Rhapsody  ",
        "Rhapsody in Blue",
        "TAKE FIVE",
        "",
        "  ",
        "already normal",
        "  A  B  C  ",
        "  BEYONCÉ  ",
        "\u{a0}É\u{2003}",
        "ΣΊΣΥΦΟΣ",
    ];
    for s in samples.iter() {
        let once = normalize_name(s);
        let twice = normalize_name(&once);
        assert_eq!(once, twice);
    }
}
