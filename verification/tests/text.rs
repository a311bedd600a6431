use dfa_codegen::decimal::dec_string;
use dfa_codegen::indent::indent;

#[test]
fn decimal_rendering() {
    assert_eq!(dec_string(0), "0");
    assert_eq!(dec_string(7), "7");
    assert_eq!(dec_string(10), "10");
    assert_eq!(dec_string(255), "255");
    assert_eq!(dec_string(12345), "12345");
    assert_eq!(dec_string(usize::MAX), format!("{}", usize::MAX));
}

#[test]
fn indent_prefixes_nonblank_lines() {
    assert_eq!(indent("a\nb"), "    a\n    b");
    assert_eq!(indent("table\n"), "    table\n");
}

#[test]
fn indent_keeps_blank_lines() {
    assert_eq!(indent(""), "");
    assert_eq!(indent("a\n\nb"), "    a\n\n    b");
    assert_eq!(indent("  \t\nx"), "  \t\n    x");
}

#[test]
fn indent_blankness_follows_trim() {
    // lines of nothing but Unicode whitespace stay unchanged, as under
    // str::trim: vertical tab, form feed, next line, no-break space,
    // ideographic space
    for line in ["\u{B}", "\u{C}", "\u{85}", "\u{A0}", "\u{3000}", " \u{2000}\u{200A}"] {
        assert!(line.trim().is_empty());
        assert_eq!(indent(line), line);
        let input = format!("{}\nx", line);
        assert_eq!(indent(&input), format!("{}\n    x", line));
    }
    // a zero-width space has no White_Space property: str::trim keeps it,
    // so the line is not blank and gains the indent
    assert!(!"\u{200B}".trim().is_empty());
    assert_eq!(indent("\u{200B}"), "    \u{200B}");
}
