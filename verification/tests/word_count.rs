use cs110l::word_count::{count_words, is_whitespace, Totals};

#[test]
fn words_are_runs_of_non_white_space() {
    assert_eq!(count_words(""), 0);
    assert_eq!(count_words("   "), 0);
    assert_eq!(count_words("hello"), 1);
    assert_eq!(count_words("  hello   world \n"), 2);
    assert_eq!(count_words("a\tb\u{3000}c\u{a0}d"), 4);
}

#[test]
fn word_count_agrees_with_split_whitespace() {
    for s in ["one two  three\n", "\u{2028}x\u{85}y", "tab\there", "  ", "x"] {
        assert_eq!(count_words(s), s.split_whitespace().count(), "{:?}", s);
    }
}

#[test]
fn white_space_agrees_with_std() {
    for c in ['\t', '\n', '\u{b}', '\u{c}', '\r', ' ', '\u{85}', '\u{a0}', '\u{1680}', '\u{2000}', '\u{200a}', '\u{2028}', '\u{2029}', '\u{202f}', '\u{205f}', '\u{3000}', 'a', '\u{200b}', '\u{180e}', '\u{feff}', '0'] {
        assert_eq!(is_whitespace(c), c.is_whitespace(), "{:?}", c);
    }
    for code in 0u32..0x3100 {
        if let Some(c) = char::from_u32(code) {
            assert_eq!(is_whitespace(c), c.is_whitespace(), "{:x}", code);
        }
    }
}

#[test]
fn totals_count_lines_words_and_bytes() {
    let mut totals = Totals::new();
    totals.add_line("hello world\n");
    totals.add_line("\n");
    totals.add_line("caf\u{e9} au lait");
    assert_eq!(totals, Totals { lines: 3, words: 5, bytes: 12 + 1 + 13 });
}
