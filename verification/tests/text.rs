use bookmarker::text::{byte_len, char_is_whitespace, decimal_text, trimmed, trimmed_end};

#[test]
fn trimmed_end_removes_whitespace_at_the_end_only() {
    assert_eq!(trimmed_end("  a b  "), "  a b");
    assert_eq!(trimmed_end("a\n"), "a");
    assert_eq!(trimmed_end("a \t\r\n"), "a");
    assert_eq!(trimmed_end("a"), "a");
    assert_eq!(trimmed_end(""), "");
    assert_eq!(trimmed_end("   "), "");
    assert_eq!(trimmed_end("é\u{3000}\u{a0}"), "é");
    assert_eq!(trimmed_end("x\u{200b}"), "x\u{200b}");
}

#[test]
fn trimmed_removes_whitespace_at_both_ends() {
    assert_eq!(trimmed("  a b  "), "a b");
    assert_eq!(trimmed("\n"), "");
    assert_eq!(trimmed(""), "");
    assert_eq!(trimmed("key\n"), "key");
    assert_eq!(trimmed("\u{2003}ké y\u{85}"), "ké y");
    assert_eq!(trimmed("_ _"), "_ _");
}

#[test]
fn trimming_agrees_with_the_standard_library() {
    let samples = [
        "", " ", "a", " a", "a ", " a ", "\t\ta\tb\t\t", "\u{1680}x\u{2028}", "日本語 ", " 🙂 ",
        "\u{feff}a", "a\u{0}", "\u{b}\u{c}v",
    ];
    for s in samples {
        assert_eq!(trimmed(s), s.trim());
        assert_eq!(trimmed_end(s), s.trim_end());
    }
}

#[test]
fn decimal_text_writes_numbers() {
    assert_eq!(decimal_text(0), "0");
    assert_eq!(decimal_text(7), "7");
    assert_eq!(decimal_text(10), "10");
    assert_eq!(decimal_text(909), "909");
    assert_eq!(decimal_text(1234567890), "1234567890");
    assert_eq!(decimal_text(usize::MAX), usize::MAX.to_string());
}

#[test]
fn byte_len_counts_bytes() {
    assert_eq!(byte_len(""), 0);
    assert_eq!(byte_len("abc"), 3);
    assert_eq!(byte_len("é"), 2);
    assert_eq!(byte_len("日本"), 6);
    assert_eq!(byte_len("🙂"), 4);
}

#[test]
fn whitespace_is_what_the_standard_library_takes_for_it() {
    let mut code: u32 = 0;
    let mut white: usize = 0;
    while code <= 0x10FFFF {
        if let Some(c) = char::from_u32(code) {
            assert_eq!(char_is_whitespace(c), c.is_whitespace());
            if char_is_whitespace(c) {
                white += 1;
            }
        }
        code += 1;
    }
    assert_eq!(white, 25);
}

#[test]
fn whitespace_on_given_characters() {
    assert!(char_is_whitespace(' '));
    assert!(char_is_whitespace('\n'));
    assert!(char_is_whitespace('\t'));
    assert!(char_is_whitespace('\r'));
    assert!(char_is_whitespace('\u{b}'));
    assert!(char_is_whitespace('\u{c}'));
    assert!(char_is_whitespace('\u{85}'));
    assert!(char_is_whitespace('\u{a0}'));
    assert!(char_is_whitespace('\u{1680}'));
    assert!(char_is_whitespace('\u{2000}'));
    assert!(char_is_whitespace('\u{200a}'));
    assert!(char_is_whitespace('\u{2028}'));
    assert!(char_is_whitespace('\u{2029}'));
    assert!(char_is_whitespace('\u{202f}'));
    assert!(char_is_whitespace('\u{205f}'));
    assert!(char_is_whitespace('\u{3000}'));
    assert!(!char_is_whitespace('a'));
    assert!(!char_is_whitespace('['));
    assert!(!char_is_whitespace(']'));
    assert!(!char_is_whitespace('\u{8}'));
    assert!(!char_is_whitespace('\u{e}'));
    assert!(!char_is_whitespace('\u{1f}'));
    assert!(!char_is_whitespace('\u{200b}'));
    assert!(!char_is_whitespace('\u{180e}'));
    assert!(!char_is_whitespace('\u{feff}'));
    assert!(!char_is_whitespace('\u{0}'));
}
