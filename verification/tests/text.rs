use grammar_types::text::{decimal_string, is_whitespace, same_text, trimmed};

#[test]
fn decimal_numerals() {
    assert_eq!(decimal_string(0), "0");
    assert_eq!(decimal_string(7), "7");
    assert_eq!(decimal_string(9), "9");
    assert_eq!(decimal_string(10), "10");
    assert_eq!(decimal_string(1234567890), "1234567890");
    assert_eq!(decimal_string(4294967296), "4294967296");
    assert_eq!(
        decimal_string(u128::MAX),
        "340282366920938463463374607431768211455"
    );
    for n in [0u128, 5, 19, 100, 101, 999, 1000, 65535, 18446744073709551615] {
        assert_eq!(decimal_string(n), n.to_string());
    }
}

#[test]
fn trimming_removes_white_space_at_both_ends_only() {
    assert_eq!(trimmed(""), "");
    assert_eq!(trimmed("a"), "a");
    assert_eq!(trimmed("  a b \n"), "a b");
    assert_eq!(trimmed("\n\ta\n\n b"), "a\n\n b");
    assert_eq!(trimmed("a  "), "a");
    assert_eq!(trimmed("  a"), "a");
    assert_eq!(trimmed(" \t\r\n"), "");
    assert_eq!(trimmed(" "), "");
}

#[test]
fn trimming_knows_the_white_space_of_unicode() {
    assert_eq!(trimmed("\u{2003}x\u{a0}"), "x");
    assert_eq!(trimmed("\u{3000}\u{e9}t\u{e9}\u{2028}"), "\u{e9}t\u{e9}");
    assert_eq!(trimmed("\u{200b}x"), "\u{200b}x");
    for s in ["", " ", "a", " \u{e9} ", "\u{85}a\u{1680}b\u{205f}", "x\u{feff}", "\u{b}\u{c}y"] {
        assert_eq!(trimmed(s), s.trim());
    }
}

#[test]
fn same_text_compares_whole_texts() {
    assert!(same_text("", ""));
    assert!(same_text("abc", "abc"));
    assert!(!same_text("abc", "abd"));
    assert!(!same_text("abc", "ab"));
    assert!(!same_text("", " "));
    assert!(same_text("\"REPEAT\"", "\"REPEAT\""));
}

#[test]
fn white_space_is_what_the_standard_library_takes_for_it() {
    for code in 0..=0x10FFFFu32 {
        if let Some(c) = char::from_u32(code) {
            assert_eq!(is_whitespace(c), c.is_whitespace(), "U+{:04X}", code);
        }
    }
    assert!(is_whitespace(' '));
    assert!(is_whitespace('\n'));
    assert!(is_whitespace('\u{a0}'));
    assert!(!is_whitespace('a'));
    assert!(!is_whitespace('\u{200b}'));
}
