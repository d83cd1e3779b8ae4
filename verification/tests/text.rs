use clive::text::{
    chars_of, ascii_folded_char, is_blank_chars, is_ascii_punctuation_char, is_whitespace_char, str_eq, trimmed,
};

#[test]
fn whitespace_is_what_the_standard_library_calls_whitespace() {
    for code in 0..=0x10FFFFu32 {
        if let Some(c) = char::from_u32(code) {
            assert_eq!(is_whitespace_char(c), c.is_whitespace(), "for U+{:04X}", code);
        }
    }
}

#[test]
fn punctuation_is_ascii_punctuation() {
    for code in 0..=0x10FFFFu32 {
        if let Some(c) = char::from_u32(code) {
            assert_eq!(is_ascii_punctuation_char(c), c.is_ascii_punctuation(), "for U+{:04X}", code);
        }
    }
}

#[test]
fn folding_lowers_ascii_letters_only() {
    for code in 0..=0x10FFFFu32 {
        if let Some(c) = char::from_u32(code) {
            assert_eq!(ascii_folded_char(c), c.to_ascii_lowercase() as u32, "for U+{:04X}", code);
        }
    }
}

#[test]
fn trimming_agrees_with_the_standard_library() {
    for s in ["", " ", "a", " a", "a ", "  a b  ", "\t\n x \r\n", "\u{a0}x\u{3000}", " \u{2003} ", "é ", "a\u{200b} "] {
        assert_eq!(trimmed(s), s.trim(), "for {:?}", s);
        assert_eq!(is_blank_chars(&chars_of(s)), s.trim().is_empty(), "for {:?}", s);
    }
}

#[test]
fn strings_are_compared_by_their_characters() {
    assert!(str_eq("", ""));
    assert!(str_eq("base", "base"));
    assert!(!str_eq("base", "Base"));
    assert!(!str_eq("base", "base.en"));
    assert!(!str_eq("a", ""));
    assert_eq!(chars_of("héllo"), vec!['h', 'é', 'l', 'l', 'o']);
}
