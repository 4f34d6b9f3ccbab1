use html_dom::is_whitespace;

#[test]
fn is_whitespace_is_the_unicode_property() {
    for code in 0..=0x10FFFFu32 {
        if let Some(c) = char::from_u32(code) {
            assert_eq!(is_whitespace(c), c.is_whitespace(), "U+{:04X}", code);
        }
    }
}

#[test]
fn is_whitespace_on_the_characters_of_markup() {
    for c in [' ', '\t', '\n', '\r', '\u{b}', '\u{c}'] {
        assert!(is_whitespace(c));
    }
    for c in ['<', '>', '/', '\\', 'a', '0', '\u{200b}', '\u{180e}'] {
        assert!(!is_whitespace(c));
    }
}
