use rapidraw::chars::{ident_char, white_space};

#[test]
fn white_space_is_the_unicode_property() {
    for code in 0..=0x10FFFFu32 {
        if let Some(c) = char::from_u32(code) {
            assert_eq!(white_space(c), c.is_whitespace(), "U+{code:04X}");
        }
    }
}

#[test]
fn identifier_characters_are_letters_digits_and_underscores() {
    for c in ['a', 'Z', '0', '9', '_', 'é', 'µ', '中'] {
        assert!(ident_char(c), "{c:?}");
    }
    for c in [' ', ';', ':', '(', '-', '.', '\n'] {
        assert!(!ident_char(c), "{c:?}");
    }
}

#[test]
fn on_ascii_identifier_characters_are_letters_digits_and_underscore() {
    for code in 0..=0x7Fu8 {
        let c = code as char;
        assert_eq!(ident_char(c), c.is_ascii_alphanumeric() || c == '_', "{c:?}");
    }
}
