use hometex::lexer::text::{
    first_ascii, leading, same_text, split_first_char, CharClass,
};

#[test]
fn leading_counts_the_run_at_the_start() {
    assert_eq!(leading("123abc", CharClass::Digit), 3);
    assert_eq!(leading("abc", CharClass::Digit), 0);
    assert_eq!(leading("", CharClass::Digit), 0);
    assert_eq!(leading("1.2.3x", CharClass::DigitOrDot), 5);
    assert_eq!(leading("a_1Z-", CharClass::Word), 4);
    assert_eq!(leading(" \t\r\nx", CharClass::WhiteSpace), 4);
    assert_eq!(leading("12\u{e9}3", CharClass::Digit), 2);
    assert_eq!(leading("\u{e9}12", CharClass::Word), 0);
}

#[test]
fn classes_hold_ascii_only() {
    for byte in 0u8..=255 {
        let c = byte as char;
        assert_eq!(CharClass::Digit.accepts(byte), c.is_ascii_digit());
        assert_eq!(CharClass::DigitOrDot.accepts(byte), c.is_ascii_digit() || c == '.');
        assert_eq!(CharClass::Word.accepts(byte), c.is_ascii_alphanumeric() || c == '_');
        assert_eq!(CharClass::WhiteSpace.accepts(byte), matches!(c, ' ' | '\t' | '\r' | '\n'));
    }
}

#[test]
fn first_character_of_one_to_four_bytes() {
    assert_eq!(split_first_char(""), None);
    assert_eq!(split_first_char("a"), Some(("a", "")));
    assert_eq!(split_first_char("ab"), Some(("a", "b")));
    assert_eq!(split_first_char("\u{e9}b"), Some(("\u{e9}", "b")));
    assert_eq!(split_first_char("\u{20ac}b"), Some(("\u{20ac}", "b")));
    assert_eq!(split_first_char("\u{1f600}b"), Some(("\u{1f600}", "b")));
    assert_eq!(split_first_char("\u{7ff}\u{800}"), Some(("\u{7ff}", "\u{800}")));
    assert_eq!(split_first_char("\u{ffff}\u{10000}"), Some(("\u{ffff}", "\u{10000}")));
    assert_eq!(split_first_char("\u{10ffff}"), Some(("\u{10ffff}", "")));
}

#[test]
fn first_ascii_character() {
    assert_eq!(first_ascii(""), None);
    assert_eq!(first_ascii("."), Some(b'.'));
    assert_eq!(first_ascii("\u{7f}x"), Some(0x7f));
    assert_eq!(first_ascii("\u{80}x"), None);
    assert_eq!(first_ascii("\u{1f600}"), None);
}

#[test]
fn same_text_compares_characters() {
    assert!(same_text("", ""));
    assert!(same_text("abc", "abc"));
    assert!(same_text("\u{e9}t\u{e9}", "\u{e9}t\u{e9}"));
    assert!(!same_text("abc", "abd"));
    assert!(!same_text("abc", "ab"));
    assert!(!same_text("", "a"));
    assert!(!same_text("e", "\u{e9}"));
}
