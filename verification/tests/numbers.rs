use hometex::hometex_std::{Digit, DigitTryFromCharError, DigitTryFromU8Error};
use hometex::lexer::text::parse_u64;

#[test]
fn digits_are_zero_to_nine() {
    for value in 0u8..=9 {
        let digit = Digit::new(value).unwrap();
        assert_eq!(digit.digit(), value);
        assert_eq!(Digit::new_unchecked(value), digit);
    }
    for value in [10u8, 11, 100, 255] {
        assert_eq!(Digit::new(value), None);
    }
}

#[test]
fn digits_from_characters() {
    for (i, c) in "0123456789".chars().enumerate() {
        assert_eq!(Digit::try_from(c).unwrap().digit(), i as u8);
    }
    for c in ['a', '/', ':', ' ', '\u{0660}', '\u{ff11}', '\u{130}'] {
        assert_eq!(Digit::try_from(c), Err(DigitTryFromCharError(c)));
    }
}

#[test]
fn digits_from_bytes() {
    for value in 0u8..=9 {
        assert_eq!(Digit::try_from(value).unwrap().digit(), value);
    }
    for value in [10u8, 48, 57, 255] {
        assert_eq!(Digit::try_from(value), Err(DigitTryFromU8Error(value)));
    }
}

#[test]
fn decimal_text_to_number() {
    assert_eq!(parse_u64("0"), Some(0));
    assert_eq!(parse_u64("7"), Some(7));
    assert_eq!(parse_u64("2132"), Some(2132));
    assert_eq!(parse_u64("0007"), Some(7));
    assert_eq!(parse_u64("18446744073709551615"), Some(u64::MAX));
    assert_eq!(parse_u64("18446744073709551616"), None);
    assert_eq!(parse_u64("18446744073709551620"), None);
    assert_eq!(parse_u64("28446744073709551615"), None);
    assert_eq!(parse_u64("000000000000000000000000018446744073709551615"), Some(u64::MAX));
    assert_eq!(parse_u64(""), None);
    assert_eq!(parse_u64("+1"), None);
    assert_eq!(parse_u64("-1"), None);
    assert_eq!(parse_u64("1 "), None);
    assert_eq!(parse_u64("12a"), None);
    assert_eq!(parse_u64("1.5"), None);
    assert_eq!(parse_u64("\u{0661}"), None);
}
