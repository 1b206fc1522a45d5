use hometex::lexer::parse::{
    digits, dots_and_digits, float, identifier, literal, operator, token, tokens, white_space,
};
use hometex::lexer::{
    parse, LexError, LexErrorKind, Literal, Operator, Token, TokenKind, WhiteSpace,
};

fn kinds(source: &str) -> Vec<(String, TokenKind)> {
    parse(source)
        .unwrap()
        .as_slice()
        .iter()
        .map(|token| (token.fragment.to_string(), token.kind))
        .collect()
}

fn pair(fragment: &str, kind: TokenKind) -> (String, TokenKind) {
    (fragment.to_string(), kind)
}

const DIGITS: TokenKind = TokenKind::Literal(Literal::Digits);
const FLOAT: TokenKind = TokenKind::Literal(Literal::Float);
const LEFT: TokenKind = TokenKind::Operator(Operator::LeftRoundBracket);
const RIGHT: TokenKind = TokenKind::Operator(Operator::RightRoundBracket);
const COMMA: TokenKind = TokenKind::Operator(Operator::Comma);

#[test]
fn test_identifier() {
    assert_eq!(
        identifier("hello guys"),
        Ok((" guys", Token::new("hello", TokenKind::Identifier)))
    );
    assert_eq!(
        identifier("_he_ll23o_ guys"),
        Ok((" guys", Token::new("_he_ll23o_", TokenKind::Identifier)))
    );
    assert_eq!(
        identifier("2mama_sd guys"),
        Err(LexError::new("2mama_sd guys", LexErrorKind::Verify))
    );
}

#[test]
fn test_float() {
    assert_eq!(
        float("23.13 yaya"),
        Ok((" yaya", Token::new("23.13", FLOAT)))
    );
    assert_eq!(
        float(".13 no"),
        Err(LexError::new(".13 no", LexErrorKind::TakeWhile1))
    );
    assert_eq!(
        identifier("34. haha"),
        Err(LexError::new("34. haha", LexErrorKind::Verify))
    );
}

#[test]
fn test_lexer() {
    let result = parse("std(hello(23,23.8), 2398)").unwrap();
    println!("{result:?}");
    let found: Vec<(&str, TokenKind)> = result
        .as_slice()
        .iter()
        .map(|token| (token.fragment, token.kind))
        .collect();
    assert_eq!(
        found,
        vec![
            ("std", TokenKind::Identifier),
            ("(", LEFT),
            ("hello", TokenKind::Identifier),
            ("(", LEFT),
            ("23", DIGITS),
            (",", COMMA),
            ("23.8", FLOAT),
            (")", RIGHT),
            (",", COMMA),
            ("2398", DIGITS),
            (")", RIGHT),
        ]
    );
}

#[test]
fn identifier_refuses_text_without_word_characters() {
    assert_eq!(
        identifier(" guys"),
        Err(LexError::new(" guys", LexErrorKind::TakeWhile1))
    );
    assert_eq!(identifier(""), Err(LexError::new("", LexErrorKind::TakeWhile1)));
    assert_eq!(
        identifier("(x"),
        Err(LexError::new("(x", LexErrorKind::TakeWhile1))
    );
}

#[test]
fn identifier_takes_the_whole_text() {
    assert_eq!(
        identifier("abc"),
        Ok(("", Token::new("abc", TokenKind::Identifier)))
    );
    assert_eq!(
        identifier("a1(b"),
        Ok(("(b", Token::new("a1", TokenKind::Identifier)))
    );
}

#[test]
fn identifier_stops_at_a_character_outside_ascii() {
    assert_eq!(
        identifier("ab\u{e9}c"),
        Ok(("\u{e9}c", Token::new("ab", TokenKind::Identifier)))
    );
}

#[test]
fn float_needs_digits_on_both_sides_of_one_dot() {
    assert_eq!(float("1.5"), Ok(("", Token::new("1.5", FLOAT))));
    assert_eq!(float("007.250)"), Ok((")", Token::new("007.250", FLOAT))));
    assert_eq!(float("34. haha"), Err(LexError::new("34. haha", LexErrorKind::Verify)));
    assert_eq!(float("34"), Err(LexError::new("34", LexErrorKind::Verify)));
    assert_eq!(float("1.2.3"), Err(LexError::new("1.2.3", LexErrorKind::Verify)));
    assert_eq!(float("1..2"), Err(LexError::new("1..2", LexErrorKind::Verify)));
    assert_eq!(float("1.2."), Err(LexError::new("1.2.", LexErrorKind::Verify)));
    assert_eq!(float("abc"), Err(LexError::new("abc", LexErrorKind::TakeWhile1)));
    assert_eq!(float(""), Err(LexError::new("", LexErrorKind::TakeWhile1)));
}

#[test]
fn digits_take_the_longest_run() {
    assert_eq!(digits("2398)"), Ok((")", Token::new("2398", DIGITS))));
    assert_eq!(digits("12.5"), Ok((".5", Token::new("12", DIGITS))));
    assert_eq!(digits("x1"), Err(LexError::new("x1", LexErrorKind::TakeWhile1)));
}

#[test]
fn literal_prefers_a_float() {
    assert_eq!(literal("12.5,"), Ok((",", Token::new("12.5", FLOAT))));
    assert_eq!(literal("12,"), Ok((",", Token::new("12", DIGITS))));
    assert_eq!(literal("12."), Ok((".", Token::new("12", DIGITS))));
    assert_eq!(literal(".5"), Err(LexError::new(".5", LexErrorKind::TakeWhile1)));
}

#[test]
fn runs_of_dots_and_digits() {
    assert_eq!(dots_and_digits("1.2.3 x"), Ok((" x", "1.2.3")));
    assert_eq!(dots_and_digits("..1a"), Ok(("a", "..1")));
    assert_eq!(
        dots_and_digits("a1"),
        Err(LexError::new("a1", LexErrorKind::TakeWhile1))
    );
}

#[test]
fn runs_of_white_space() {
    assert_eq!(white_space(" \t\r\n x "), Ok(("x ", " \t\r\n ")));
    assert_eq!(white_space("x "), Err(LexError::new("x ", LexErrorKind::TakeWhile1)));
    assert_eq!(white_space(""), Err(LexError::new("", LexErrorKind::TakeWhile1)));
    // a no-break space is no white space here
    assert_eq!(
        white_space("\u{a0}x"),
        Err(LexError::new("\u{a0}x", LexErrorKind::TakeWhile1))
    );
}

#[test]
fn operators_are_one_character() {
    assert_eq!(operator("(a"), Ok(("a", Token::new("(", LEFT))));
    assert_eq!(operator(")"), Ok(("", Token::new(")", RIGHT))));
    assert_eq!(operator(",,"), Ok((",", Token::new(",", COMMA))));
    assert_eq!(operator("+1"), Err(LexError::new("1", LexErrorKind::Verify)));
    assert_eq!(operator("\u{3c0}r"), Err(LexError::new("r", LexErrorKind::Verify)));
    assert_eq!(operator(""), Err(LexError::new("", LexErrorKind::Eof)));
}

#[test]
fn token_falls_back_to_one_invalid_character() {
    assert_eq!(token("+1"), Ok(("1", Token::new("+", TokenKind::Invalid))));
    assert_eq!(token(".5"), Ok(("5", Token::new(".", TokenKind::Invalid))));
    assert_eq!(
        token("\u{1f600}x"),
        Ok(("x", Token::new("\u{1f600}", TokenKind::Invalid)))
    );
    assert_eq!(token("\u{e9}"), Ok(("", Token::new("\u{e9}", TokenKind::Invalid))));
    assert_eq!(token("\u{20ac}1"), Ok(("1", Token::new("\u{20ac}", TokenKind::Invalid))));
    assert_eq!(token(""), Err(LexError::new("", LexErrorKind::Eof)));
}

#[test]
fn token_tries_identifier_literal_and_operator() {
    assert_eq!(token("abc("), Ok(("(", Token::new("abc", TokenKind::Identifier))));
    assert_eq!(token("1.5x"), Ok(("x", Token::new("1.5", FLOAT))));
    assert_eq!(token("15x"), Ok(("x", Token::new("15", DIGITS))));
    assert_eq!(token(",x"), Ok(("x", Token::new(",", COMMA))));
}

#[test]
fn tokens_leave_nothing_and_drop_white_space() {
    let (rest, found) = tokens("  f ( 1 ,\t2.5 )\n").unwrap();
    assert_eq!(rest, "");
    assert_eq!(
        found.as_slice(),
        &[
            Token::new("f", TokenKind::Identifier),
            Token::new("(", LEFT),
            Token::new("1", DIGITS),
            Token::new(",", COMMA),
            Token::new("2.5", FLOAT),
            Token::new(")", RIGHT),
        ]
    );
}

#[test]
fn empty_and_blank_sources_have_no_tokens() {
    assert_eq!(kinds(""), vec![]);
    assert_eq!(kinds(" \t \r\n"), vec![]);
}

#[test]
fn malformed_runs_of_digits_and_dots_surface_as_invalid() {
    assert_eq!(
        kinds("1.2.3"),
        vec![pair("1", DIGITS), pair(".", TokenKind::Invalid), pair("2.3", FLOAT)]
    );
    assert_eq!(kinds("34."), vec![pair("34", DIGITS), pair(".", TokenKind::Invalid)]);
    assert_eq!(kinds(".13"), vec![pair(".", TokenKind::Invalid), pair("13", DIGITS)]);
    assert_eq!(
        kinds("1..2"),
        vec![
            pair("1", DIGITS),
            pair(".", TokenKind::Invalid),
            pair(".", TokenKind::Invalid),
            pair("2", DIGITS),
        ]
    );
}

#[test]
fn every_character_lands_in_a_token_or_is_white_space() {
    let source = "a+b \u{3c0}(2.50,x_1)$";
    let found = parse(source).unwrap();
    let mut rebuilt = String::new();
    for token in found.as_slice() {
        assert!(!token.fragment.is_empty());
        rebuilt.push_str(token.fragment);
    }
    let without_blanks: String = source.chars().filter(|c| !" \t\r\n".contains(*c)).collect();
    assert_eq!(rebuilt, without_blanks);
    assert_eq!(
        kinds(source),
        vec![
            pair("a", TokenKind::Identifier),
            pair("+", TokenKind::Invalid),
            pair("b", TokenKind::Identifier),
            pair("\u{3c0}", TokenKind::Invalid),
            pair("(", LEFT),
            pair("2.50", FLOAT),
            pair(",", COMMA),
            pair("x_1", TokenKind::Identifier),
            pair(")", RIGHT),
            pair("$", TokenKind::Invalid),
        ]
    );
}

#[test]
fn fragments_borrow_from_the_source_in_order() {
    let source = String::from("f(10, 2.5)");
    let found = parse(&source).unwrap();
    let base = source.as_ptr() as usize;
    let mut last_end = 0;
    for token in found.as_slice() {
        let start = token.fragment.as_ptr() as usize - base;
        assert!(start >= last_end);
        assert_eq!(&source[start..start + token.fragment.len()], token.fragment);
        last_end = start + token.fragment.len();
    }
    assert_eq!(last_end, source.len());
}

#[test]
fn a_digit_after_letters_belongs_to_the_identifier() {
    assert_eq!(kinds("x2 2x"), vec![
        pair("x2", TokenKind::Identifier),
        pair("2", DIGITS),
        pair("x", TokenKind::Identifier),
    ]);
}

#[test]
fn operator_table() {
    let table = Operator::map();
    assert_eq!(
        table,
        vec![
            ("(", Operator::LeftRoundBracket),
            (")", Operator::RightRoundBracket),
            (",", Operator::Comma),
        ]
    );
    for (text, operator) in table {
        assert_eq!(operator.value(), text);
        assert_eq!(Operator::recognize(text), Some(operator));
    }
}

#[test]
fn operator_recognize_refuses_other_text() {
    assert_eq!(Operator::recognize("("), Some(Operator::LeftRoundBracket));
    assert_eq!(Operator::recognize(")"), Some(Operator::RightRoundBracket));
    assert_eq!(Operator::recognize(","), Some(Operator::Comma));
    assert_eq!(Operator::recognize(""), None);
    assert_eq!(Operator::recognize("(("), None);
    assert_eq!(Operator::recognize("+"), None);
    assert_eq!(Operator::recognize(" ("), None);
}

#[test]
fn white_space_kinds() {
    assert_eq!(WhiteSpace::recognize(b' '), Some(WhiteSpace::Space));
    assert_eq!(WhiteSpace::recognize(b'\t'), Some(WhiteSpace::Tab));
    assert_eq!(WhiteSpace::recognize(b'\n'), Some(WhiteSpace::NewLine));
    assert_eq!(WhiteSpace::recognize(b'\r'), Some(WhiteSpace::NewLine));
    assert_eq!(WhiteSpace::recognize(b'a'), None);
    assert_eq!(WhiteSpace::recognize(0xA0), None);
}

#[test]
fn fragment_if_kind_tests_the_kind() {
    let token = Token::new("12", DIGITS);
    assert_eq!(token.fragment_if_kind(DIGITS), Some("12"));
    assert_eq!(token.fragment_if_kind(FLOAT), None);
    assert_eq!(token.fragment_if_kind(TokenKind::Identifier), None);
}

#[test]
fn tokens_are_equal_by_kind_and_text() {
    assert_eq!(Token::new("a", TokenKind::Identifier), Token::new("a", TokenKind::Identifier));
    assert_ne!(Token::new("a", TokenKind::Identifier), Token::new("b", TokenKind::Identifier));
    assert_ne!(Token::new("a", TokenKind::Identifier), Token::new("a", TokenKind::Invalid));
    assert_ne!(Token::new("a", TokenKind::Identifier), Token::new("ab", TokenKind::Identifier));
}

#[test]
fn tokens_can_be_indexed_and_borrowed_as_a_slice() {
    let found = parse("f(1, 2.5)").unwrap();
    assert_eq!(found[0], Token::new("f", TokenKind::Identifier));
    assert_eq!(found[2], Token::new("1", DIGITS));
    assert_eq!(found[4..], [Token::new("2.5", FLOAT), Token::new(")", RIGHT)]);
    assert_eq!(found[..2].len(), 2);
    assert_eq!(found[..], *found.as_slice());
    let borrowed: &[Token] = found.as_ref();
    assert_eq!(borrowed, found.as_slice());
    assert_eq!(borrowed.len(), 6);
}
