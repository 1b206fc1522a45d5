use hometex::ast::parse::combinator::{between_balanced, begins_at, tag, take, try_map, IResult};
use hometex::ast::parse::separated::surround_seperated_items_allowed_trailing;
use hometex::ast::parse::tag_tokens_kind;
use hometex::ast::{Error, ErrorKind, Expectation, Whole, TS};
use hometex::lexer::{Operator, Token, TokenKind, Tokens};

fn lex_it(str: &str) -> Tokens<'_> {
    hometex::lexer::parse(str).unwrap()
}

fn failure<'a, 'src>(
    tokens: &'a [Token<'src>],
    at: usize,
    kind: ErrorKind,
    expectation: Expectation,
    committed: bool,
) -> Error<'a, 'src> {
    Error { input: &tokens[at..], kind, expectation, committed }
}

#[test]
fn take_hands_out_the_first_tokens() {
    let tokens = lex_it("a b c");
    let all = tokens.as_slice();
    assert_eq!(take(0)(all), Ok((all, &all[..0])));
    assert_eq!(take(1)(all), Ok((&all[1..], &all[..1])));
    assert_eq!(take(2)(all), Ok((&all[2..], &all[..2])));
    assert_eq!(take(3)(all), Ok((&all[3..], all)));
}

#[test]
fn take_fails_at_its_input_when_tokens_are_missing() {
    let tokens = lex_it("a b c");
    let all = tokens.as_slice();
    assert_eq!(
        take(4)(all),
        Err(failure(all, 0, ErrorKind::Grammar, Expectation::Unspecified, false))
    );
    assert_eq!(
        take(1)(&all[3..]),
        Err(failure(all, 3, ErrorKind::Grammar, Expectation::Unspecified, false))
    );
    assert_eq!(
        take(usize::MAX)(all),
        Err(failure(all, 0, ErrorKind::Grammar, Expectation::Unspecified, false))
    );
}

#[test]
fn tag_takes_equal_tokens() {
    let tokens = lex_it("f ( x )");
    let all = tokens.as_slice();
    let pattern = lex_it("f(");
    let parser = tag(pattern.as_slice());
    assert_eq!(parser(all), Ok((&all[2..], &all[..2])));
    assert_eq!(
        parser(&all[1..]),
        Err(failure(all, 1, ErrorKind::Grammar, Expectation::Tag, false))
    );
    // too few tokens are a failure, not an access out of bounds
    assert_eq!(
        parser(&all[3..]),
        Err(failure(all, 3, ErrorKind::Grammar, Expectation::Tag, false))
    );
    assert_eq!(
        parser(&all[4..]),
        Err(failure(all, 4, ErrorKind::Grammar, Expectation::Tag, false))
    );
}

#[test]
fn tag_compares_text_as_well_as_kind() {
    let tokens = lex_it("g ( x )");
    let all = tokens.as_slice();
    let pattern = lex_it("f");
    assert_eq!(
        tag(pattern.as_slice())(all),
        Err(failure(all, 0, ErrorKind::Grammar, Expectation::Tag, false))
    );
    let same_kind = tag_tokens_kind(&[TokenKind::Identifier]);
    assert_eq!(same_kind(all), Ok((&all[1..], &all[..1])));
    let by_hand = [Token::new("g", TokenKind::Invalid)];
    assert_eq!(
        tag(&by_hand)(all),
        Err(failure(all, 0, ErrorKind::Grammar, Expectation::Tag, false))
    );
}

#[test]
fn the_empty_tag_takes_nothing() {
    let tokens = lex_it("a");
    let all = tokens.as_slice();
    assert_eq!(tag(&[])(all), Ok((all, &all[..0])));
    assert_eq!(tag(&[])(&all[1..]), Ok((&all[1..], &all[..0])));
}

#[test]
fn begins_at_looks_from_an_index() {
    let tokens = lex_it("a ( ( b");
    let all = tokens.as_slice();
    let pattern = lex_it("( b");
    assert!(!begins_at(all, 0, pattern.as_slice()));
    assert!(!begins_at(all, 1, pattern.as_slice()));
    assert!(begins_at(all, 2, pattern.as_slice()));
    assert!(!begins_at(all, 3, pattern.as_slice()));
    assert!(!begins_at(all, 4, pattern.as_slice()));
    assert!(begins_at(all, 4, &[]));
}

fn count(tokens: &[Token<'_>]) -> usize {
    tokens.len()
}

#[test]
fn map_applies_to_the_value_and_keeps_failures() {
    let tokens = lex_it("a b c");
    let all = tokens.as_slice();
    let parser = hometex::ast::parse::combinator::map(take(2), count);
    assert_eq!(parser(all), Ok((&all[2..], 2)));
    assert_eq!(
        parser(&all[2..]),
        Err(failure(all, 2, ErrorKind::Grammar, Expectation::Unspecified, false))
    );
    let numbers = lex_it("41 x");
    let wholes = hometex::ast::parse::combinator::map(hometex::ast::parse::whole, |w: Whole| {
        w.0 + 1
    });
    assert_eq!(wholes(numbers.as_slice()), Ok((&numbers.as_slice()[1..], 42)));
    assert_eq!(
        wholes(&numbers.as_slice()[1..]),
        Err(failure(numbers.as_slice(), 1, ErrorKind::Grammar, Expectation::Tag, false))
    );
}

fn even(whole: Whole) -> Option<u64> {
    if whole.0 % 2 == 0 {
        Some(whole.0 / 2)
    } else {
        None
    }
}

#[test]
fn try_map_fails_where_the_parser_began() {
    let tokens = lex_it("10 7 x");
    let all = tokens.as_slice();
    let parser = try_map(hometex::ast::parse::whole, even);
    assert_eq!(parser(all), Ok((&all[1..], 5)));
    // the token is a whole literal, and the value is refused
    assert_eq!(
        parser(&all[1..]),
        Err(failure(all, 1, ErrorKind::Grammar, Expectation::Unspecified, false))
    );
    // the failure of the parser itself is kept
    assert_eq!(
        parser(&all[2..]),
        Err(failure(all, 2, ErrorKind::Grammar, Expectation::Tag, false))
    );
}

#[test]
fn try_map_after_several_tokens_still_fails_at_the_start() {
    let tokens = lex_it("a b c");
    let all = tokens.as_slice();
    let never = try_map(take(2), |_: &[Token<'_>]| None::<u8>);
    assert_eq!(
        never(all),
        Err(failure(all, 0, ErrorKind::Grammar, Expectation::Unspecified, false))
    );
    let always = try_map(take(2), |taken: &[Token<'_>]| Some(taken.len()));
    assert_eq!(always(all), Ok((&all[2..], 2)));
}

#[test]
fn balanced_region_between_brackets() {
    let open = lex_it("(");
    let close = lex_it(")");
    let parser = between_balanced(open.as_slice(), close.as_slice());
    let tokens = lex_it("( a ( b ) ( ) c ) d )");
    let all = tokens.as_slice();
    assert_eq!(parser(all), Ok((&all[9..], &all[1..8])));
    let nested = lex_it("( ( ( ) ) )");
    let all = nested.as_slice();
    assert_eq!(parser(all), Ok((&all[6..], &all[1..5])));
    assert_eq!(parser(&all[1..]), Ok((&all[5..], &all[2..4])));
    assert_eq!(parser(&all[2..]), Ok((&all[4..], &all[3..3])));
}

#[test]
fn an_empty_balanced_region_is_no_failure() {
    let open = lex_it("(");
    let close = lex_it(")");
    let parser = between_balanced(open.as_slice(), close.as_slice());
    let tokens = lex_it("( ) x");
    let all = tokens.as_slice();
    assert_eq!(parser(all), Ok((&all[2..], &all[1..1])));
}

#[test]
fn a_balanced_region_needs_its_opening_marker() {
    let open = lex_it("(");
    let close = lex_it(")");
    let parser = between_balanced(open.as_slice(), close.as_slice());
    let tokens = lex_it("a ( )");
    let all = tokens.as_slice();
    assert_eq!(
        parser(all),
        Err(failure(all, 0, ErrorKind::Grammar, Expectation::Tag, false))
    );
    assert_eq!(
        parser(&all[3..]),
        Err(failure(all, 3, ErrorKind::Grammar, Expectation::Tag, false))
    );
}

#[test]
fn an_unbalanced_region_fails_at_the_end_of_the_input() {
    let open = lex_it("(");
    let close = lex_it(")");
    let parser = between_balanced(open.as_slice(), close.as_slice());
    for source in ["(", "( a", "( ( )", "( a ( b ) c", "( ( ( ) )"] {
        let tokens = lex_it(source);
        let all = tokens.as_slice();
        assert_eq!(
            parser(all),
            Err(failure(all, all.len(), ErrorKind::Grammar, Expectation::Close, true))
        );
    }
}

#[test]
fn markers_of_two_tokens() {
    let open = lex_it("f (");
    let close = lex_it(") ,");
    let parser = between_balanced(open.as_slice(), close.as_slice());
    let tokens = lex_it("f ( a , f ( b ) ) , c ) , d");
    let all = tokens.as_slice();
    // the first `)` that a `,` follows closes the inner `f (`
    assert_eq!(parser(all), Ok((&all[13..], &all[2..11])));
    let tokens = lex_it("f ( a ) b ) , c");
    let all = tokens.as_slice();
    // a lone `)` is no marker
    assert_eq!(parser(all), Ok((&all[7..], &all[2..5])));
    let tokens = lex_it("f ( f ( a ) , b");
    let all = tokens.as_slice();
    assert_eq!(
        parser(all),
        Err(failure(all, all.len(), ErrorKind::Grammar, Expectation::Close, true))
    );
}

#[test]
fn the_same_marker_on_both_sides_never_closes() {
    let mark = lex_it(",");
    let parser = between_balanced(mark.as_slice(), mark.as_slice());
    let tokens = lex_it(", a , b ,");
    let all = tokens.as_slice();
    assert_eq!(
        parser(all),
        Err(failure(all, all.len(), ErrorKind::Grammar, Expectation::Close, true))
    );
}

#[test]
fn empty_markers() {
    let close = lex_it(")");
    let tokens = lex_it("a ( b ) c");
    let all = tokens.as_slice();
    // without an opening marker the region runs to the first closing one
    assert_eq!(between_balanced(&[], close.as_slice())(all), Ok((&all[4..], &all[..3])));
    // an empty closing marker is found at once
    let open = lex_it("a");
    assert_eq!(between_balanced(open.as_slice(), &[])(all), Ok((&all[1..], &all[1..1])));
    assert_eq!(between_balanced(&[], &[])(all), Ok((all, &all[..0])));
}

fn list<'a, 'src>(input: TS<'a, 'src>) -> IResult<'a, 'src, Vec<u64>> {
    let item = hometex::ast::parse::combinator::map(hometex::ast::parse::whole, |w: Whole| w.0);
    let parser = surround_seperated_items_allowed_trailing(
        item,
        tag_tokens_kind(&[TokenKind::Operator(Operator::Comma)]),
        tag_tokens_kind(&[TokenKind::Operator(Operator::LeftRoundBracket)]),
        tag_tokens_kind(&[TokenKind::Operator(Operator::RightRoundBracket)]),
    );
    parser(input)
}

#[test]
fn separated_list_decision_table() {
    let tokens = lex_it("(1, 2, 3) x");
    let all = tokens.as_slice();
    assert_eq!(list(all), Ok((&all[7..], vec![1, 2, 3])));
    let tokens = lex_it("(1, 2, 3,) x");
    let all = tokens.as_slice();
    assert_eq!(list(all), Ok((&all[8..], vec![1, 2, 3])));
    let tokens = lex_it("() x");
    let all = tokens.as_slice();
    assert_eq!(list(all), Ok((&all[2..], vec![])));
    let tokens = lex_it("(1) x");
    let all = tokens.as_slice();
    assert_eq!(list(all), Ok((&all[3..], vec![1])));
    let tokens = lex_it("(1 2)");
    let all = tokens.as_slice();
    assert_eq!(
        list(all),
        Err(failure(all, 2, ErrorKind::Grammar, Expectation::SeparatorOrEnd, true))
    );
}

#[test]
fn separated_list_failures() {
    let tokens = lex_it("1, 2)");
    let all = tokens.as_slice();
    // the failure of the beginning is handed on as it is
    assert_eq!(list(all), Err(failure(all, 0, ErrorKind::Grammar, Expectation::Tag, false)));
    let tokens = lex_it("(1, x)");
    let all = tokens.as_slice();
    // the failure of an item is committed
    assert_eq!(list(all), Err(failure(all, 3, ErrorKind::Grammar, Expectation::Tag, true)));
    let tokens = lex_it("(,1)");
    let all = tokens.as_slice();
    assert_eq!(list(all), Err(failure(all, 1, ErrorKind::Grammar, Expectation::Tag, true)));
    let tokens = lex_it("(1,, 2)");
    let all = tokens.as_slice();
    assert_eq!(list(all), Err(failure(all, 3, ErrorKind::Grammar, Expectation::Tag, true)));
    let tokens = lex_it("(1, 2");
    let all = tokens.as_slice();
    assert_eq!(
        list(all),
        Err(failure(all, 4, ErrorKind::Grammar, Expectation::SeparatorOrEnd, true))
    );
    let tokens = lex_it("(1 ; 2)");
    let all = tokens.as_slice();
    assert_eq!(
        list(all),
        Err(failure(all, 2, ErrorKind::Lexical, Expectation::SeparatorOrEnd, true))
    );
}

#[test]
fn a_list_whose_rounds_take_nothing_fails() {
    let tokens = lex_it("a b");
    let all = tokens.as_slice();
    let parser = surround_seperated_items_allowed_trailing(
        take(0),
        take(0),
        take(0),
        tag_tokens_kind(&[TokenKind::Operator(Operator::RightRoundBracket)]),
    );
    assert_eq!(
        parser(all).map(|(rest, items)| (rest, items.len())),
        Err(failure(all, 0, ErrorKind::Grammar, Expectation::Progress, true))
    );
}

#[test]
fn a_list_with_other_markers() {
    // items are names, the separator is `)`, and the list stands between commas
    let tokens = lex_it(", a ) b ) c , d");
    let all = tokens.as_slice();
    let parser = surround_seperated_items_allowed_trailing(
        hometex::ast::parse::identifier,
        tag_tokens_kind(&[TokenKind::Operator(Operator::RightRoundBracket)]),
        tag_tokens_kind(&[TokenKind::Operator(Operator::Comma)]),
        tag_tokens_kind(&[TokenKind::Operator(Operator::Comma)]),
    );
    let (rest, items) = parser(all).unwrap();
    assert_eq!(rest, &all[7..]);
    let names: Vec<&str> = items.iter().map(|identifier| identifier.text).collect();
    assert_eq!(names, vec!["a", "b", "c"]);
}
