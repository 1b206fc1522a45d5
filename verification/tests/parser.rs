use hometex::ast::parse::{
    ast, expressions_in_round_bracket_seperated_by_comma, function_call_inputs, tag_tokens_kind,
};
use hometex::ast::{
    Ast, Error, ErrorKind, Expectation, Expression, Float, FunctionCall, Identifier, Literal,
    Variable, Whole,
};
use hometex::lexer::{Literal as LexLiteral, Operator, Token, TokenKind, Tokens};

fn lex_it(str: &str) -> Tokens<'_> {
    hometex::lexer::parse(str).unwrap()
}

fn whole(value: u64) -> Expression<'static> {
    Expression::Literal(Literal::Whole(Whole(value)))
}

fn float(text: &str) -> Expression<'_> {
    Expression::Literal(Literal::Float(Float(text)))
}

fn variable(text: &str) -> Expression<'_> {
    Expression::Variable(Variable { identifier: Identifier { text } })
}

fn call<'src>(text: &'src str, inputs: Vec<Expression<'src>>) -> FunctionCall<'src> {
    FunctionCall { identifier: Identifier { text }, inputs }
}

/// The failure at the token of index `at` of `tokens`.
fn failure<'a, 'src>(
    tokens: &'a [Token<'src>],
    at: usize,
    kind: ErrorKind,
    expectation: Expectation,
    committed: bool,
) -> Error<'a, 'src> {
    Error { input: &tokens[at..], kind, expectation, committed }
}

#[test]
fn expression() {
    assert_eq!(
        hometex::ast::parse::expression(lex_it("23.43 aha").as_slice()),
        Ok((
            [Token::new("aha", TokenKind::Identifier)].as_slice(),
            Expression::Literal(Literal::Float(Float("23.43")))
        ))
    )
}

#[test]
fn function_call() {
    assert_eq!(
        hometex::ast::parse::function_call(
            lex_it("hello(lmao, 2132, 32.3) nextthing").as_slice()
        ),
        Ok((
            [Token::new("nextthing", TokenKind::Identifier)].as_slice(),
            FunctionCall {
                identifier: Identifier { text: "hello" },
                inputs: vec![
                    Expression::Variable(Variable { identifier: Identifier { text: "lmao" } }),
                    Expression::Literal(Literal::Whole(Whole(2132))),
                    Expression::Literal(Literal::Float(Float("32.3")))
                ]
            }
        ))
    )
}

#[test]
fn whole_literals_round_trip() {
    for n in [0u64, 1, 9, 10, 23, 2132, 4294967296, u64::MAX - 1, u64::MAX] {
        let source = n.to_string();
        let tokens = lex_it(&source);
        assert_eq!(
            hometex::ast::parse::expression(tokens.as_slice()),
            Ok(([].as_slice(), whole(n)))
        );
        assert_eq!(
            hometex::ast::parse::whole(tokens.as_slice()),
            Ok(([].as_slice(), Whole(n)))
        );
    }
}

#[test]
fn whole_literals_keep_leading_zeros_out_of_the_value() {
    let tokens = lex_it("000123");
    assert_eq!(hometex::ast::parse::whole(tokens.as_slice()), Ok(([].as_slice(), Whole(123))));
}

#[test]
fn float_literals_keep_their_text() {
    for source in ["0.0", "1.5", "23.43", "1234567890.0987654321", "0.000001"] {
        let tokens = lex_it(source);
        assert_eq!(
            hometex::ast::parse::expression(tokens.as_slice()),
            Ok(([].as_slice(), float(source)))
        );
        assert_eq!(
            hometex::ast::parse::float(tokens.as_slice()),
            Ok(([].as_slice(), Float(source)))
        );
    }
}

#[test]
fn a_whole_literal_beyond_64_bits_is_a_failed_conversion() {
    for source in ["18446744073709551616", "99999999999999999999999", "184467440737095516150"] {
        let tokens = lex_it(source);
        let expected = Err(failure(
            tokens.as_slice(),
            0,
            ErrorKind::NumericConversion,
            Expectation::Whole,
            true,
        ));
        assert_eq!(hometex::ast::parse::whole(tokens.as_slice()), expected);
        assert_eq!(
            hometex::ast::parse::literal(tokens.as_slice()),
            Err(failure(
                tokens.as_slice(),
                0,
                ErrorKind::NumericConversion,
                Expectation::Whole,
                true
            ))
        );
        assert_eq!(
            hometex::ast::parse::expression(tokens.as_slice()),
            Err(failure(
                tokens.as_slice(),
                0,
                ErrorKind::NumericConversion,
                Expectation::Whole,
                true
            ))
        );
        let failed = hometex::ast::parse::expression(tokens.as_slice()).unwrap_err();
        assert_eq!(failed.input[0].fragment, source);
    }
}

#[test]
fn a_failed_conversion_inside_a_call_ends_the_parse() {
    let tokens = lex_it("f(1, 99999999999999999999, 3)");
    assert_eq!(
        ast(tokens.as_slice()),
        Err(failure(
            tokens.as_slice(),
            4,
            ErrorKind::NumericConversion,
            Expectation::Whole,
            true
        ))
    );
}

#[test]
fn tokens_made_by_hand_with_the_wrong_text_fail_to_convert() {
    let digits = [Token::new("12a", TokenKind::Literal(LexLiteral::Digits))];
    assert_eq!(
        hometex::ast::parse::whole(&digits),
        Err(failure(&digits, 0, ErrorKind::NumericConversion, Expectation::Whole, true))
    );
    let plus = [Token::new("+1", TokenKind::Literal(LexLiteral::Digits))];
    assert_eq!(
        hometex::ast::parse::whole(&plus),
        Err(failure(&plus, 0, ErrorKind::NumericConversion, Expectation::Whole, true))
    );
    let empty = [Token::new("", TokenKind::Literal(LexLiteral::Digits))];
    assert_eq!(
        hometex::ast::parse::whole(&empty),
        Err(failure(&empty, 0, ErrorKind::NumericConversion, Expectation::Whole, true))
    );
    for text in ["1.", ".5", "1.2.3", "abc", "1.5 ", ""] {
        let float = [Token::new(text, TokenKind::Literal(LexLiteral::Float))];
        assert_eq!(
            hometex::ast::parse::float(&float),
            Err(failure(&float, 0, ErrorKind::NumericConversion, Expectation::Float, true))
        );
    }
}

#[test]
fn literal_rules_refuse_other_tokens_without_committing() {
    let tokens = lex_it("abc 1");
    assert_eq!(
        hometex::ast::parse::whole(tokens.as_slice()),
        Err(failure(tokens.as_slice(), 0, ErrorKind::Grammar, Expectation::Tag, false))
    );
    assert_eq!(
        hometex::ast::parse::float(tokens.as_slice()),
        Err(failure(tokens.as_slice(), 0, ErrorKind::Grammar, Expectation::Tag, false))
    );
    assert_eq!(
        hometex::ast::parse::literal(tokens.as_slice()),
        Err(failure(tokens.as_slice(), 0, ErrorKind::Grammar, Expectation::Literal, false))
    );
    let none: [Token; 0] = [];
    assert_eq!(
        hometex::ast::parse::literal(&none),
        Err(failure(&none, 0, ErrorKind::Grammar, Expectation::Literal, false))
    );
}

#[test]
fn identifier_rule() {
    let tokens = lex_it("abc 1");
    assert_eq!(
        hometex::ast::parse::identifier(tokens.as_slice()),
        Ok((&tokens.as_slice()[1..], Identifier { text: "abc" }))
    );
    assert_eq!(
        hometex::ast::parse::identifier(&tokens.as_slice()[1..]),
        Err(failure(tokens.as_slice(), 1, ErrorKind::Grammar, Expectation::Tag, false))
    );
}

#[test]
fn trailing_comma_law() {
    let plain = lex_it("f(a, b, c)");
    let trailing = lex_it("f(a, b, c,)");
    let expected = call("f", vec![variable("a"), variable("b"), variable("c")]);
    assert_eq!(
        hometex::ast::parse::function_call(plain.as_slice()),
        Ok(([].as_slice(), call("f", vec![variable("a"), variable("b"), variable("c")])))
    );
    assert_eq!(
        hometex::ast::parse::function_call(trailing.as_slice()),
        Ok(([].as_slice(), expected))
    );
    assert_eq!(
        hometex::ast::parse::function_call(plain.as_slice()).unwrap().1.inputs,
        hometex::ast::parse::function_call(trailing.as_slice()).unwrap().1.inputs
    );
}

#[test]
fn two_commas_in_a_row_fail() {
    let tokens = lex_it("f(a,, c)");
    // the item that should follow the first comma is missing at the second
    assert_eq!(
        hometex::ast::parse::function_call(tokens.as_slice()),
        Err(failure(tokens.as_slice(), 4, ErrorKind::Grammar, Expectation::Expression, true))
    );
    assert!(hometex::ast::parse::expression(tokens.as_slice()).is_err());
    assert!(ast(tokens.as_slice()).is_err());
}

#[test]
fn a_comma_before_the_first_item_fails() {
    let tokens = lex_it("f(,a)");
    assert_eq!(
        hometex::ast::parse::function_call(tokens.as_slice()),
        Err(failure(tokens.as_slice(), 2, ErrorKind::Grammar, Expectation::Expression, true))
    );
    assert!(hometex::ast::parse::expression(tokens.as_slice()).is_err());
}

#[test]
fn two_trailing_commas_fail() {
    let tokens = lex_it("f(a,,)");
    assert_eq!(
        hometex::ast::parse::function_call(tokens.as_slice()),
        Err(failure(tokens.as_slice(), 4, ErrorKind::Grammar, Expectation::Expression, true))
    );
}

#[test]
fn a_lone_comma_between_the_brackets_fails() {
    let tokens = lex_it("f(,)");
    assert_eq!(
        hometex::ast::parse::function_call(tokens.as_slice()),
        Err(failure(tokens.as_slice(), 2, ErrorKind::Grammar, Expectation::Expression, true))
    );
}

#[test]
fn empty_argument_list() {
    let tokens = lex_it("f()");
    assert_eq!(
        hometex::ast::parse::function_call(tokens.as_slice()),
        Ok(([].as_slice(), FunctionCall { identifier: Identifier { text: "f" }, inputs: vec![] }))
    );
    assert_eq!(
        hometex::ast::parse::expression(tokens.as_slice()),
        Ok(([].as_slice(), Expression::FunctionCall(call("f", vec![]))))
    );
}

#[test]
fn one_argument_with_and_without_trailing_comma() {
    let plain = lex_it("f(1)");
    let trailing = lex_it("f(1,)");
    assert_eq!(
        hometex::ast::parse::function_call(plain.as_slice()),
        Ok(([].as_slice(), call("f", vec![whole(1)])))
    );
    assert_eq!(
        hometex::ast::parse::function_call(trailing.as_slice()),
        Ok(([].as_slice(), call("f", vec![whole(1)])))
    );
}

#[test]
fn nesting() {
    let tokens = lex_it("f(g(1, 2), 3)");
    assert_eq!(
        hometex::ast::parse::function_call(tokens.as_slice()),
        Ok((
            [].as_slice(),
            call(
                "f",
                vec![Expression::FunctionCall(call("g", vec![whole(1), whole(2)])), whole(3)]
            )
        ))
    );
    assert_eq!(
        hometex::ast::parse::expression(tokens.as_slice()),
        Ok((
            [].as_slice(),
            Expression::FunctionCall(call(
                "f",
                vec![Expression::FunctionCall(call("g", vec![whole(1), whole(2)])), whole(3)]
            ))
        ))
    );
}

#[test]
fn deep_nesting() {
    let tokens = lex_it("a(b(c(d(), 1.5,), e), f(),)");
    assert_eq!(
        hometex::ast::parse::expression(tokens.as_slice()),
        Ok((
            [].as_slice(),
            Expression::FunctionCall(call(
                "a",
                vec![
                    Expression::FunctionCall(call(
                        "b",
                        vec![
                            Expression::FunctionCall(call(
                                "c",
                                vec![Expression::FunctionCall(call("d", vec![])), float("1.5")]
                            )),
                            variable("e"),
                        ]
                    )),
                    Expression::FunctionCall(call("f", vec![])),
                ]
            ))
        ))
    );
}

#[test]
fn unterminated_bracket() {
    let tokens = lex_it("f(1, 2");
    let at_end = Err(failure(
        tokens.as_slice(),
        tokens.as_slice().len(),
        ErrorKind::Grammar,
        Expectation::SeparatorOrEnd,
        true,
    ));
    assert_eq!(hometex::ast::parse::function_call(tokens.as_slice()), at_end);
    let failed = hometex::ast::parse::expression(tokens.as_slice()).unwrap_err();
    assert!(failed.input.is_empty());
    assert_eq!(failed.kind, ErrorKind::Grammar);
    let failed = ast(tokens.as_slice()).unwrap_err();
    assert!(failed.input.is_empty());
    assert_eq!(failed.kind, ErrorKind::Grammar);
}

#[test]
fn unterminated_bracket_after_a_comma_or_at_once() {
    let after_comma = lex_it("f(1,");
    let failed = hometex::ast::parse::expression(after_comma.as_slice()).unwrap_err();
    assert_eq!(
        failed,
        failure(after_comma.as_slice(), 4, ErrorKind::Grammar, Expectation::Expression, true)
    );
    let at_once = lex_it("f(");
    let failed = hometex::ast::parse::expression(at_once.as_slice()).unwrap_err();
    assert_eq!(
        failed,
        failure(at_once.as_slice(), 2, ErrorKind::Grammar, Expectation::Expression, true)
    );
    let nested = lex_it("f(g(1, 2), 3");
    let failed = hometex::ast::parse::expression(nested.as_slice()).unwrap_err();
    assert!(failed.input.is_empty());
    assert_eq!(failed.expectation, Expectation::SeparatorOrEnd);
}

#[test]
fn failure_after_an_item_is_placed_behind_that_item() {
    // behind `g(2)`, which ends at the token of index 7, stands `x`
    let tokens = lex_it("f(1, g(2) x)");
    assert_eq!(
        hometex::ast::parse::function_call(tokens.as_slice()),
        Err(failure(tokens.as_slice(), 8, ErrorKind::Grammar, Expectation::SeparatorOrEnd, true))
    );
    let tokens = lex_it("f(1 2)");
    assert_eq!(
        function_call_inputs(&tokens.as_slice()[1..]),
        Err(failure(tokens.as_slice(), 3, ErrorKind::Grammar, Expectation::SeparatorOrEnd, true))
    );
}

#[test]
fn an_invalid_token_makes_the_failure_lexical() {
    let tokens = lex_it("f(1 + 2)");
    assert_eq!(
        hometex::ast::parse::expression(tokens.as_slice()),
        Err(failure(tokens.as_slice(), 3, ErrorKind::Lexical, Expectation::SeparatorOrEnd, true))
    );
    let tokens = lex_it("f(1, $)");
    assert_eq!(
        hometex::ast::parse::expression(tokens.as_slice()),
        Err(failure(tokens.as_slice(), 4, ErrorKind::Lexical, Expectation::Expression, true))
    );
    let tokens = lex_it("@");
    assert_eq!(
        hometex::ast::parse::expression(tokens.as_slice()),
        Err(failure(tokens.as_slice(), 0, ErrorKind::Lexical, Expectation::Expression, false))
    );
    assert_eq!(
        ast(tokens.as_slice()),
        Err(failure(tokens.as_slice(), 0, ErrorKind::Lexical, Expectation::Expression, false))
    );
}

#[test]
fn a_bare_identifier_is_a_variable() {
    let tokens = lex_it("x y");
    assert_eq!(
        hometex::ast::parse::expression(tokens.as_slice()),
        Ok((&tokens.as_slice()[1..], variable("x")))
    );
    // the rule for calls alone does not take it, and does not commit
    assert_eq!(
        hometex::ast::parse::function_call(tokens.as_slice()),
        Err(failure(tokens.as_slice(), 1, ErrorKind::Grammar, Expectation::Tag, false))
    );
    let alone = lex_it("x");
    assert_eq!(
        hometex::ast::parse::function_call(alone.as_slice()),
        Err(failure(alone.as_slice(), 1, ErrorKind::Grammar, Expectation::Tag, false))
    );
    assert_eq!(
        hometex::ast::parse::expression(alone.as_slice()),
        Ok(([].as_slice(), variable("x")))
    );
}

#[test]
fn expression_refuses_brackets_and_commas_and_nothing() {
    for source in ["(", ")", ",", ""] {
        let tokens = lex_it(source);
        assert_eq!(
            hometex::ast::parse::expression(tokens.as_slice()),
            Err(failure(tokens.as_slice(), 0, ErrorKind::Grammar, Expectation::Expression, false))
        );
    }
}

#[test]
fn inputs_need_the_opening_bracket() {
    let tokens = lex_it("1, 2)");
    assert_eq!(
        function_call_inputs(tokens.as_slice()),
        Err(failure(tokens.as_slice(), 0, ErrorKind::Grammar, Expectation::Tag, false))
    );
    assert_eq!(
        expressions_in_round_bracket_seperated_by_comma(tokens.as_slice()),
        Err(failure(tokens.as_slice(), 0, ErrorKind::Grammar, Expectation::Tag, false))
    );
    let tokens = lex_it("(1, x, f(),) rest");
    assert_eq!(
        expressions_in_round_bracket_seperated_by_comma(tokens.as_slice()),
        Ok((
            &tokens.as_slice()[10..],
            vec![whole(1), variable("x"), Expression::FunctionCall(call("f", vec![]))]
        ))
    );
}

#[test]
fn tag_tokens_kind_goes_by_kind_alone() {
    let tokens = lex_it("a b 1");
    let two_names = tag_tokens_kind(&[TokenKind::Identifier, TokenKind::Identifier]);
    assert_eq!(
        two_names(tokens.as_slice()),
        Ok((&tokens.as_slice()[2..], &tokens.as_slice()[..2]))
    );
    assert_eq!(
        two_names(&tokens.as_slice()[1..]),
        Err(failure(tokens.as_slice(), 1, ErrorKind::Grammar, Expectation::Tag, false))
    );
    assert_eq!(
        two_names(&tokens.as_slice()[2..]),
        Err(failure(tokens.as_slice(), 2, ErrorKind::Grammar, Expectation::Tag, false))
    );
    let nothing = tag_tokens_kind(&[]);
    assert_eq!(nothing(tokens.as_slice()), Ok((tokens.as_slice(), [].as_slice())));
    let comma = tag_tokens_kind(&[TokenKind::Operator(Operator::Comma)]);
    let invalid = lex_it("# ,");
    assert_eq!(
        comma(invalid.as_slice()),
        Err(failure(invalid.as_slice(), 0, ErrorKind::Lexical, Expectation::Tag, false))
    );
    assert_eq!(
        comma(&invalid.as_slice()[1..]),
        Ok(([].as_slice(), &invalid.as_slice()[1..]))
    );
}

#[test]
fn a_source_is_a_sequence_of_expressions() {
    let tokens = lex_it("23.43 aha f(1, x) 7");
    assert_eq!(
        ast(tokens.as_slice()),
        Ok((
            [].as_slice(),
            Ast {
                expressions: vec![
                    float("23.43"),
                    variable("aha"),
                    Expression::FunctionCall(call("f", vec![whole(1), variable("x")])),
                    whole(7),
                ]
            }
        ))
    );
    let nothing = lex_it("   ");
    assert_eq!(ast(nothing.as_slice()), Ok(([].as_slice(), Ast { expressions: vec![] })));
}

#[test]
fn the_first_failure_is_the_failure_of_the_source() {
    let tokens = lex_it("1 2 ) 3 f(");
    assert_eq!(
        ast(tokens.as_slice()),
        Err(failure(tokens.as_slice(), 2, ErrorKind::Grammar, Expectation::Expression, false))
    );
    let tokens = lex_it("x f(1 2");
    assert_eq!(
        ast(tokens.as_slice()),
        Err(failure(tokens.as_slice(), 4, ErrorKind::Grammar, Expectation::SeparatorOrEnd, true))
    );
}

#[test]
fn errors_are_built_step_by_step() {
    let tokens = lex_it("1 $");
    let plain = Error::new(tokens.as_slice());
    assert_eq!(plain, failure(tokens.as_slice(), 0, ErrorKind::Grammar, Expectation::Unspecified, false));
    let lexical = Error::new(&tokens.as_slice()[1..]);
    assert_eq!(lexical.kind, ErrorKind::Lexical);
    let at_end = Error::new(&tokens.as_slice()[2..]);
    assert_eq!(at_end.kind, ErrorKind::Grammar);
    assert_eq!(
        plain.with_context(Expectation::Literal).commit(),
        failure(tokens.as_slice(), 0, ErrorKind::Grammar, Expectation::Literal, true)
    );
    assert_eq!(
        Error::conversion(tokens.as_slice(), Expectation::Whole),
        failure(tokens.as_slice(), 0, ErrorKind::NumericConversion, Expectation::Whole, true)
    );
}

#[test]
fn expectations_have_labels() {
    assert_eq!(Expectation::Literal.label(), "expected whole or float literal");
    assert_eq!(Expectation::SeparatorOrEnd.label(), "expected separator or end after an item");
    let all = [
        Expectation::Unspecified,
        Expectation::Tag,
        Expectation::Whole,
        Expectation::Float,
        Expectation::Literal,
        Expectation::Expression,
        Expectation::SeparatorOrEnd,
        Expectation::Close,
        Expectation::Progress,
    ];
    for (i, a) in all.iter().enumerate() {
        for b in &all[i + 1..] {
            assert_ne!(a.label(), b.label());
        }
    }
}

#[test]
fn trees_can_be_cloned() {
    let tokens = lex_it("f(g(1, 2.5), x,) y 3");
    let (_, tree) = ast(tokens.as_slice()).unwrap();
    let copy = tree.clone();
    assert_eq!(copy, tree);
    assert_eq!(copy.expressions.len(), 3);
    assert_eq!(copy.expressions[0].clone(), tree.expressions[0]);
    match &tree.expressions[0] {
        Expression::FunctionCall(call) => {
            let again = call.clone();
            assert_eq!(&again, call);
            assert_eq!(again.inputs.len(), 2);
        }
        other => panic!("{other:?} is no function call"),
    }
    let same = tokens.clone();
    assert_eq!(same, tokens);
    assert_eq!(same.as_slice().len(), 14);
}

#[test]
fn float_literals_round_trip_through_their_text() {
    for value in [0.0f64, 0.5, 1.0, 23.43, 32.3, 1234.5678, 1e15, 0.0001, 4503599627370496.0] {
        let source = format!("{value:?}");
        assert_eq!(source.matches('.').count(), 1, "{source}");
        let tokens = lex_it(&source);
        let (rest, made) = hometex::ast::parse::expression(tokens.as_slice()).unwrap();
        assert!(rest.is_empty());
        match made {
            Expression::Literal(Literal::Float(Float(text))) => {
                assert_eq!(text, source);
                assert_eq!(text.parse::<f64>().unwrap(), value);
            }
            other => panic!("{other:?} is no float literal"),
        }
    }
}

#[test]
fn failures_in_words() {
    let tokens = lex_it("f(1 2)");
    let failed = hometex::ast::parse::function_call(tokens.as_slice()).unwrap_err();
    assert_eq!(failed.message(), "structural error: expected separator or end after an item");
    let tokens = lex_it("99999999999999999999");
    let failed = hometex::ast::parse::expression(tokens.as_slice()).unwrap_err();
    assert_eq!(
        failed.message(),
        "numeric conversion error: expected a whole literal that fits 64 bits"
    );
    let tokens = lex_it("?");
    let failed = hometex::ast::parse::expression(tokens.as_slice()).unwrap_err();
    assert_eq!(
        failed.message(),
        "lexical error: expected literal, function call or variable"
    );
    assert_eq!(ErrorKind::Lexical.name(), "lexical error");
    assert_eq!(ErrorKind::NumericConversion.name(), "numeric conversion error");
    assert_eq!(ErrorKind::Grammar.name(), "structural error");
}
