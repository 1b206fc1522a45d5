//! From a number to its text, and through the tokenizer and the parser back
//! to the number.

use crate::ast::parse::{spec_expression, spec_float, spec_whole, Outcome};
use crate::ast::{ExpressionView, LiteralView};
use crate::lexer::parse::{
    lemma_float_text, lexemes, spec_identifier, spec_literal, tokens_of, Lexeme, Scan,
};
use crate::lexer::text::{
    all_digits, digits_value, lemma_runs_of_digits, spec_parse_u64,
};
use crate::lexer::{Literal, Token, TokenKind};
use vstd::prelude::*;

verus! {

/// The character of a digit.
pub open spec fn digit_char(digit: nat) -> char
    recommends
        digit < 10,
{
    ('0' as nat + digit) as char
}

/// A number written in decimal digits, without leading zeros.
pub open spec fn decimal(n: nat) -> Seq<char>
    decreases n,
{
    if n < 10 {
        seq![digit_char(n)]
    } else {
        decimal(n / 10).push(digit_char(n % 10))
    }
}

/// The decimal text of a number is digits, and they spell the number.
pub proof fn lemma_decimal(n: nat)
    ensures
        all_digits(decimal(n)),
        digits_value(decimal(n)) == n,
    decreases n,
{
    if n < 10 {
        assert(decimal(n).drop_last() == Seq::<char>::empty());
        assert(digits_value(Seq::<char>::empty()) == 0);
    } else {
        lemma_decimal(n / 10);
        assert(decimal(n).drop_last() == decimal(n / 10));
    }
}

/// A text of digits is one token, a literal of digits.
pub proof fn lemma_digits_are_one_token(text: Seq<char>)
    requires
        all_digits(text),
    ensures
        lexemes(text, 0) == seq![
            Lexeme { start: 0, end: text.len(), kind: TokenKind::Literal(Literal::Digits) },
        ],
{
    lemma_runs_of_digits(text);
    assert(text.skip(0) == text);
    let one = seq![
        Lexeme { start: 0, end: text.len(), kind: TokenKind::Literal(Literal::Digits) },
    ];
    assert(lexemes(text, text.len()) == Seq::<Lexeme>::empty());
    assert(one + Seq::<Lexeme>::empty() == one);
}

/// Every number of 64 bits, written in decimal digits, tokenized and
/// parsed, is the whole literal of that number: the tokens of its text are
/// one token, and the rule for expressions makes the number of it.
pub proof fn lemma_whole_round_trip(n: u64, tokens: Seq<Token>)
    requires
        tokens_of(tokens, decimal(n as nat), lexemes(decimal(n as nat), 0)),
    ensures
        tokens.len() == 1,
        spec_whole(tokens) == (Outcome::Accept { consumed: 1, value: n }),
        spec_expression(tokens) == (Outcome::Accept {
            consumed: 1,
            value: ExpressionView::Literal(LiteralView::Whole(n)),
        }),
{
    let text = decimal(n as nat);
    lemma_decimal(n as nat);
    lemma_runs_of_digits(text);
    lemma_digits_are_one_token(text);
    assert(text.subrange(0, text.len() as int) == text);
    assert(tokens[0].fragment@ == text);
    assert(spec_parse_u64(text) == Some(n));
}

/// Every text of digits, a dot and digits, tokenized and parsed, is the
/// float literal of that text: the tokens of the text are one token, and
/// the rule for expressions makes the literal of it. (What number of 64
/// bits the text stands for is not said here.)
pub proof fn lemma_float_round_trip(whole: Seq<char>, fraction: Seq<char>, tokens: Seq<Token>)
    requires
        all_digits(whole),
        all_digits(fraction),
        tokens_of(
            tokens,
            whole + seq!['.'] + fraction,
            lexemes(whole + seq!['.'] + fraction, 0),
        ),
    ensures
        tokens.len() == 1,
        spec_float(tokens) == (Outcome::Accept {
            consumed: 1,
            value: whole + seq!['.'] + fraction,
        }),
        spec_expression(tokens) == (Outcome::Accept {
            consumed: 1,
            value: ExpressionView::Literal(LiteralView::Float(whole + seq!['.'] + fraction)),
        }),
{
    let text = whole + seq!['.'] + fraction;
    lemma_float_text(whole, fraction);
    assert(text.skip(0) == text);
    assert(text[0] == whole[0]);
    assert(spec_identifier(text) is Failed);
    assert(spec_literal(text).0 == (Scan::Taken { len: text.len() }));
    let one = seq![
        Lexeme { start: 0, end: text.len(), kind: TokenKind::Literal(Literal::Float) },
    ];
    assert(lexemes(text, text.len()) == Seq::<Lexeme>::empty());
    assert(one + Seq::<Lexeme>::empty() == one);
    assert(lexemes(text, 0) == one);
    assert(text.subrange(0, text.len() as int) == text);
    assert(tokens[0].fragment@ == text);
}

} // verus!
