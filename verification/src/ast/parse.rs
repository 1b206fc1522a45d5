//! The grammar.
//!
//! Each rule is stated twice: as a function on the sequence of tokens, which
//! says what the rule makes of them, and as a parser, which does so.

use crate::ast::{
    expression_views, kind_at, lemma_expression_views, lemma_expression_views_push, Ast, Error,
    ErrorKind, Expectation, Expression, ExpressionView, Float, FunctionCall, FunctionCallView,
    Identifier, Literal, LiteralView, Variable, Whole, TS,
};
use crate::lexer::parse::is_float_text;
use crate::lexer::text::{parse_u64, spec_parse_u64};
use crate::lexer::{Operator, Token, TokenKind};
use combinator::{failure, IResult};
use separated::{
    committed, ends_at, holds_at, item_failed, item_taken, listable, listed, listed_from,
    refuses, stepped, surround_seperated_items_allowed_trailing,
};
use vstd::prelude::*;
use vstd::slice::slice_to_vec;

pub mod combinator;
pub mod commas;
pub mod failures;
pub mod grammar;
pub mod separated;

verus! {

/// What a rule makes of a sequence of tokens: a value out of the first
/// `consumed` of them, or a failure at the index `at`.
pub enum Outcome<V> {
    Accept { consumed: nat, value: V },
    Reject { at: nat, kind: ErrorKind, expectation: Expectation, committed: bool },
}

impl<V> Outcome<V> {
    /// The same outcome for tokens that stand `by` places further on.
    pub open spec fn shift(self, by: nat) -> Outcome<V> {
        match self {
            Outcome::Accept { consumed, value } => Outcome::Accept {
                consumed: consumed + by,
                value,
            },
            Outcome::Reject { at, kind, expectation, committed } => Outcome::Reject {
                at: at + by,
                kind,
                expectation,
                committed,
            },
        }
    }

    /// Whether a choice between rules goes on to the next rule after this
    /// outcome: it does after a failure that is not committed.
    pub open spec fn passes(self) -> bool {
        self matches Outcome::Reject { committed, .. } && !committed
    }
}

/// The uncommitted failure at the start of `input` that looked for
/// `expectation`.
pub open spec fn reject<V>(input: Seq<Token>, expectation: Expectation) -> Outcome<V> {
    Outcome::Reject { at: 0, kind: kind_at(input), expectation, committed: false }
}

/// The same failure, whatever the rule would have made.
pub open spec fn rejected<V, W>(outcome: Outcome<V>) -> Outcome<W> {
    Outcome::Reject {
        at: outcome->at,
        kind: outcome->kind,
        expectation: outcome->expectation,
        committed: outcome->committed,
    }
}

/// The result `r` of a parser on `input` is the one that `outcome` tells.
pub open spec fn agrees<'a, 'src, O: View>(
    input: TS<'a, 'src>,
    r: IResult<'a, 'src, O>,
    outcome: Outcome<O::V>,
) -> bool {
    match outcome {
        Outcome::Accept { consumed, value } => r matches Ok((rest, made)) && consumed
            <= input@.len() && rest@ == input@.skip(consumed as int) && made@ == value,
        Outcome::Reject { at, kind, expectation, committed } => r matches Err(e) && at
            <= input@.len() && e.input@ == input@.skip(at as int) && e.kind == kind
            && e.expectation == expectation && e.committed == committed,
    }
}

/// Whether `input` begins with tokens of the kinds `kinds`, in their order.
pub open spec fn kinds_match(input: Seq<Token>, kinds: Seq<TokenKind>) -> bool {
    &&& kinds.len() <= input.len()
    &&& forall|i: int| 0 <= i < kinds.len() ==> (#[trigger] input[i]).kind == kinds[i]
}

/// What `tag_tokens_kind(kinds)` makes of `input`: the tokens of those
/// kinds, or a failure where `input` does not begin with such.
pub open spec fn kind_tagged<'a, 'src>(
    kinds: Seq<TokenKind>,
    input: TS<'a, 'src>,
    r: IResult<'a, 'src, TS<'a, 'src>>,
) -> bool {
    if kinds_match(input@, kinds) {
        r matches Ok((rest, taken)) && taken@ == input@.take(kinds.len() as int) && rest@
            == input@.skip(kinds.len() as int)
    } else {
        r == Err::<(TS, TS), Error>(failure(input, Expectation::Tag))
    }
}

/// The parser that takes tokens of the given kinds, whatever their text.
pub fn tag_tokens_kind(kind: &[TokenKind]) -> (parser: impl for <'a, 'src>Fn(
    TS<'a, 'src>,
) -> IResult<'a, 'src, TS<'a, 'src>>)
    ensures
        forall|input: TS| #[trigger] call_requires(parser, (input,)),
        forall|input: TS, r: IResult<TS>| #[trigger]
            call_ensures(parser, (input,), r) ==> kind_tagged(kind@, input, r),
{
    let kind = slice_to_vec(kind);
    move |input: TS| -> (r: IResult<TS>)
        ensures
            kind_tagged(kind@, input, r),
        {
            if kind.len() > input.len() {
                return Err(Error::new(input).with_context(Expectation::Tag));
            }
            let mut i: usize = 0;
            while i < kind.len()
                invariant
                    i <= kind@.len() <= input@.len(),
                    forall|j: int| 0 <= j < i ==> (#[trigger] input@[j]).kind == kind@[j],
                decreases kind@.len() - i,
            {
                if input[i].kind != kind[i] {
                    return Err(Error::new(input).with_context(Expectation::Tag));
                }
                i += 1;
            }
            let (tokens, rest) = input.split_at(kind.len());
            Ok((rest, tokens))
        }
}

/// Whether `input` begins with a token of the kind `kind`.
pub open spec fn first_is(input: Seq<Token>, kind: TokenKind) -> bool {
    input.len() > 0 && input[0].kind == kind
}

/// An identifier is one token of that kind; its value is the token's text.
pub open spec fn spec_identifier(input: Seq<Token>) -> Outcome<Seq<char>> {
    if first_is(input, TokenKind::Identifier) {
        Outcome::Accept { consumed: 1, value: input[0].fragment@ }
    } else {
        reject(input, Expectation::Tag)
    }
}

/// An identifier.
pub fn identifier<'a, 'src>(input: TS<'a, 'src>) -> (r: IResult<'a, 'src, Identifier<'src>>)
    ensures
        agrees(input, r, spec_identifier(input@)),
        r matches Ok((_, identifier)) ==> identifier.text == input@[0].fragment,
{
    let identifier_kind = [TokenKind::Identifier];
    let parser = tag_tokens_kind(identifier_kind.as_slice());
    proof {
        assert(input@.skip(0) == input@);
        assert(kinds_match(input@, identifier_kind@) <==> first_is(input@, TokenKind::Identifier));
    }
    match parser(input) {
        Ok((rest, identifier)) => Ok((rest, Identifier { text: identifier[0].fragment })),
        Err(e) => Err(e),
    }
}

/// A whole literal is one token of digits; its value is the number that the
/// digits spell. Digits that spell more than 64 bits hold are a failed
/// conversion.
pub open spec fn spec_whole(input: Seq<Token>) -> Outcome<u64> {
    if first_is(input, TokenKind::Literal(crate::lexer::Literal::Digits)) {
        match spec_parse_u64(input[0].fragment@) {
            Some(value) => Outcome::Accept { consumed: 1, value },
            None => Outcome::Reject {
                at: 0,
                kind: ErrorKind::NumericConversion,
                expectation: Expectation::Whole,
                committed: true,
            },
        }
    } else {
        reject(input, Expectation::Tag)
    }
}

/// A whole literal.
pub fn whole<'a, 'src>(input: TS<'a, 'src>) -> (r: IResult<'a, 'src, Whole>)
    ensures
        agrees(input, r, spec_whole(input@)),
{
    let digits_kind = [TokenKind::Literal(crate::lexer::Literal::Digits)];
    let parser = tag_tokens_kind(digits_kind.as_slice());
    proof {
        assert(input@.skip(0) == input@);
        assert(kinds_match(input@, digits_kind@) <==> first_is(
            input@,
            TokenKind::Literal(crate::lexer::Literal::Digits),
        ));
    }
    match parser(input) {
        Ok((rest, digits)) => match parse_u64(digits[0].fragment) {
            Some(value) => Ok((rest, Whole(value))),
            None => Err(Error::conversion(input, Expectation::Whole)),
        },
        Err(e) => Err(e),
    }
}

/// A float literal is one token of that kind; its value is the token's
/// text, which has to be digits, a dot, digits.
pub open spec fn spec_float(input: Seq<Token>) -> Outcome<Seq<char>> {
    if first_is(input, TokenKind::Literal(crate::lexer::Literal::Float)) {
        if is_float_text(input[0].fragment@) {
            Outcome::Accept { consumed: 1, value: input[0].fragment@ }
        } else {
            Outcome::Reject {
                at: 0,
                kind: ErrorKind::NumericConversion,
                expectation: Expectation::Float,
                committed: true,
            }
        }
    } else {
        reject(input, Expectation::Tag)
    }
}

/// A float literal.
pub fn float<'a, 'src>(input: TS<'a, 'src>) -> (r: IResult<'a, 'src, Float<'src>>)
    ensures
        agrees(input, r, spec_float(input@)),
        r matches Ok((_, float)) ==> float.0 == input@[0].fragment,
{
    let float_kind = [TokenKind::Literal(crate::lexer::Literal::Float)];
    let parser = tag_tokens_kind(float_kind.as_slice());
    proof {
        assert(input@.skip(0) == input@);
        assert(kinds_match(input@, float_kind@) <==> first_is(
            input@,
            TokenKind::Literal(crate::lexer::Literal::Float),
        ));
    }
    match parser(input) {
        Ok((rest, float)) => {
            let text = float[0].fragment;
            let well_formed = match crate::lexer::parse::float(text) {
                Ok((after, _)) => after.is_empty(),
                Err(_) => false,
            };
            if well_formed {
                Ok((rest, Float(text)))
            } else {
                Err(Error::conversion(input, Expectation::Float))
            }
        },
        Err(e) => Err(e),
    }
}

/// A literal is a whole literal or, failing that, a float literal.
pub open spec fn spec_literal(input: Seq<Token>) -> Outcome<LiteralView> {
    let whole = spec_whole(input);
    let float = spec_float(input);
    if whole is Accept {
        Outcome::Accept { consumed: whole->consumed, value: LiteralView::Whole(whole->value) }
    } else if !whole.passes() {
        rejected(whole)
    } else if float is Accept {
        Outcome::Accept { consumed: float->consumed, value: LiteralView::Float(float->value) }
    } else if !float.passes() {
        rejected(float)
    } else {
        reject(input, Expectation::Literal)
    }
}

fn whole_literal<'src>(made: Whole) -> (literal: Literal<'src>)
    ensures
        literal == Literal::<'src>::Whole(made),
{
    Literal::Whole(made)
}

fn float_literal<'src>(made: Float<'src>) -> (literal: Literal<'src>)
    ensures
        literal == Literal::Float(made),
{
    Literal::Float(made)
}

/// A literal.
pub fn literal<'a, 'src>(input: TS<'a, 'src>) -> (r: IResult<'a, 'src, Literal<'src>>)
    ensures
        agrees(input, r, spec_literal(input@)),
{
    let whole = combinator::map(whole, whole_literal);
    let float = combinator::map(float, float_literal);
    proof {
        assert(input@.skip(0) == input@);
    }
    match whole(input) {
        Ok(o) => {
            return Ok(o);
        },
        Err(e) => {
            if e.committed {
                return Err(e);
            }
        },
    }
    match float(input) {
        Ok(o) => {
            return Ok(o);
        },
        Err(e) => {
            if e.committed {
                return Err(e);
            }
        },
    }
    Err(Error::new(input).with_context(Expectation::Literal))
}

/// Whether a rule that took `consumed` of the tokens `input` took some and
/// no more than there are.
pub open spec fn advances(consumed: nat, input: Seq<Token>) -> bool {
    0 < consumed <= input.len()
}

/// An expression is a literal, or failing that a function call, or failing
/// that a variable. A failure that is committed ends the choice.
pub open spec fn spec_expression(input: Seq<Token>) -> Outcome<ExpressionView>
    decreases input.len(), 3int,
{
    let literal = spec_literal(input);
    if literal is Accept {
        Outcome::Accept {
            consumed: literal->consumed,
            value: ExpressionView::Literal(literal->value),
        }
    } else if !literal.passes() {
        rejected(literal)
    } else {
        let call = spec_function_call(input);
        let variable = spec_identifier(input);
        if call is Accept {
            Outcome::Accept {
                consumed: call->consumed,
                value: ExpressionView::FunctionCall(call->value),
            }
        } else if !call.passes() {
            rejected(call)
        } else if variable is Accept {
            Outcome::Accept {
                consumed: variable->consumed,
                value: ExpressionView::Variable(variable->value),
            }
        } else {
            reject(input, Expectation::Expression)
        }
    }
}

/// A function call is an identifier and, behind it, the list of its
/// inputs.
pub open spec fn spec_function_call(input: Seq<Token>) -> Outcome<FunctionCallView>
    decreases input.len(), 2int,
{
    let identifier = spec_identifier(input);
    if identifier is Accept {
        let inputs = spec_function_call_inputs(input.skip(1)).shift(1);
        if inputs is Accept {
            Outcome::Accept {
                consumed: inputs->consumed,
                value: FunctionCallView { identifier: identifier->value, inputs: inputs->value },
            }
        } else {
            rejected(inputs)
        }
    } else {
        rejected(identifier)
    }
}

/// The inputs of a function call stand between round brackets: none, or
/// expressions with a comma after each but, at will, the last.
pub open spec fn spec_function_call_inputs(input: Seq<Token>) -> Outcome<Seq<ExpressionView>>
    decreases input.len(), 1int,
{
    if !first_is(input, TokenKind::Operator(Operator::LeftRoundBracket)) {
        reject(input, Expectation::Tag)
    } else if first_is(input.skip(1), TokenKind::Operator(Operator::RightRoundBracket)) {
        Outcome::Accept { consumed: 2, value: Seq::empty() }
    } else {
        spec_items(input.skip(1)).shift(1)
    }
}

/// The expressions of a list from one of them on, up to the bracket that
/// ends the list. After each expression stands a comma, the closing
/// bracket, or a comma and the closing bracket; anything else fails at the
/// place after the expression. Every failure in here is committed.
pub open spec fn spec_items(input: Seq<Token>) -> Outcome<Seq<ExpressionView>>
    decreases input.len(), 4int,
{
    let item = spec_expression(input);
    if item is Accept {
        let consumed = item->consumed;
        let value = item->value;
        let separated = first_is(input.skip(consumed as int), TokenKind::Operator(Operator::Comma));
        let at = if separated {
            consumed + 1
        } else {
            consumed
        };
        if !advances(consumed, input) {
            Outcome::Reject {
                at: 0,
                kind: kind_at(input),
                expectation: Expectation::Progress,
                committed: true,
            }
        } else if first_is(
            input.skip(at as int),
            TokenKind::Operator(Operator::RightRoundBracket),
        ) {
            Outcome::Accept { consumed: at + 1, value: seq![value] }
        } else if !separated {
            Outcome::Reject {
                at: consumed,
                kind: kind_at(input.skip(consumed as int)),
                expectation: Expectation::SeparatorOrEnd,
                committed: true,
            }
        } else {
            let more = spec_items(input.skip(at as int)).shift(at);
            if more is Accept {
                Outcome::Accept { consumed: more->consumed, value: seq![value] + more->value }
            } else {
                more
            }
        }
    } else {
        Outcome::Reject {
            at: item->at,
            kind: item->kind,
            expectation: item->expectation,
            committed: true,
        }
    }
}

/// The inputs of a function call are none only where the closing bracket
/// follows the opening one at once.
pub proof fn lemma_no_inputs(input: Seq<Token>)
    requires
        spec_function_call_inputs(input) is Accept,
    ensures
        spec_function_call_inputs(input)->value.len() == 0 <==> first_is(
            input.skip(1),
            TokenKind::Operator(Operator::RightRoundBracket),
        ),
        spec_function_call_inputs(input)->value.len() == 0 ==> spec_function_call_inputs(
            input,
        )->consumed == 2,
{
    lemma_items_not_empty(input.skip(1));
}

/// A list that is looked for item by item holds at least one item.
pub proof fn lemma_items_not_empty(input: Seq<Token>)
    ensures
        spec_items(input) matches Outcome::Accept { value, .. } ==> value.len() > 0,
    decreases input.len(),
{
    let item = spec_expression(input);
    if item is Accept && advances(item->consumed, input) {
        let separated = first_is(
            input.skip(item->consumed as int),
            TokenKind::Operator(Operator::Comma),
        );
        if separated {
            lemma_items_not_empty(input.skip(item->consumed + 1 as int));
        }
    }
}

/// The index of the token behind an item that takes `consumed` tokens of
/// `input`, and behind the comma that follows the item, if one does.
pub open spec fn behind_item(input: Seq<Token>, consumed: nat) -> nat {
    if first_is(input.skip(consumed as int), TokenKind::Operator(Operator::Comma)) {
        consumed + 1
    } else {
        consumed
    }
}

/// How a list that is accepted is made up: of its first item, of the comma
/// behind it, if there is one, and then of the closing bracket or, behind a
/// comma, of the rest of the list.
pub proof fn lemma_items_accepted(input: Seq<Token>)
    requires
        spec_items(input) is Accept,
    ensures
        spec_expression(input) is Accept,
        advances(spec_expression(input)->consumed, input),
        behind_item(input, spec_expression(input)->consumed) < input.len(),
        ({
            let item = spec_expression(input);
            let at = behind_item(input, item->consumed);
            let rest = spec_items(input.skip(at as int));
            if input[at as int].kind == TokenKind::Operator(Operator::RightRoundBracket) {
                spec_items(input) == (Outcome::Accept {
                    consumed: at + 1,
                    value: seq![item->value],
                })
            } else {
                &&& at == item->consumed + 1
                &&& rest is Accept
                &&& advances(rest->consumed, input.skip(at as int))
                &&& spec_items(input) == (Outcome::Accept {
                    consumed: at + rest->consumed,
                    value: seq![item->value] + rest->value,
                })
            }
        }),
{
    let item = spec_expression(input);
    let at = behind_item(input, item->consumed);
    lemma_outcomes_within(input);
    lemma_outcomes_within(input.skip(at as int));
    if at < input.len() {
        assert(input.skip(at as int)[0] == input[at as int]);
    }
}

/// How a list is made up of an item and what follows it: an item, a comma
/// at will and the closing bracket are a list of that one item; an item, a
/// comma and a list are the list with that item before the others.
pub proof fn lemma_items_made(input: Seq<Token>)
    requires
        spec_expression(input) is Accept,
        behind_item(input, spec_expression(input)->consumed) < input.len(),
    ensures
        ({
            let item = spec_expression(input);
            let at = behind_item(input, item->consumed);
            let rest = spec_items(input.skip(at as int));
            &&& input[at as int].kind == TokenKind::Operator(Operator::RightRoundBracket)
                ==> spec_items(input) == (Outcome::Accept {
                consumed: at + 1,
                value: seq![item->value],
            })
            &&& input[at as int].kind != TokenKind::Operator(Operator::RightRoundBracket) && at
                == item->consumed + 1 && rest is Accept ==> spec_items(input) == (Outcome::Accept {
                consumed: at + rest->consumed,
                value: seq![item->value] + rest->value,
            })
        }),
{
    let item = spec_expression(input);
    let at = behind_item(input, item->consumed);
    lemma_outcomes_within(input);
    assert(input.skip(at as int)[0] == input[at as int]);
}

/// Behind an expression of a list, where neither a comma nor the closing
/// bracket stands, the list fails at the very place behind the expression.
pub proof fn lemma_failure_behind_item(input: Seq<Token>)
    requires
        spec_expression(input) is Accept,
        !first_is(
            input.skip(spec_expression(input)->consumed as int),
            TokenKind::Operator(Operator::Comma),
        ),
        !first_is(
            input.skip(spec_expression(input)->consumed as int),
            TokenKind::Operator(Operator::RightRoundBracket),
        ),
    ensures
        spec_items(input) == (Outcome::<Seq<ExpressionView>>::Reject {
            at: spec_expression(input)->consumed,
            kind: kind_at(input.skip(spec_expression(input)->consumed as int)),
            expectation: Expectation::SeparatorOrEnd,
            committed: true,
        }),
{
    lemma_outcomes_within(input);
}

/// Every rule that accepts takes at least one token and no more than there
/// are, and every rule that rejects does so at a place within the tokens.
pub proof fn lemma_outcomes_within(input: Seq<Token>)
    ensures
        spec_expression(input) matches Outcome::Accept { consumed, .. } ==> advances(
            consumed,
            input,
        ),
        spec_expression(input) matches Outcome::Reject { at, .. } ==> at <= input.len(),
        spec_function_call(input) matches Outcome::Accept { consumed, .. } ==> advances(
            consumed,
            input,
        ),
        spec_function_call(input) matches Outcome::Reject { at, .. } ==> at <= input.len(),
        spec_function_call_inputs(input) matches Outcome::Accept { consumed, .. } ==> advances(
            consumed,
            input,
        ),
        spec_function_call_inputs(input) matches Outcome::Reject { at, .. } ==> at <= input.len(),
        spec_items(input) matches Outcome::Accept { consumed, .. } ==> advances(consumed, input),
        spec_items(input) matches Outcome::Reject { at, .. } ==> at <= input.len(),
    decreases input.len(),
{
    if input.len() > 0 {
        let tail = input.skip(1);
        lemma_outcomes_within(tail);
        if spec_identifier(input) is Accept {
            // the call's inputs begin behind the identifier
            if first_is(tail, TokenKind::Operator(Operator::LeftRoundBracket)) && !first_is(
                tail.skip(1),
                TokenKind::Operator(Operator::RightRoundBracket),
            ) {
                lemma_outcomes_within(tail.skip(1));
            }
        }
        if first_is(input, TokenKind::Operator(Operator::LeftRoundBracket)) && !first_is(
            tail,
            TokenKind::Operator(Operator::RightRoundBracket),
        ) {
            // covered by the call on `tail`
        }
        if spec_expression(input) is Accept {
            let consumed = spec_expression(input)->consumed;
            let separated = first_is(
                input.skip(consumed as int),
                TokenKind::Operator(Operator::Comma),
            );
            if separated && advances(consumed, input) {
                lemma_outcomes_within(input.skip(consumed + 1 as int));
            }
        }
    }
}

/// The list `r` that a parser made of `input` is the one that `outcome`
/// tells.
pub open spec fn agrees_all<'a, 'src>(
    input: TS<'a, 'src>,
    r: IResult<'a, 'src, Vec<Expression<'src>>>,
    outcome: Outcome<Seq<ExpressionView>>,
) -> bool {
    match outcome {
        Outcome::Accept { consumed, value } => r matches Ok((rest, made)) && consumed
            <= input@.len() && rest@ == input@.skip(consumed as int) && expression_views(made@)
            == value,
        Outcome::Reject { at, kind, expectation, committed } => r matches Err(e) && at
            <= input@.len() && e.input@ == input@.skip(at as int) && e.kind == kind
            && e.expectation == expectation && e.committed == committed,
    }
}

/// The list `r`, whose items from the index `k` on were made of the tokens
/// at `cur`, is from there on the one that `outcome` tells.
pub open spec fn continues<'a, 'src>(
    cur: TS<'a, 'src>,
    r: IResult<'a, 'src, Vec<Expression<'src>>>,
    k: nat,
    outcome: Outcome<Seq<ExpressionView>>,
) -> bool {
    match outcome {
        Outcome::Accept { consumed, value } => r matches Ok((rest, made)) && consumed
            <= cur@.len() && rest@ == cur@.skip(consumed as int) && made@.len() == k
            + value.len() && forall|j: int|
            0 <= j < value.len() ==> (#[trigger] made@[k + j])@ == value[j],
        Outcome::Reject { at, kind, expectation, committed } => r matches Err(e) && at
            <= cur@.len() && e.input@ == cur@.skip(at as int) && e.kind == kind && e.expectation
            == expectation && e.committed == committed,
    }
}

/// Whether whatever `item` makes of tokens is what the rule for
/// expressions makes of them.
pub open spec fn parses_expressions<'a, 'src: 'a, IP>(item: IP) -> bool where
    IP: Fn(TS<'a, 'src>) -> IResult<'a, 'src, Expression<'src>>,
 {
    forall|at: TS<'a, 'src>, out: IResult<'a, 'src, Expression<'src>>| #[trigger]
        call_ensures(item, (at,), out) ==> agrees(at, out, spec_expression(at@))
}

/// Whether `parser` takes one token of the kind `kind` and nothing else.
pub open spec fn tags_kind<'a, 'src: 'a, P>(parser: P, kind: TokenKind) -> bool where
    P: Fn(TS<'a, 'src>) -> IResult<'a, 'src, TS<'a, 'src>>,
 {
    forall|at: TS<'a, 'src>, out: IResult<'a, 'src, TS<'a, 'src>>| #[trigger]
        call_ensures(parser, (at,), out) ==> kind_tagged(seq![kind], at, out)
}

/// A parser of one kind of token leaves the tokens behind that token, where
/// the tokens begin with one of that kind, and fails on all others.
pub proof fn lemma_tags_kind<'a, 'src: 'a, P>(
    parser: P,
    kind: TokenKind,
    at: TS<'a, 'src>,
    out: IResult<'a, 'src, TS<'a, 'src>>,
) where P: Fn(TS<'a, 'src>) -> IResult<'a, 'src, TS<'a, 'src>>
    requires
        tags_kind(parser, kind),
        call_ensures(parser, (at,), out),
    ensures
        first_is(at@, kind) ==> (out matches Ok((rest, _)) && rest@ == at@.skip(1)),
        !first_is(at@, kind) ==> out == Err::<(TS, TS), Error>(failure(at, Expectation::Tag)),
{
    assert(kinds_match(at@, seq![kind]) <==> first_is(at@, kind));
}

/// Whether a round of the list parser at `cur` has made the expression
/// that the rule for expressions tells, has left `after_item` behind it,
/// and has then gone on to `at`, over the comma behind the expression if
/// one stands there (`separated`).
pub open spec fn round_taken<'a, 'src>(
    cur: TS<'a, 'src>,
    after_item: TS<'a, 'src>,
    made: Expression<'src>,
    at: TS<'a, 'src>,
    separated: bool,
) -> bool {
    let item = spec_expression(cur@);
    &&& item is Accept
    &&& advances(item->consumed, cur@)
    &&& after_item@ == cur@.skip(item->consumed as int)
    &&& made@ == item->value
    &&& separated == first_is(after_item@, TokenKind::Operator(Operator::Comma))
    &&& at@ == cur@.skip(behind_item(cur@, item->consumed) as int)
}

/// One round of the list parser on a list of expressions: the item is the
/// expression that the rule for expressions tells, a comma is found behind
/// it exactly where one stands there, and the list ends exactly where the
/// closing bracket stands behind that.
pub proof fn lemma_item_taken<'a, 'src: 'a, IP, SP, EP>(
    item: IP,
    seperator: SP,
    end: EP,
    cur: TS<'a, 'src>,
    r: IResult<'a, 'src, Vec<Expression<'src>>>,
    k: nat,
    after_item: TS<'a, 'src>,
    made: Expression<'src>,
    at: TS<'a, 'src>,
    separated: bool,
    next: bool,
) where
    IP: Fn(TS<'a, 'src>) -> IResult<'a, 'src, Expression<'src>>,
    SP: Fn(TS<'a, 'src>) -> IResult<'a, 'src, TS<'a, 'src>>,
    EP: Fn(TS<'a, 'src>) -> IResult<'a, 'src, TS<'a, 'src>>,

    requires
        item_taken(item, seperator, end, cur, r, k, after_item, made, at, separated, next),
        parses_expressions(item),
        tags_kind(seperator, TokenKind::Operator(Operator::Comma)),
        tags_kind(end, TokenKind::Operator(Operator::RightRoundBracket)),
    ensures
        round_taken(cur, after_item, made, at, separated),
        ends_at(end, at, r, k + 1) == first_is(
            at@,
            TokenKind::Operator(Operator::RightRoundBracket),
        ),
        ends_at(end, at, r, k + 1) ==> r->Ok_0.0@ == at@.skip(1),
        !ends_at(end, at, r, k + 1) ==> refuses(end, at),
{
    let comma = TokenKind::Operator(Operator::Comma);
    let bracket = TokenKind::Operator(Operator::RightRoundBracket);
    lemma_outcomes_within(cur@);
    assert(agrees(cur, Ok::<(TS, Expression), Error>((after_item, made)), spec_expression(cur@)));
    let consumed = spec_expression(cur@)->consumed;
    if separated {
        let o = choose|o: TS<'a, 'src>| #[trigger]
            call_ensures(seperator, (after_item,), Ok::<(TS, TS), Error>((at, o)));
        lemma_tags_kind(seperator, comma, after_item, Ok::<(TS, TS), Error>((at, o)));
        assert(at@ == cur@.skip((consumed + 1) as int));
    } else {
        let e = choose|e: Error<'a, 'src>| #[trigger]
            call_ensures(seperator, (after_item,), Err::<(TS, TS), Error>(e));
        lemma_tags_kind(seperator, comma, after_item, Err::<(TS, TS), Error>(e));
    }
    if ends_at(end, at, r, k + 1) {
        let rest = r->Ok_0.0;
        let o = choose|o: TS<'a, 'src>| #[trigger]
            call_ensures(end, (at,), Ok::<(TS, TS), Error>((rest, o)));
        lemma_tags_kind(end, bracket, at, Ok::<(TS, TS), Error>((rest, o)));
    } else {
        let e = choose|e: Error<'a, 'src>| #[trigger]
            call_ensures(end, (at,), Err::<(TS, TS), Error>(e));
        lemma_tags_kind(end, bracket, at, Err::<(TS, TS), Error>(e));
    }
}

/// A list that ends with the failure of an item is the failure that the
/// rule for the items of a list tells.
pub proof fn lemma_round_failed<'a, 'src>(
    cur: TS<'a, 'src>,
    r: IResult<'a, 'src, Vec<Expression<'src>>>,
    k: nat,
    e: Error<'a, 'src>,
)
    requires
        agrees(cur, Err::<(TS, Expression), Error>(e), spec_expression(cur@)),
        r == Err::<(TS, Vec<Expression>), Error>(committed(e)),
    ensures
        continues(cur, r, k, spec_items(cur@)),
{
}

/// A list that ends behind a round is the list that the rule for the items
/// of a list tells.
pub proof fn lemma_round_ended<'a, 'src>(
    cur: TS<'a, 'src>,
    r: IResult<'a, 'src, Vec<Expression<'src>>>,
    k: nat,
    after_item: TS<'a, 'src>,
    made: Expression<'src>,
    at: TS<'a, 'src>,
    separated: bool,
)
    requires
        round_taken(cur, after_item, made, at, separated),
        first_is(at@, TokenKind::Operator(Operator::RightRoundBracket)),
        r matches Ok((rest, items)) && rest@ == at@.skip(1) && items@.len() == k + 1 && items@[k as int]
            == made,
    ensures
        continues(cur, r, k, spec_items(cur@)),
{
    let consumed = spec_expression(cur@)->consumed;
    let place = behind_item(cur@, consumed);
    assert(at@[0] == cur@[place as int]);
    lemma_items_made(cur@);
    assert(r->Ok_0.0@ == cur@.skip((place + 1) as int));
    assert(r->Ok_0.1@[(k + 0) as int] == made);
}

/// A list that fails behind an item, where neither a comma nor the closing
/// bracket stands, is the failure that the rule for the items of a list
/// tells.
pub proof fn lemma_round_stopped<'a, 'src>(
    cur: TS<'a, 'src>,
    r: IResult<'a, 'src, Vec<Expression<'src>>>,
    k: nat,
    after_item: TS<'a, 'src>,
    made: Expression<'src>,
    at: TS<'a, 'src>,
)
    requires
        round_taken(cur, after_item, made, at, false),
        !first_is(at@, TokenKind::Operator(Operator::RightRoundBracket)),
        r == Err::<(TS, Vec<Expression>), Error>(
            committed(failure(after_item, Expectation::SeparatorOrEnd)),
        ),
    ensures
        continues(cur, r, k, spec_items(cur@)),
{
}

/// A list that goes on behind a comma as the rule for the items of a list
/// tells is, from the item before the comma on, the list that the rule
/// tells.
pub proof fn lemma_round_continued<'a, 'src>(
    cur: TS<'a, 'src>,
    r: IResult<'a, 'src, Vec<Expression<'src>>>,
    k: nat,
    after_item: TS<'a, 'src>,
    made: Expression<'src>,
    at: TS<'a, 'src>,
)
    requires
        round_taken(cur, after_item, made, at, true),
        !first_is(at@, TokenKind::Operator(Operator::RightRoundBracket)),
        holds_at(r, k, made),
        continues(at, r, k + 1, spec_items(at@)),
    ensures
        continues(cur, r, k, spec_items(cur@)),
{
    let consumed = spec_expression(cur@)->consumed;
    let value = spec_expression(cur@)->value;
    let place = consumed + 1;
    let more = spec_items(at@);
    assert(after_item@[0] == cur@[consumed as int]);
    assert(behind_item(cur@, consumed) == place);
    if more is Accept {
        let all = r->Ok_0.1@;
        assert(place < cur@.len());
        assert(at@[0] == cur@[place as int]);
        lemma_items_made(cur@);
        assert(r->Ok_0.0@ == cur@.skip((place + more->consumed) as int));
        assert forall|j: int| 0 <= j < 1 + more->value.len() implies (#[trigger] all[k + j])@ == (
        seq![value] + more->value)[j] by {
            if j > 0 {
                assert(all[(k + 1) + (j - 1)]@ == more->value[j - 1]);
            }
        }
    } else {
        assert(r->Err_0.input@ == cur@.skip((place + more->at) as int));
    }
}

/// A list of expressions between round brackets, as the list parser makes
/// it item by item, is the list that the rule for the items of a list
/// tells.
pub proof fn lemma_items<'a, 'src: 'a, IP, SP, EP>(
    item: IP,
    seperator: SP,
    end: EP,
    cur: TS<'a, 'src>,
    r: IResult<'a, 'src, Vec<Expression<'src>>>,
    k: nat,
) where
    IP: Fn(TS<'a, 'src>) -> IResult<'a, 'src, Expression<'src>>,
    SP: Fn(TS<'a, 'src>) -> IResult<'a, 'src, TS<'a, 'src>>,
    EP: Fn(TS<'a, 'src>) -> IResult<'a, 'src, TS<'a, 'src>>,

    requires
        listed_from(item, seperator, end, cur, r, k),
        parses_expressions(item),
        tags_kind(seperator, TokenKind::Operator(Operator::Comma)),
        tags_kind(end, TokenKind::Operator(Operator::RightRoundBracket)),
    ensures
        continues(cur, r, k, spec_items(cur@)),
    decreases cur@.len(),
{
    if exists|e: Error<'a, 'src>| #[trigger] item_failed(item, cur, r, e) {
        let e = choose|e: Error<'a, 'src>| #[trigger] item_failed(item, cur, r, e);
        assert(agrees(cur, Err::<(TS, Expression), Error>(e), spec_expression(cur@)));
        lemma_round_failed(cur, r, k, e);
    } else {
        let (after_item, made, at, separated) = choose|
            after_item: TS<'a, 'src>,
            made: Expression<'src>,
            at: TS<'a, 'src>,
            separated: bool,
        |
            #![trigger
                call_ensures(item, (cur,), Ok::<(TS, Expression), Error>((after_item, made))),
                stepped(seperator, after_item, at, separated),
            ]
            item_taken(
                item,
                seperator,
                end,
                cur,
                r,
                k,
                after_item,
                made,
                at,
                separated,
                at@.len() < cur@.len() && listed_from(item, seperator, end, at, r, k + 1),
            );
        let next = at@.len() < cur@.len() && listed_from(item, seperator, end, at, r, k + 1);
        lemma_item_taken(item, seperator, end, cur, r, k, after_item, made, at, separated, next);
        if ends_at(end, at, r, k + 1) {
            lemma_round_ended(cur, r, k, after_item, made, at, separated);
        } else if separated {
            assert(at@.len() < cur@.len());
            lemma_items(item, seperator, end, at, r, k + 1);
            lemma_round_continued(cur, r, k, after_item, made, at);
        } else {
            lemma_round_stopped(cur, r, k, after_item, made, at);
        }
    }
}

/// An expression.
pub fn expression<'a, 'src>(input: TS<'a, 'src>) -> (r: IResult<'a, 'src, Expression<'src>>)
    ensures
        agrees(input, r, spec_expression(input@)),
    decreases input@.len(), 3int,
{
    proof {
        assert(input@.skip(0) == input@);
    }
    match literal(input) {
        Ok((rest, literal)) => {
            return Ok((rest, Expression::Literal(literal)));
        },
        Err(e) => {
            if e.committed {
                return Err(e);
            }
        },
    }
    match function_call(input) {
        Ok((rest, call)) => {
            return Ok((rest, Expression::FunctionCall(call)));
        },
        Err(e) => {
            if e.committed {
                return Err(e);
            }
        },
    }
    match identifier(input) {
        Ok((rest, identifier)) => {
            return Ok((rest, Expression::Variable(Variable { identifier })));
        },
        Err(_) => {},
    }
    Err(Error::new(input).with_context(Expectation::Expression))
}

/// A function call.
pub fn function_call<'a, 'src>(input: TS<'a, 'src>) -> (r: IResult<
    'a,
    'src,
    FunctionCall<'src>,
>)
    ensures
        agrees(input, r, spec_function_call(input@)),
    decreases input@.len(), 2int,
{
    let (rest, identifier) = match identifier(input) {
        Ok(found) => found,
        Err(e) => {
            return Err(e);
        },
    };
    proof {
        lemma_outcomes_within(rest@);
    }
    match function_call_inputs(rest) {
        Ok((rest, function_call_inputs)) => {
            assert(rest@ == input@.skip(spec_function_call(input@)->consumed as int));
            Ok((rest, FunctionCall { identifier, inputs: function_call_inputs }))
        },
        Err(e) => {
            assert(e.input@ == input@.skip(spec_function_call(input@)->at as int));
            Err(e)
        },
    }
}

/// The inputs of a function call.
pub fn function_call_inputs<'a, 'src>(input: TS<'a, 'src>) -> (r: IResult<
    'a,
    'src,
    Vec<Expression<'src>>,
>)
    ensures
        agrees_all(input, r, spec_function_call_inputs(input@)),
    decreases input@.len(), 1int,
{
    expressions_in_round_bracket_seperated_by_comma(input)
}

/// A list of expressions between round brackets, with a comma after each
/// but, at will, the last.
pub fn expressions_in_round_bracket_seperated_by_comma<'a, 'src>(input: TS<'a, 'src>) -> (r:
    IResult<'a, 'src, Vec<Expression<'src>>>)
    ensures
        agrees_all(input, r, spec_function_call_inputs(input@)),
    decreases input@.len(), 0int,
{
    let left_bracket = [TokenKind::Operator(Operator::LeftRoundBracket)];
    let right_bracket = [TokenKind::Operator(Operator::RightRoundBracket)];
    let comma = [TokenKind::Operator(Operator::Comma)];
    let ghost len = input@.len();
    let item = |at: TS<'a, 'src>| -> (made: IResult<'a, 'src, Expression<'src>>)
        requires
            at@.len() < len,
        ensures
            agrees(at, made, spec_expression(at@)),
        { expression(at) };
    let seperator = tag_tokens_kind(comma.as_slice());
    let begin = tag_tokens_kind(left_bracket.as_slice());
    let end = tag_tokens_kind(right_bracket.as_slice());
    proof {
        assert(comma@ == seq![TokenKind::Operator(Operator::Comma)]);
        assert(left_bracket@ == seq![TokenKind::Operator(Operator::LeftRoundBracket)]);
        assert(right_bracket@ == seq![TokenKind::Operator(Operator::RightRoundBracket)]);
        assert(tags_kind(seperator, TokenKind::Operator(Operator::Comma)));
        assert(tags_kind(begin, TokenKind::Operator(Operator::LeftRoundBracket)));
        assert(tags_kind(end, TokenKind::Operator(Operator::RightRoundBracket)));
        assert(parses_expressions(item));
        assert(listable(item, seperator, begin, end, input)) by {
            assert forall|first: TS<'a, 'src>, o: TS<'a, 'src>, at: TS<'a, 'src>|
                call_ensures(begin, (input,), Ok::<(TS, TS), Error>((first, o))) && at@.len()
                    <= first@.len() implies call_requires(item, (at,)) by {
                lemma_tags_kind(
                    begin,
                    TokenKind::Operator(Operator::LeftRoundBracket),
                    input,
                    Ok::<(TS, TS), Error>((first, o)),
                );
            }
        }
    }
    let parser = surround_seperated_items_allowed_trailing(item, seperator, begin, end);
    let r = parser(input);
    proof {
        lemma_listed(item, seperator, begin, end, input, r);
    }
    r
}

/// A list of expressions between round brackets, as the list parser makes
/// it, is the list that the rule for the inputs of a function call tells.
pub proof fn lemma_listed<'a, 'src: 'a, IP, SP, BP, EP>(
    item: IP,
    seperator: SP,
    begin: BP,
    end: EP,
    input: TS<'a, 'src>,
    r: IResult<'a, 'src, Vec<Expression<'src>>>,
) where
    IP: Fn(TS<'a, 'src>) -> IResult<'a, 'src, Expression<'src>>,
    SP: Fn(TS<'a, 'src>) -> IResult<'a, 'src, TS<'a, 'src>>,
    BP: Fn(TS<'a, 'src>) -> IResult<'a, 'src, TS<'a, 'src>>,
    EP: Fn(TS<'a, 'src>) -> IResult<'a, 'src, TS<'a, 'src>>,

    requires
        listed(item, seperator, begin, end, input, r),
        parses_expressions(item),
        tags_kind(seperator, TokenKind::Operator(Operator::Comma)),
        tags_kind(begin, TokenKind::Operator(Operator::LeftRoundBracket)),
        tags_kind(end, TokenKind::Operator(Operator::RightRoundBracket)),
    ensures
        agrees_all(input, r, spec_function_call_inputs(input@)),
{
    let open = TokenKind::Operator(Operator::LeftRoundBracket);
    let close = TokenKind::Operator(Operator::RightRoundBracket);
    assert(input@.skip(0) == input@);
    if exists|e: Error<'a, 'src>| #[trigger]
        call_ensures(begin, (input,), Err::<(TS, TS), Error>(e)) && r == Err::<
            (TS, Vec<Expression>),
            Error,
        >(e) {
        let e = choose|e: Error<'a, 'src>| #[trigger]
            call_ensures(begin, (input,), Err::<(TS, TS), Error>(e)) && r == Err::<
                (TS, Vec<Expression>),
                Error,
            >(e);
        lemma_tags_kind(begin, open, input, Err::<(TS, TS), Error>(e));
    } else {
        let (first, o) = choose|first: TS<'a, 'src>, o: TS<'a, 'src>|
            {
                &&& #[trigger] call_ensures(begin, (input,), Ok::<(TS, TS), Error>((first, o)))
                &&& {
                    ||| ends_at(end, first, r, 0)
                    ||| refuses(end, first) && listed_from(item, seperator, end, first, r, 0)
                }
            };
        lemma_tags_kind(begin, open, input, Ok::<(TS, TS), Error>((first, o)));
        if ends_at(end, first, r, 0) {
            let rest = r->Ok_0.0;
            let ended = choose|ended: TS<'a, 'src>| #[trigger]
                call_ensures(end, (first,), Ok::<(TS, TS), Error>((rest, ended)));
            lemma_tags_kind(end, close, first, Ok::<(TS, TS), Error>((rest, ended)));
            assert(rest@ == input@.skip(2));
            assert(expression_views(r->Ok_0.1@) == Seq::<ExpressionView>::empty());
        } else {
            let e = choose|e: Error<'a, 'src>| #[trigger]
                call_ensures(end, (first,), Err::<(TS, TS), Error>(e));
            lemma_tags_kind(end, close, first, Err::<(TS, TS), Error>(e));
            lemma_items(item, seperator, end, first, r, 0);
            lemma_outcomes_within(first@);
            let items = spec_items(first@);
            if items is Accept {
                let made = r->Ok_0.1@;
                lemma_expression_views(made);
                assert(r->Ok_0.0@ == input@.skip((items->consumed + 1) as int));
                assert(expression_views(made) =~= items->value) by {
                    assert forall|j: int| 0 <= j < made.len() implies expression_views(made)[j]
                        == items->value[j] by {
                        assert(made[0 + j]@ == items->value[j]);
                    }
                }
            } else {
                assert(r->Err_0.input@ == input@.skip((items->at + 1) as int));
            }
        }
    }
}

/// A source text is expressions, one after the other, up to the end of the
/// tokens. The first failure is the failure of the whole.
pub open spec fn spec_ast(input: Seq<Token>) -> Outcome<Seq<ExpressionView>>
    decreases input.len(),
{
    if input.len() == 0 {
        Outcome::Accept { consumed: 0, value: Seq::empty() }
    } else {
        let first = spec_expression(input);
        if first is Accept {
            if advances(first->consumed, input) {
                let more = spec_ast(input.skip(first->consumed as int)).shift(first->consumed);
                if more is Accept {
                    Outcome::Accept {
                        consumed: more->consumed,
                        value: seq![first->value] + more->value,
                    }
                } else {
                    more
                }
            } else {
                Outcome::Reject {
                    at: 0,
                    kind: kind_at(input),
                    expectation: Expectation::Progress,
                    committed: true,
                }
            }
        } else {
            rejected(first)
        }
    }
}

/// The outcome `outcome` of the expressions from the index `taken` on,
/// told of the whole of which the expressions `done` came before.
pub open spec fn after(
    done: Seq<ExpressionView>,
    taken: nat,
    outcome: Outcome<Seq<ExpressionView>>,
) -> Outcome<Seq<ExpressionView>> {
    match outcome {
        Outcome::Accept { consumed, value } => Outcome::Accept {
            consumed: taken + consumed,
            value: done + value,
        },
        Outcome::Reject { .. } => outcome.shift(taken),
    }
}

/// Behind an expression that the rule for expressions accepts, the
/// outcome of a source is the outcome of what is left of it, told of the
/// whole.
pub proof fn lemma_source_goes_on(done: Seq<ExpressionView>, taken: nat, rest: Seq<Token>)
    requires
        spec_expression(rest) is Accept,
    ensures
        after(done, taken, spec_ast(rest)) == after(
            done.push(spec_expression(rest)->value),
            taken + spec_expression(rest)->consumed,
            spec_ast(rest.skip(spec_expression(rest)->consumed as int)),
        ),
{
    let first = spec_expression(rest);
    lemma_outcomes_within(rest);
    let more = spec_ast(rest.skip(first->consumed as int));
    if more is Accept {
        assert(done + (seq![first->value] + more->value) == done.push(first->value)
            + more->value);
    }
}

/// The syntax tree of a whole sequence of tokens.
pub fn ast<'a, 'src>(input: TS<'a, 'src>) -> (r: IResult<'a, 'src, Ast<'src>>)
    ensures
        agrees(input, r, spec_ast(input@)),
{
    let mut expressions: Vec<Expression<'src>> = Vec::new();
    let mut rest = input;
    let ghost mut taken: nat = 0;
    proof {
        assert(input@.skip(0) == input@);
        assert(after(Seq::empty(), 0, spec_ast(input@)) == spec_ast(input@)) by {
            if spec_ast(input@) is Accept {
                assert(Seq::<ExpressionView>::empty() + spec_ast(input@)->value == spec_ast(
                    input@,
                )->value);
            }
        }
    }
    while rest.len() > 0
        invariant
            taken <= input@.len(),
            rest@ == input@.skip(taken as int),
            spec_ast(input@) == after(expression_views(expressions@), taken, spec_ast(rest@)),
        decreases rest@.len(),
    {
        let ghost before = expressions@;
        let ghost start = rest;
        proof {
            lemma_outcomes_within(rest@);
        }
        match expression(rest) {
            Ok((left, made)) => {
                expressions.push(made);
                proof {
                    let consumed = spec_expression(start@)->consumed;
                    lemma_expression_views_push(before, made);
                    lemma_source_goes_on(expression_views(before), taken, start@);
                    assert(left@ == input@.skip((taken + consumed) as int));
                    taken = taken + consumed;
                }
                rest = left;
            },
            Err(e) => {
                proof {
                    assert(e.input@ == input@.skip((taken + spec_expression(start@)->at) as int));
                }
                return Err(e);
            },
        }
    }
    let ghost made = expressions@;
    let r: IResult<'a, 'src, Ast<'src>> = Ok((rest, Ast { expressions }));
    proof {
        assert(rest@.skip(0) == rest@);
        assert(r matches Ok((left, ast)) && left == rest && ast.expressions@ == made);
        assert(expression_views(made) + Seq::<ExpressionView>::empty() == expression_views(made));
    }
    r
}

} // verus!
