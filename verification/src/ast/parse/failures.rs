//! Where parsing fails, and of what kind the failure is.

use super::commas::{lemma_expression_local, same_start};
use super::{
    behind_item, first_is, lemma_items_accepted, lemma_outcomes_within, rejected, spec_ast,
    spec_expression, spec_function_call, spec_function_call_inputs, spec_identifier, spec_items,
    spec_literal, Outcome,
};
use crate::ast::{kind_at, ErrorKind, Expectation, ExpressionView, FunctionCallView};
use crate::lexer::{Operator, Token, TokenKind};
use vstd::prelude::*;

verus! {

/// Whether none of the first `n` tokens is invalid.
pub open spec fn all_valid(input: Seq<Token>, n: nat) -> bool {
    forall|i: int| 0 <= i < n && i < input.len() ==> !((#[trigger] input[i]).kind is Invalid)
}

/// Tokens without an invalid one among them, behind tokens without an
/// invalid one among them.
pub proof fn lemma_all_valid_behind(input: Seq<Token>, by: nat, n: nat)
    requires
        by <= input.len(),
        all_valid(input, by),
        all_valid(input.skip(by as int), n),
    ensures
        all_valid(input, by + n),
{
    assert forall|i: int| 0 <= i < by + n && i < input.len() implies !((
    #[trigger] input[i]).kind is Invalid) by {
        if i >= by {
            assert(input.skip(by as int)[i - by] == input[i]);
        }
    }
}

/// An expression is made of valid tokens only.
pub proof fn lemma_expression_valid(input: Seq<Token>)
    requires
        spec_expression(input) is Accept,
    ensures
        all_valid(input, spec_expression(input)->consumed),
    decreases input.len(), 3int,
{
    if spec_literal(input) is Accept {
    } else if spec_function_call(input) is Accept {
        lemma_function_call_valid(input);
    } else {
        assert(spec_identifier(input) is Accept);
    }
}

/// A function call is made of valid tokens only.
pub proof fn lemma_function_call_valid(input: Seq<Token>)
    requires
        spec_function_call(input) is Accept,
    ensures
        all_valid(input, spec_function_call(input)->consumed),
    decreases input.len(), 2int,
{
    let tail = input.skip(1);
    lemma_inputs_valid(tail);
    lemma_all_valid_behind(input, 1, spec_function_call_inputs(tail)->consumed);
}

/// The inputs of a function call, brackets and commas and all, are valid
/// tokens only.
pub proof fn lemma_inputs_valid(input: Seq<Token>)
    requires
        spec_function_call_inputs(input) is Accept,
    ensures
        all_valid(input, spec_function_call_inputs(input)->consumed),
    decreases input.len(), 1int,
{
    let tail = input.skip(1);
    if first_is(tail, TokenKind::Operator(Operator::RightRoundBracket)) {
        assert(tail[0] == input[1]);
    } else {
        lemma_items_valid(tail);
        lemma_all_valid_behind(input, 1, spec_items(tail)->consumed);
    }
}

/// The items of a list, up to the closing bracket, are valid tokens only.
pub proof fn lemma_items_valid(input: Seq<Token>)
    requires
        spec_items(input) is Accept,
    ensures
        all_valid(input, spec_items(input)->consumed),
    decreases input.len(), 4int,
{
    let consumed = spec_expression(input)->consumed;
    let separated = first_is(
        input.skip(consumed as int),
        TokenKind::Operator(Operator::Comma),
    );
    let at = if separated {
        consumed + 1
    } else {
        consumed
    };
    lemma_outcomes_within(input);
    lemma_expression_valid(input);
    assert(input.skip(consumed as int)[0] == input[consumed as int]);
    assert(input.skip(at as int)[0] == input[at as int]);
    assert(all_valid(input, at));
    if first_is(input.skip(at as int), TokenKind::Operator(Operator::RightRoundBracket)) {
        assert(all_valid(input, at + 1));
    } else {
        lemma_items_valid(input.skip(at as int));
        lemma_all_valid_behind(input, at, spec_items(input.skip(at as int))->consumed);
    }
}

/// A source that has a syntax tree is valid tokens only, and all of them
/// are taken: a source with an invalid token in it has no syntax tree.
pub proof fn lemma_invalid_token_fails(input: Seq<Token>)
    requires
        spec_ast(input) is Accept,
    ensures
        spec_ast(input)->consumed == input.len(),
        all_valid(input, input.len()),
    decreases input.len(),
{
    if input.len() > 0 {
        let first = spec_expression(input);
        lemma_outcomes_within(input);
        lemma_expression_valid(input);
        let behind = input.skip(first->consumed as int);
        lemma_invalid_token_fails(behind);
        lemma_all_valid_behind(input, first->consumed, behind.len());
    }
}

/// Whether a failure of the kind `kind` at the index `at` of `input` is of
/// the kind that belongs to its place: a failed conversion, or else lexical
/// exactly where an invalid token stands at that place.
pub open spec fn kind_fits(input: Seq<Token>, at: nat, kind: ErrorKind) -> bool {
    at <= input.len() && (kind == ErrorKind::NumericConversion || kind == kind_at(
        input.skip(at as int),
    ))
}

/// A failure that fits its place in the tokens behind the first `by` of
/// `input` fits its place in `input`.
pub proof fn lemma_kind_fits_behind(input: Seq<Token>, by: nat, at: nat, kind: ErrorKind)
    requires
        by <= input.len(),
        kind_fits(input.skip(by as int), at, kind),
    ensures
        kind_fits(input, at + by, kind),
{
    assert(input.skip(by as int).skip(at as int) == input.skip((at + by) as int));
}

/// A failure of the rule for expressions is of the kind that belongs to
/// its place.
pub proof fn lemma_expression_failure(input: Seq<Token>)
    requires
        spec_expression(input) is Reject,
    ensures
        kind_fits(input, spec_expression(input)->at, spec_expression(input)->kind),
    decreases input.len(), 3int,
{
    assert(input.skip(0) == input);
    if !spec_literal(input).passes() {
    } else if spec_function_call(input) is Reject && !spec_function_call(input).passes() {
        lemma_function_call_failure(input);
    }
}

/// A failure of the rule for function calls is of the kind that belongs to
/// its place.
pub proof fn lemma_function_call_failure(input: Seq<Token>)
    requires
        spec_function_call(input) is Reject,
    ensures
        kind_fits(input, spec_function_call(input)->at, spec_function_call(input)->kind),
    decreases input.len(), 2int,
{
    assert(input.skip(0) == input);
    if spec_identifier(input) is Accept {
        let tail = input.skip(1);
        lemma_inputs_failure(tail);
        lemma_kind_fits_behind(
            input,
            1,
            spec_function_call_inputs(tail)->at,
            spec_function_call_inputs(tail)->kind,
        );
    }
}

/// A failure of the rule for the inputs of a function call is of the kind
/// that belongs to its place.
pub proof fn lemma_inputs_failure(input: Seq<Token>)
    requires
        spec_function_call_inputs(input) is Reject,
    ensures
        kind_fits(
            input,
            spec_function_call_inputs(input)->at,
            spec_function_call_inputs(input)->kind,
        ),
    decreases input.len(), 1int,
{
    assert(input.skip(0) == input);
    if first_is(input, TokenKind::Operator(Operator::LeftRoundBracket)) {
        let tail = input.skip(1);
        lemma_items_failure(tail);
        lemma_kind_fits_behind(input, 1, spec_items(tail)->at, spec_items(tail)->kind);
    }
}

/// A failure of the rule for the items of a list is of the kind that
/// belongs to its place.
pub proof fn lemma_items_failure(input: Seq<Token>)
    requires
        spec_items(input) is Reject,
    ensures
        kind_fits(input, spec_items(input)->at, spec_items(input)->kind),
    decreases input.len(), 4int,
{
    assert(input.skip(0) == input);
    lemma_outcomes_within(input);
    let item = spec_expression(input);
    if item is Reject {
        lemma_expression_failure(input);
    } else {
        let consumed = item->consumed;
        if first_is(input.skip(consumed as int), TokenKind::Operator(Operator::Comma)) {
            let behind = input.skip(consumed + 1 as int);
            lemma_items_failure(behind);
            lemma_kind_fits_behind(
                input,
                consumed + 1,
                spec_items(behind)->at,
                spec_items(behind)->kind,
            );
        }
    }
}

/// The failure of a whole source is of the kind that belongs to its place:
/// a failed conversion, or else lexical exactly where an invalid token
/// stands at the place of the failure.
pub proof fn lemma_source_failure(input: Seq<Token>)
    requires
        spec_ast(input) is Reject,
    ensures
        kind_fits(input, spec_ast(input)->at, spec_ast(input)->kind),
    decreases input.len(),
{
    assert(input.skip(0) == input);
    if input.len() > 0 {
        let first = spec_expression(input);
        lemma_outcomes_within(input);
        if first is Reject {
            lemma_expression_failure(input);
        } else {
            let behind = input.skip(first->consumed as int);
            lemma_source_failure(behind);
            lemma_kind_fits_behind(
                input,
                first->consumed,
                spec_ast(behind)->at,
                spec_ast(behind)->kind,
            );
        }
    }
}

/// Where no token is left, an item of a list is missing.
pub proof fn lemma_items_of_nothing(s: Seq<Token>)
    requires
        s.len() == 0,
    ensures
        spec_items(s) == (Outcome::<Seq<ExpressionView>>::Reject {
            at: 0,
            kind: ErrorKind::Grammar,
            expectation: Expectation::Expression,
            committed: true,
        }),
{
    assert(spec_function_call(s) is Reject);
    assert(spec_expression(s) is Reject);
}

/// A list that lacks nothing but its closing bracket fails at the end of
/// the tokens: where the items of a list, with a closing bracket behind the
/// last token, are a list that takes every token, the same tokens without
/// that bracket fail behind the last of them, committed, and no token is to
/// blame for it.
pub proof fn lemma_unterminated_items<'src>(s: Seq<Token<'src>>, close: Token<'src>)
    requires
        close.kind == TokenKind::Operator(Operator::RightRoundBracket),
        spec_items(s.push(close)) is Accept,
        spec_items(s.push(close))->consumed == s.len() + 1,
    ensures
        spec_items(s) is Reject,
        spec_items(s)->at == s.len(),
        spec_items(s)->kind == ErrorKind::Grammar,
        spec_items(s)->committed,
    decreases s.len(),
{
    let t = s.push(close);
    let consumed = spec_expression(t)->consumed;
    let at = behind_item(t, consumed);
    lemma_items_accepted(t);
    assert(same_start(t, s, consumed)) by {
        assert(t.take(consumed as int) =~= s.take(consumed as int));
    }
    if consumed < s.len() {
        assert(s.skip(consumed as int)[0] == t[consumed as int]);
        assert(t.skip(consumed as int)[0] == t[consumed as int]);
    }
    lemma_expression_local(t, s);
    assert(behind_item(s, consumed) == at);
    assert(s.skip(s.len() as int) == Seq::<Token>::empty());
    if t[at as int].kind == TokenKind::Operator(Operator::RightRoundBracket) {
        // the bracket that is lacking is the one that would end the list
        assert(at == s.len());
        lemma_items_of_nothing(s.skip(at as int));
    } else {
        let behind = s.skip(at as int);
        assert(s.skip(at as int)[0] == t[at as int]);
        assert(t.skip(at as int) == behind.push(close));
        lemma_unterminated_items(behind, close);
    }
}

/// A function call that lacks nothing but its closing bracket fails at the
/// end of the tokens, committed, with a failure of the grammar; and so does
/// the expression that the call would be.
pub proof fn lemma_unterminated_call<'src>(s: Seq<Token<'src>>, close: Token<'src>)
    requires
        close.kind == TokenKind::Operator(Operator::RightRoundBracket),
        spec_function_call(s.push(close)) is Accept,
        spec_function_call(s.push(close))->consumed == s.len() + 1,
    ensures
        spec_function_call(s) is Reject,
        spec_function_call(s)->at == s.len(),
        spec_function_call(s)->kind == ErrorKind::Grammar,
        spec_function_call(s)->committed,
        spec_expression(s) == rejected::<FunctionCallView, ExpressionView>(spec_function_call(s)),
{
    let t = s.push(close);
    lemma_outcomes_within(t);
    lemma_outcomes_within(t.skip(1));
    assert(t[0] == s[0]);
    assert(t.skip(1)[0] == t[1]);
    assert(s.skip(1)[0] == s[1]);
    assert(t.skip(1) == s.skip(1).push(close));
    assert(s.skip(s.len() as int) == Seq::<Token>::empty());
    if s.len() == 2 {
        lemma_items_of_nothing(s.skip(1).skip(1));
    } else {
        assert(t.skip(1).skip(1)[0] == t[2]);
        assert(s.skip(1).skip(1)[0] == s[2]);
        assert(t.skip(1).skip(1) == s.skip(1).skip(1).push(close));
        if t[2].kind == TokenKind::Operator(Operator::RightRoundBracket) {
            // `f()` and more tokens behind it: not all tokens would be taken
        } else {
            lemma_unterminated_items(s.skip(1).skip(1), close);
        }
    }
}

} // verus!
