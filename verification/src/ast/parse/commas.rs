//! What commas do to a list of inputs, and what they do not.

use super::{
    advances, behind_item, first_is, lemma_items_accepted, lemma_items_made,
    lemma_outcomes_within, spec_expression, spec_function_call, spec_function_call_inputs,
    spec_identifier, spec_items, spec_literal, Outcome,
};
use crate::ast::{ErrorKind, Expectation, ExpressionView};
use crate::lexer::{Operator, Token, TokenKind};
use vstd::prelude::*;

verus! {

/// The sequences `s` and `t` begin with the same `n` tokens.
pub open spec fn same_start(s: Seq<Token>, t: Seq<Token>, n: nat) -> bool {
    n <= s.len() && n <= t.len() && s.take(n as int) == t.take(n as int)
}

/// Two sequences that begin with the same tokens still do so behind some of
/// them.
pub proof fn lemma_same_start_behind(s: Seq<Token>, t: Seq<Token>, n: nat, by: nat)
    requires
        same_start(s, t, n),
        by <= n,
    ensures
        same_start(s.skip(by as int), t.skip(by as int), (n - by) as nat),
        forall|i: int| 0 <= i < n ==> s[i] == t[i],
{
    assert forall|i: int| 0 <= i < n implies s[i] == t[i] by {
        assert(s.take(n as int)[i] == t.take(n as int)[i]);
    }
    assert(s.skip(by as int).take(n - by) =~= t.skip(by as int).take(n - by));
}

/// A list that is looked for item by item fails committed, if it fails.
pub proof fn lemma_items_commit(s: Seq<Token>)
    ensures
        spec_items(s) matches Outcome::Reject { committed, .. } ==> committed,
    decreases s.len(),
{
    let item = spec_expression(s);
    if item is Accept && advances(item->consumed, s) {
        if first_is(s.skip(item->consumed as int), TokenKind::Operator(Operator::Comma)) {
            lemma_items_commit(s.skip(item->consumed + 1 as int));
        }
    }
}

/// What the rule for expressions makes of tokens depends on the tokens that
/// it takes and, for a variable, on whether an opening bracket follows.
pub proof fn lemma_expression_local(s: Seq<Token>, t: Seq<Token>)
    requires
        spec_expression(s) is Accept,
        same_start(s, t, spec_expression(s)->consumed),
        spec_expression(s)->value is Variable ==> !first_is(
            t.skip(spec_expression(s)->consumed as int),
            TokenKind::Operator(Operator::LeftRoundBracket),
        ),
    ensures
        spec_expression(t) == spec_expression(s),
    decreases s.len(), 3int,
{
    let consumed = spec_expression(s)->consumed;
    lemma_outcomes_within(s);
    lemma_same_start_behind(s, t, consumed, 0);
    assert(s[0] == t[0]);
    assert(spec_literal(s) == spec_literal(t));
    assert(spec_identifier(s) == spec_identifier(t));
    if spec_literal(s) is Accept {
    } else if spec_function_call(s) is Accept {
        lemma_function_call_local(s, t);
    } else {
        // a variable: no list of inputs follows the identifier
        lemma_items_commit(s.skip(1).skip(1));
        lemma_items_commit(t.skip(1).skip(1));
        assert(t.skip(consumed as int) == t.skip(1));
    }
}

/// What the rule for function calls makes of tokens depends on the tokens
/// that it takes.
pub proof fn lemma_function_call_local(s: Seq<Token>, t: Seq<Token>)
    requires
        spec_function_call(s) is Accept,
        same_start(s, t, spec_function_call(s)->consumed),
    ensures
        spec_function_call(t) == spec_function_call(s),
    decreases s.len(), 2int,
{
    let consumed = spec_function_call(s)->consumed;
    lemma_outcomes_within(s);
    lemma_outcomes_within(s.skip(1));
    lemma_same_start_behind(s, t, consumed, 1);
    assert(s[0] == t[0]);
    lemma_inputs_local(s.skip(1), t.skip(1));
}

/// What the rule for the inputs of a function call makes of tokens depends
/// on the tokens that it takes.
pub proof fn lemma_inputs_local(s: Seq<Token>, t: Seq<Token>)
    requires
        spec_function_call_inputs(s) is Accept,
        same_start(s, t, spec_function_call_inputs(s)->consumed),
    ensures
        spec_function_call_inputs(t) == spec_function_call_inputs(s),
    decreases s.len(), 1int,
{
    let consumed = spec_function_call_inputs(s)->consumed;
    lemma_outcomes_within(s);
    lemma_outcomes_within(s.skip(1));
    lemma_same_start_behind(s, t, consumed, 1);
    assert(s[0] == t[0]);
    assert(s[1] == t[1]);
    assert(s.skip(1)[0] == s[1]);
    assert(t.skip(1)[0] == t[1]);
    if !first_is(s.skip(1), TokenKind::Operator(Operator::RightRoundBracket)) {
        lemma_items_local(s.skip(1), t.skip(1));
    }
}

/// What the rule for the items of a list makes of tokens depends on the
/// tokens that it takes.
pub proof fn lemma_items_local(s: Seq<Token>, t: Seq<Token>)
    requires
        spec_items(s) is Accept,
        same_start(s, t, spec_items(s)->consumed),
    ensures
        spec_items(t) == spec_items(s),
    decreases s.len(), 4int,
{
    let all = spec_items(s)->consumed;
    let consumed = spec_expression(s)->consumed;
    let comma = TokenKind::Operator(Operator::Comma);
    let separated = first_is(s.skip(consumed as int), comma);
    let at = if separated {
        consumed + 1
    } else {
        consumed
    };
    lemma_outcomes_within(s);
    lemma_outcomes_within(s.skip(at as int));
    lemma_same_start_behind(s, t, all, consumed);
    lemma_same_start_behind(s, t, all, at);
    assert(s.skip(consumed as int)[0] == s[consumed as int]);
    assert(t.skip(consumed as int)[0] == t[consumed as int]);
    assert(s.skip(at as int)[0] == s[at as int]);
    assert(t.skip(at as int)[0] == t[at as int]);
    assert(same_start(s, t, consumed)) by {
        assert(s.take(consumed as int) =~= s.take(all as int).take(consumed as int));
        assert(t.take(consumed as int) =~= t.take(all as int).take(consumed as int));
    }
    lemma_expression_local(s, t);
    if !first_is(s.skip(at as int), TokenKind::Operator(Operator::RightRoundBracket)) {
        lemma_items_local(s.skip(at as int), t.skip(at as int));
    }
}

/// The sequence `s` with `token` put in before the index `at`.
pub open spec fn with_token<'src>(s: Seq<Token<'src>>, at: nat, token: Token<'src>) -> Seq<
    Token<'src>,
> {
    s.take(at as int) + seq![token] + s.skip(at as int)
}

/// Where the tokens of a sequence stand after a token was put in.
pub proof fn lemma_with_token<'src>(s: Seq<Token<'src>>, at: nat, token: Token<'src>)
    requires
        at <= s.len(),
    ensures
        with_token(s, at, token).len() == s.len() + 1,
        same_start(s, with_token(s, at, token), at),
        with_token(s, at, token)[at as int] == token,
        forall|i: int| 0 <= i < at ==> #[trigger] with_token(s, at, token)[i] == s[i],
        forall|i: int| at < i <= s.len() ==> #[trigger] with_token(s, at, token)[i] == s[i - 1],
        forall|by: nat|
            by <= at ==> #[trigger] with_token(s, at, token).skip(by as int) == with_token(
                s.skip(by as int),
                (at - by) as nat,
                token,
            ),
{
    let t = with_token(s, at, token);
    assert(s.take(at as int) =~= t.take(at as int));
    assert forall|by: nat| by <= at implies #[trigger] t.skip(by as int) == with_token(
        s.skip(by as int),
        (at - by) as nat,
        token,
    ) by {
        assert(t.skip(by as int) =~= with_token(s.skip(by as int), (at - by) as nat, token));
    }
}

/// A comma put in before the bracket that closes a list of items, behind an
/// item, leaves the list as it is.
pub proof fn lemma_items_trailing_comma<'src>(s: Seq<Token<'src>>, comma: Token<'src>)
    requires
        spec_items(s) is Accept,
        comma.kind == TokenKind::Operator(Operator::Comma),
        s[spec_items(s)->consumed - 2].kind != TokenKind::Operator(Operator::Comma),
    ensures
        spec_items(s)->consumed >= 2,
        spec_items(with_token(s, (spec_items(s)->consumed - 1) as nat, comma)) == (
        Outcome::Accept { consumed: spec_items(s)->consumed + 1, value: spec_items(s)->value }),
    decreases s.len(),
{
    let all = spec_items(s)->consumed;
    let consumed = spec_expression(s)->consumed;
    let at = behind_item(s, consumed);
    let t = with_token(s, (all - 1) as nat, comma);
    lemma_items_accepted(s);
    lemma_with_token(s, (all - 1) as nat, comma);
    assert(s.skip(consumed as int)[0] == s[consumed as int]);
    assert(t.skip(consumed as int)[0] == t[consumed as int]);
    assert(same_start(s, t, consumed)) by {
        assert(s.take(consumed as int) =~= s.take(all - 1).take(consumed as int));
        assert(t.take(consumed as int) =~= t.take(all - 1).take(consumed as int));
    }
    lemma_expression_local(s, t);
    if s[at as int].kind == TokenKind::Operator(Operator::RightRoundBracket) {
        // the last item: the comma comes to stand behind it
        assert(at == consumed);
        assert(behind_item(t, consumed) == consumed + 1);
        lemma_items_made(t);
    } else {
        let behind = s.skip(at as int);
        let more = spec_items(behind)->consumed;
        assert(behind[more - 2] == s[all - 2]);
        lemma_items_trailing_comma(behind, comma);
        assert(t.skip(at as int) == with_token(behind, (more - 1) as nat, comma));
        assert(behind_item(t, consumed) == at);
        lemma_items_made(t);
    }
}

/// A comma before the closing bracket of a function call that has inputs
/// and no such comma yet changes nothing: the call with the trailing comma
/// is the same call, of the same inputs.
pub proof fn lemma_trailing_comma<'src>(s: Seq<Token<'src>>, comma: Token<'src>)
    requires
        spec_function_call(s) is Accept,
        spec_function_call(s)->value.inputs.len() > 0,
        comma.kind == TokenKind::Operator(Operator::Comma),
        s[spec_function_call(s)->consumed - 2].kind != TokenKind::Operator(Operator::Comma),
    ensures
        spec_function_call(s)->consumed >= 4,
        spec_function_call(with_token(s, (spec_function_call(s)->consumed - 1) as nat, comma))
            == (Outcome::Accept {
            consumed: spec_function_call(s)->consumed + 1,
            value: spec_function_call(s)->value,
        }),
{
    let all = spec_function_call(s)->consumed;
    let t = with_token(s, (all - 1) as nat, comma);
    let items = s.skip(1).skip(1);
    lemma_outcomes_within(s);
    lemma_outcomes_within(s.skip(1));
    lemma_outcomes_within(items);
    assert(s.skip(1)[0] == s[1]);
    assert(items[0] == s[2]);
    assert(items[all - 4] == s[all - 2]);
    lemma_items_trailing_comma(items, comma);
    lemma_with_token(s, (all - 1) as nat, comma);
    lemma_with_token(s.skip(1), (all - 2) as nat, comma);
    assert(t.skip(1) == with_token(s.skip(1), (all - 2) as nat, comma));
    assert(t.skip(1).skip(1) == with_token(items, (all - 3) as nat, comma));
    assert(t.skip(1)[0] == t[1]);
    assert(t.skip(1).skip(1)[0] == t[2]);
}

/// A comma is no expression, and no item of a list begins with one.
pub proof fn lemma_comma_is_no_item(s: Seq<Token>)
    requires
        first_is(s, TokenKind::Operator(Operator::Comma)),
    ensures
        spec_expression(s) == (Outcome::<ExpressionView>::Reject {
            at: 0,
            kind: ErrorKind::Grammar,
            expectation: Expectation::Expression,
            committed: false,
        }),
        spec_items(s) == (Outcome::<Seq<ExpressionView>>::Reject {
            at: 0,
            kind: ErrorKind::Grammar,
            expectation: Expectation::Expression,
            committed: true,
        }),
{
}

/// A list of inputs that begins with a comma fails at the comma.
pub proof fn lemma_comma_first(s: Seq<Token>)
    requires
        first_is(s, TokenKind::Operator(Operator::LeftRoundBracket)),
        first_is(s.skip(1), TokenKind::Operator(Operator::Comma)),
    ensures
        spec_function_call_inputs(s) == (Outcome::<Seq<ExpressionView>>::Reject {
            at: 1,
            kind: ErrorKind::Grammar,
            expectation: Expectation::Expression,
            committed: true,
        }),
{
    lemma_comma_is_no_item(s.skip(1));
}

/// Two commas behind an item fail the list at the second of them.
pub proof fn lemma_comma_after_comma(s: Seq<Token>)
    requires
        spec_expression(s) is Accept,
        first_is(
            s.skip(spec_expression(s)->consumed as int),
            TokenKind::Operator(Operator::Comma),
        ),
        first_is(
            s.skip(spec_expression(s)->consumed + 1 as int),
            TokenKind::Operator(Operator::Comma),
        ),
    ensures
        spec_items(s) == (Outcome::<Seq<ExpressionView>>::Reject {
            at: spec_expression(s)->consumed + 1,
            kind: ErrorKind::Grammar,
            expectation: Expectation::Expression,
            committed: true,
        }),
{
    lemma_outcomes_within(s);
    lemma_comma_is_no_item(s.skip(spec_expression(s)->consumed + 1 as int));
}

} // verus!
