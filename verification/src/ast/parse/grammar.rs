//! The grammar as a relation between tokens and expressions, and the proof
//! that the rules accept exactly what the grammar spells.

use super::commas::lemma_items_commit;
use super::{
    behind_item, first_is, lemma_items_accepted, lemma_items_made, lemma_outcomes_within,
    spec_expression, spec_function_call, spec_identifier, spec_items, spec_literal, Outcome,
};
use crate::ast::{ExpressionView, FunctionCallView, LiteralView};
use crate::lexer::parse::is_float_text;
use crate::lexer::text::spec_parse_u64;
use crate::lexer::{Literal, Operator, Token, TokenKind};
use vstd::prelude::*;

verus! {

/// Whether the tokens `ts`, all of them, spell the expression `e`.
///
/// A whole literal is spelled by one token of digits that spell its number,
/// a float literal by one float token of its text, a variable by one
/// identifier token of its name. A function call is spelled by an
/// identifier token of its name, an opening bracket, the spelling of its
/// inputs and a closing bracket.
pub open spec fn spells(ts: Seq<Token>, e: ExpressionView) -> bool
    decreases e, 0int,
{
    match e {
        ExpressionView::Literal(LiteralView::Whole(n)) => {
            &&& ts.len() == 1
            &&& ts[0].kind == TokenKind::Literal(Literal::Digits)
            &&& spec_parse_u64(ts[0].fragment@) == Some(n)
        },
        ExpressionView::Literal(LiteralView::Float(text)) => {
            &&& ts.len() == 1
            &&& ts[0].kind == TokenKind::Literal(Literal::Float)
            &&& ts[0].fragment@ == text
            &&& is_float_text(text)
        },
        ExpressionView::Variable(name) => {
            &&& ts.len() == 1
            &&& ts[0].kind == TokenKind::Identifier
            &&& ts[0].fragment@ == name
        },
        ExpressionView::FunctionCall(call) => {
            &&& ts.len() >= 3
            &&& ts[0].kind == TokenKind::Identifier
            &&& ts[0].fragment@ == call.identifier
            &&& ts[1].kind == TokenKind::Operator(Operator::LeftRoundBracket)
            &&& ts[ts.len() - 1].kind == TokenKind::Operator(Operator::RightRoundBracket)
            &&& if call.inputs.len() == 0 {
                ts.len() == 3
            } else {
                spell_items(ts.subrange(2, ts.len() - 1), call.inputs)
            }
        },
    }
}

/// Whether the tokens `ts`, all of them, spell the expressions `items`, of
/// which there is at least one: the spelling of each expression with a
/// comma behind it, which the last expression may do without.
pub open spec fn spell_items(ts: Seq<Token>, items: Seq<ExpressionView>) -> bool
    decreases items, 1int,
{
    items.len() > 0 && exists|k: nat|
        #![trigger ts.take(k as int)]
        {
            &&& 0 < k <= ts.len()
            &&& spells(ts.take(k as int), items[0])
            &&& if items.len() == 1 {
                ts.len() == k || (ts.len() == k + 1 && ts[k as int].kind == TokenKind::Operator(
                    Operator::Comma,
                ))
            } else {
                &&& k < ts.len()
                &&& ts[k as int].kind == TokenKind::Operator(Operator::Comma)
                &&& spell_items(ts.skip(k + 1 as int), items.drop_first())
            }
        }
}

/// The spelling of an expression begins with a literal or with an
/// identifier.
pub proof fn lemma_spelling_begins(ts: Seq<Token>, e: ExpressionView)
    requires
        spells(ts, e),
    ensures
        ts.len() > 0,
        ts[0].kind is Literal || ts[0].kind is Identifier,
{
}

/// What the rule for expressions accepts is spelled by the tokens that it
/// takes; and behind a variable stands no opening bracket.
pub proof fn lemma_expression_is_spelled(s: Seq<Token>)
    requires
        spec_expression(s) is Accept,
    ensures
        spec_expression(s)->consumed <= s.len(),
        spells(s.take(spec_expression(s)->consumed as int), spec_expression(s)->value),
        spec_expression(s)->value is Variable ==> !first_is(
            s.skip(spec_expression(s)->consumed as int),
            TokenKind::Operator(Operator::LeftRoundBracket),
        ),
    decreases s.len(), 3int,
{
    let consumed = spec_expression(s)->consumed;
    let ts = s.take(consumed as int);
    lemma_outcomes_within(s);
    assert(ts[0] == s[0]);
    if spec_literal(s) is Accept {
    } else if spec_function_call(s) is Accept {
        lemma_function_call_is_spelled(s);
    } else {
        assert(spec_identifier(s) is Accept);
        assert(s.skip(consumed as int) == s.skip(1));
        lemma_items_commit(s.skip(1).skip(1));
    }
}

/// What the rule for function calls accepts is spelled by the tokens that
/// it takes.
pub proof fn lemma_function_call_is_spelled(s: Seq<Token>)
    requires
        spec_function_call(s) is Accept,
    ensures
        spec_function_call(s)->consumed <= s.len(),
        spells(
            s.take(spec_function_call(s)->consumed as int),
            ExpressionView::FunctionCall(spec_function_call(s)->value),
        ),
    decreases s.len(), 2int,
{
    let consumed = spec_function_call(s)->consumed;
    let call = spec_function_call(s)->value;
    let ts = s.take(consumed as int);
    let tail = s.skip(1);
    lemma_outcomes_within(s);
    lemma_outcomes_within(tail);
    assert(ts[0] == s[0]);
    assert(tail[0] == s[1]);
    assert(ts[1] == s[1]);
    if first_is(tail.skip(1), TokenKind::Operator(Operator::RightRoundBracket)) {
        assert(tail.skip(1)[0] == s[2]);
        assert(ts[2] == s[2]);
    } else {
        let items = tail.skip(1);
        lemma_items_are_spelled(items);
        let taken = spec_items(items)->consumed;
        assert(consumed == taken + 2);
        assert(ts[consumed - 1] == items[taken - 1]);
        assert(ts.subrange(2, consumed - 1) == items.take(taken - 1));
    }
}

/// What the rule for the items of a list accepts is spelled by the tokens
/// that it takes, the closing bracket apart.
pub proof fn lemma_items_are_spelled(s: Seq<Token>)
    requires
        spec_items(s) is Accept,
    ensures
        0 < spec_items(s)->consumed <= s.len(),
        s[spec_items(s)->consumed - 1].kind == TokenKind::Operator(Operator::RightRoundBracket),
        spell_items(s.take(spec_items(s)->consumed - 1), spec_items(s)->value),
    decreases s.len(), 4int,
{
    let all = spec_items(s)->consumed;
    let items = spec_items(s)->value;
    let consumed = spec_expression(s)->consumed;
    let at = behind_item(s, consumed);
    let ts = s.take(all - 1);
    lemma_items_accepted(s);
    lemma_expression_is_spelled(s);
    assert(s.skip(consumed as int)[0] == s[consumed as int]);
    assert(ts.take(consumed as int) == s.take(consumed as int));
    if s[at as int].kind == TokenKind::Operator(Operator::RightRoundBracket) {
        assert(items.len() == 1);
        if at > consumed {
            assert(ts[consumed as int] == s[consumed as int]);
        }
    } else {
        let behind = s.skip(at as int);
        let more = spec_items(behind);
        lemma_items_are_spelled(behind);
        assert(behind[more->consumed - 1] == s[all - 1]);
        assert(ts[consumed as int] == s[consumed as int]);
        assert(ts.skip(consumed + 1 as int) == behind.take(more->consumed - 1));
        assert(items.drop_first() == more->value);
        assert(items[0] == spec_expression(s)->value);
    }
}

/// What spells an expression is accepted as that expression: where the
/// first `k` tokens of `s` spell `e`, and no opening bracket stands behind
/// them if `e` is a variable, the rule for expressions takes these `k`
/// tokens and makes `e` of them.
pub proof fn lemma_spelled_expression(s: Seq<Token>, k: nat, e: ExpressionView)
    requires
        k <= s.len(),
        spells(s.take(k as int), e),
        e is Variable ==> !first_is(
            s.skip(k as int),
            TokenKind::Operator(Operator::LeftRoundBracket),
        ),
    ensures
        spec_expression(s) == (Outcome::Accept { consumed: k, value: e }),
    decreases e, 0int,
{
    let ts = s.take(k as int);
    assert(ts[0] == s[0]);
    match e {
        ExpressionView::Literal(_) => {},
        ExpressionView::Variable(_) => {},
        ExpressionView::FunctionCall(call) => {
            lemma_spelled_function_call(s, k, call);
        },
    }
}

/// What spells a function call is accepted as that call.
pub proof fn lemma_spelled_function_call(s: Seq<Token>, k: nat, call: FunctionCallView)
    requires
        k <= s.len(),
        spells(s.take(k as int), ExpressionView::FunctionCall(call)),
    ensures
        spec_function_call(s) == (Outcome::Accept { consumed: k, value: call }),
    decreases call, 2int,
{
    let ts = s.take(k as int);
    let tail = s.skip(1);
    assert(ts[0] == s[0]);
    assert(ts[1] == s[1]);
    assert(ts[k - 1] == s[k - 1]);
    assert(tail[0] == s[1]);
    assert(tail.skip(1)[0] == s[2]);
    if call.inputs.len() == 0 {
        assert(call.inputs == Seq::<ExpressionView>::empty());
    } else {
        let items = tail.skip(1);
        let inner = ts.subrange(2, k - 1);
        lemma_spelling_of_items_begins(inner, call.inputs);
        assert(inner[0] == s[2]);
        assert(items.take(k - 3) == inner);
        assert(items[k - 3] == s[k - 1]);
        lemma_spelled_items(items, (k - 3) as nat, call.inputs);
    }
}

/// The spelling of a list of expressions begins with a literal or with an
/// identifier.
pub proof fn lemma_spelling_of_items_begins(ts: Seq<Token>, items: Seq<ExpressionView>)
    requires
        spell_items(ts, items),
    ensures
        ts.len() > 0,
        ts[0].kind is Literal || ts[0].kind is Identifier,
{
    let k = choose|k: nat|
        #![trigger ts.take(k as int)]
        {
            &&& 0 < k <= ts.len()
            &&& spells(ts.take(k as int), items[0])
            &&& if items.len() == 1 {
                ts.len() == k || (ts.len() == k + 1 && ts[k as int].kind == TokenKind::Operator(
                    Operator::Comma,
                ))
            } else {
                &&& k < ts.len()
                &&& ts[k as int].kind == TokenKind::Operator(Operator::Comma)
                &&& spell_items(ts.skip(k + 1 as int), items.drop_first())
            }
        };
    lemma_spelling_begins(ts.take(k as int), items[0]);
    assert(ts.take(k as int)[0] == ts[0]);
}

/// What spells a list of expressions, with the closing bracket behind it,
/// is accepted as that list.
pub proof fn lemma_spelled_items(s: Seq<Token>, n: nat, items: Seq<ExpressionView>)
    requires
        n < s.len(),
        spell_items(s.take(n as int), items),
        s[n as int].kind == TokenKind::Operator(Operator::RightRoundBracket),
    ensures
        spec_items(s) == (Outcome::Accept { consumed: n + 1, value: items }),
    decreases items, 1int,
{
    let ts = s.take(n as int);
    let k = choose|k: nat|
        #![trigger ts.take(k as int)]
        {
            &&& 0 < k <= ts.len()
            &&& spells(ts.take(k as int), items[0])
            &&& if items.len() == 1 {
                ts.len() == k || (ts.len() == k + 1 && ts[k as int].kind == TokenKind::Operator(
                    Operator::Comma,
                ))
            } else {
                &&& k < ts.len()
                &&& ts[k as int].kind == TokenKind::Operator(Operator::Comma)
                &&& spell_items(ts.skip(k + 1 as int), items.drop_first())
            }
        };
    assert(ts.take(k as int) == s.take(k as int));
    assert(s.skip(k as int)[0] == s[k as int]);
    if k < n {
        assert(ts[k as int] == s[k as int]);
    }
    lemma_spelled_expression(s, k, items[0]);
    let at = behind_item(s, k);
    if items.len() == 1 {
        assert(at == n);
        lemma_items_made(s);
        assert(items == seq![items[0]]);
    } else {
        let behind = s.skip(k + 1 as int);
        let rest = items.drop_first();
        assert(at == k + 1);
        assert(behind.take(n - k - 1) == ts.skip(k + 1 as int));
        lemma_spelling_of_items_begins(ts.skip(k + 1 as int), rest);
        assert(ts.skip(k + 1 as int)[0] == s[k + 1 as int]);
        assert(behind[n - k - 1] == s[n as int]);
        lemma_spelled_items(behind, (n - k - 1) as nat, rest);
        lemma_items_made(s);
        assert(seq![items[0]] + rest == items);
    }
}

/// The rule for expressions accepts exactly what the grammar spells: it
/// makes `e` of the first `k` tokens of `s` if and only if these tokens
/// spell `e` and, where `e` is a variable, no opening bracket stands behind
/// them.
pub proof fn lemma_expression_grammar(s: Seq<Token>, k: nat, e: ExpressionView)
    ensures
        spec_expression(s) == (Outcome::Accept { consumed: k, value: e }) <==> {
            &&& k <= s.len()
            &&& spells(s.take(k as int), e)
            &&& e is Variable ==> !first_is(
                s.skip(k as int),
                TokenKind::Operator(Operator::LeftRoundBracket),
            )
        },
{
    if spec_expression(s) == (Outcome::Accept { consumed: k, value: e }) {
        lemma_expression_is_spelled(s);
    }
    if k <= s.len() && spells(s.take(k as int), e) && (e is Variable ==> !first_is(
        s.skip(k as int),
        TokenKind::Operator(Operator::LeftRoundBracket),
    )) {
        lemma_spelled_expression(s, k, e);
    }
}

} // verus!
