//! The tokenizer.
//!
//! Each routine takes the text that is left and hands back what it took
//! together with the text after it, or a refusal. Their contracts are stated
//! over the characters of the text.

use super::text::{
    all_digits, first_ascii, is_digit, leading, lemma_runs_of_digits, split_at_char,
    split_first_char, CharClass,
};
use super::{LexError, LexErrorKind, Literal, Operator, Token, TokenKind, Tokens};
use vstd::prelude::*;

verus! {

/// What a routine hands back: the text that is left and what it took, or a
/// refusal.
pub type IResult<'a, O> = Result<(&'a str, O), LexError<'a>>;

/// What a routine does on a given text: it takes the first `len` characters,
/// or it refuses with the text from offset `at` on.
pub enum Scan {
    Taken { len: nat },
    Failed { at: nat, kind: LexErrorKind },
}

/// `r` hands out the run of text that `scan` describes.
pub open spec fn text_result<'a>(input: &'a str, r: IResult<'a, &'a str>, scan: Scan) -> bool {
    match scan {
        Scan::Taken { len } => r matches Ok((rest, run)) && len <= input@.len() && run@
            == input@.take(len as int) && rest@ == input@.skip(len as int),
        Scan::Failed { at, kind } => r matches Err(e) && at <= input@.len() && e.input@
            == input@.skip(at as int) && e.kind == kind,
    }
}

/// `r` hands out a token of kind `kind` over the run of text that `scan`
/// describes.
pub open spec fn token_result<'a>(
    input: &'a str,
    r: IResult<'a, Token<'a>>,
    scan: Scan,
    kind: TokenKind,
) -> bool {
    match scan {
        Scan::Taken { len } => r matches Ok((rest, token)) && len <= input@.len()
            && token.fragment@ == input@.take(len as int) && token.kind == kind && rest@
            == input@.skip(len as int),
        Scan::Failed { at, kind } => r matches Err(e) && at <= input@.len() && e.input@
            == input@.skip(at as int) && e.kind == kind,
    }
}

/// Taking one or more characters of a class.
pub open spec fn spec_take_while1(s: Seq<char>, class: CharClass) -> Scan {
    if class.leading(s) > 0 {
        Scan::Taken { len: class.leading(s) }
    } else {
        Scan::Failed { at: 0, kind: LexErrorKind::TakeWhile1 }
    }
}

fn take_while1<'a>(input: &'a str, class: CharClass) -> (r: IResult<'a, &'a str>)
    ensures
        text_result(input, r, spec_take_while1(input@, class)),
{
    let n = leading(input, class);
    if n == 0 {
        assert(input@.skip(0) == input@);
        Err(LexError::new(input, LexErrorKind::TakeWhile1))
    } else {
        let (run, rest) = split_at_char(input, n, Ghost(n as int));
        Ok((rest, run))
    }
}

/// A run of white space.
pub fn white_space(input: &str) -> (r: IResult<'_, &str>)
    ensures
        text_result(input, r, spec_take_while1(input@, CharClass::WhiteSpace)),
{
    take_while1(input, CharClass::WhiteSpace)
}

/// A run of digits and dots.
pub fn dots_and_digits(input: &str) -> (r: IResult<'_, &str>)
    ensures
        text_result(input, r, spec_take_while1(input@, CharClass::DigitOrDot)),
{
    take_while1(input, CharClass::DigitOrDot)
}

/// A literal of digits: the longest run of digits, which must not be empty.
pub fn digits(input: &str) -> (r: IResult<'_, Token<'_>>)
    ensures
        token_result(
            input,
            r,
            spec_take_while1(input@, CharClass::Digit),
            TokenKind::Literal(Literal::Digits),
        ),
{
    match take_while1(input, CharClass::Digit) {
        Ok((rest, run)) => Ok((rest, Token::new(run, TokenKind::Literal(Literal::Digits)))),
        Err(e) => Err(e),
    }
}

/// An identifier is the longest run of letters, digits and `_`; the run must
/// not be empty and must not begin with a digit.
pub open spec fn spec_identifier(s: Seq<char>) -> Scan {
    if CharClass::Word.leading(s) == 0 {
        Scan::Failed { at: 0, kind: LexErrorKind::TakeWhile1 }
    } else if is_digit(s[0]) {
        Scan::Failed { at: 0, kind: LexErrorKind::Verify }
    } else {
        Scan::Taken { len: CharClass::Word.leading(s) }
    }
}

/// An identifier.
pub fn identifier(input: &str) -> (r: IResult<'_, Token<'_>>)
    ensures
        token_result(input, r, spec_identifier(input@), TokenKind::Identifier),
{
    let n = leading(input, CharClass::Word);
    proof {
        CharClass::Word.lemma_leading(input@);
        assert(input@.skip(0) == input@);
    }
    if n == 0 {
        return Err(LexError::new(input, LexErrorKind::TakeWhile1));
    }
    match first_ascii(input) {
        Some(byte) => {
            if CharClass::Digit.accepts(byte) {
                return Err(LexError::new(input, LexErrorKind::Verify));
            }
        },
        None => {
            assert(CharClass::Word.contains(input@[0]));
        },
    }
    let (run, rest) = split_at_char(input, n, Ghost(n as int));
    Ok((rest, Token::new(run, TokenKind::Identifier)))
}

/// The length of the float literal at the start of `s`, if there is one: the
/// longest run of digits and dots there has to be digits, one dot, digits.
pub open spec fn float_len(s: Seq<char>) -> Option<nat> {
    let whole = CharClass::Digit.leading(s);
    let fraction = CharClass::Digit.leading(s.skip(whole + 1 as int));
    if whole > 0 && whole < s.len() && s[whole as int] == '.' && fraction > 0 && whole + 1
        + fraction == CharClass::DigitOrDot.leading(s) {
        Some(whole + 1 + fraction)
    } else {
        None
    }
}

/// Whether a text is a float literal and nothing more: digits, a dot,
/// digits.
pub open spec fn is_float_text(text: Seq<char>) -> bool {
    float_len(text) == Some(text.len())
}

/// Digits, a dot and digits are a float literal and nothing more.
pub proof fn lemma_float_text(whole: Seq<char>, fraction: Seq<char>)
    requires
        all_digits(whole),
        all_digits(fraction),
    ensures
        is_float_text(whole + seq!['.'] + fraction),
        CharClass::WhiteSpace.leading(whole + seq!['.'] + fraction) == 0,
        CharClass::Word.leading(whole + seq!['.'] + fraction) > 0,
{
    let text = whole + seq!['.'] + fraction;
    assert forall|j: int| 0 <= j < whole.len() implies CharClass::Digit.contains(
        #[trigger] text[j],
    ) by {
        assert(text[j] == whole[j]);
    }
    assert(text[whole.len() as int] == '.');
    CharClass::Digit.lemma_leading_is(text, whole.len() as int);
    let behind = text.skip(whole.len() + 1 as int);
    assert(behind == fraction);
    lemma_runs_of_digits(fraction);
    assert forall|j: int| 0 <= j < text.len() implies CharClass::DigitOrDot.contains(
        #[trigger] text[j],
    ) by {
        if j < whole.len() {
            assert(text[j] == whole[j]);
        } else if j > whole.len() {
            assert(text[j] == fraction[j - whole.len() - 1]);
        }
    }
    CharClass::DigitOrDot.lemma_leading_is(text, text.len() as int);
    CharClass::WhiteSpace.lemma_leading_is(text, 0);
    assert(text[0] == whole[0]);
    CharClass::Word.lemma_leading(text);
}

/// A float literal. Text that does not begin with a digit is refused as
/// `TakeWhile1`, any other text without a float literal at its start as
/// `Verify`.
pub open spec fn spec_float(s: Seq<char>) -> Scan {
    if CharClass::Digit.leading(s) == 0 {
        Scan::Failed { at: 0, kind: LexErrorKind::TakeWhile1 }
    } else {
        match float_len(s) {
            Some(len) => Scan::Taken { len },
            None => Scan::Failed { at: 0, kind: LexErrorKind::Verify },
        }
    }
}

/// A float literal.
pub fn float(input: &str) -> (r: IResult<'_, Token<'_>>)
    ensures
        token_result(input, r, spec_float(input@), TokenKind::Literal(Literal::Float)),
{
    let ghost s = input@;
    let whole = leading(input, CharClass::Digit);
    proof {
        assert(s.skip(0) == s);
    }
    if whole == 0 {
        return Err(LexError::new(input, LexErrorKind::TakeWhile1));
    }
    let run = leading(input, CharClass::DigitOrDot);
    let (_, after_whole) = split_at_char(input, whole, Ghost(whole as int));
    let dot = match first_ascii(after_whole) {
        Some(byte) => byte == 0x2E,
        None => false,
    };
    proof {
        if whole < s.len() {
            assert(after_whole@[0] == s[whole as int]);
        }
    }
    if !dot {
        return Err(LexError::new(input, LexErrorKind::Verify));
    }
    let (_, after_dot) = split_at_char(after_whole, 1, Ghost(1));
    let fraction = leading(after_dot, CharClass::Digit);
    proof {
        assert(after_dot@ == s.skip(whole + 1 as int));
        CharClass::Digit.lemma_leading(s);
        CharClass::Digit.lemma_leading(after_dot@);
        let n = whole + 1 + fraction;
        assert forall|j: int| 0 <= j < n implies CharClass::DigitOrDot.contains(
            #[trigger] s[j],
        ) by {
            if j > whole {
                assert(s[j] == after_dot@[j - whole - 1]);
            }
        }
        CharClass::DigitOrDot.lemma_leading_covers(s, n as int);
    }
    if fraction == 0 || whole + 1 + fraction != run {
        return Err(LexError::new(input, LexErrorKind::Verify));
    }
    let (text, rest) = split_at_char(input, run, Ghost(run as int));
    Ok((rest, Token::new(text, TokenKind::Literal(Literal::Float))))
}

/// A literal: a float literal where there is one, else a literal of digits.
pub open spec fn spec_literal(s: Seq<char>) -> (Scan, TokenKind) {
    if spec_float(s) is Taken {
        (spec_float(s), TokenKind::Literal(Literal::Float))
    } else {
        (spec_take_while1(s, CharClass::Digit), TokenKind::Literal(Literal::Digits))
    }
}

/// A number literal.
pub fn literal(input: &str) -> (r: IResult<'_, Token<'_>>)
    ensures
        token_result(input, r, spec_literal(input@).0, spec_literal(input@).1),
{
    match float(input) {
        Ok(found) => Ok(found),
        Err(_) => digits(input),
    }
}

/// A symbol is the first character of the text, where that character spells
/// one. The refusal of another character holds the text after it.
pub open spec fn spec_operator(s: Seq<char>) -> (Scan, TokenKind) {
    if s.len() == 0 {
        (Scan::Failed { at: 0, kind: LexErrorKind::Eof }, TokenKind::Invalid)
    } else {
        match Operator::spec_recognize(s.take(1)) {
            Some(operator) => (Scan::Taken { len: 1 }, TokenKind::Operator(operator)),
            None => (Scan::Failed { at: 1, kind: LexErrorKind::Verify }, TokenKind::Invalid),
        }
    }
}

/// A symbol.
pub fn operator(input: &str) -> (r: IResult<'_, Token<'_>>)
    ensures
        token_result(input, r, spec_operator(input@).0, spec_operator(input@).1),
{
    match split_first_char(input) {
        None => {
            assert(input@.skip(0) == input@);
            Err(LexError::new(input, LexErrorKind::Eof))
        },
        Some((first, rest)) => match Operator::recognize(first) {
            Some(operator) => Ok((rest, Token::new(first, TokenKind::Operator(operator)))),
            None => Err(LexError::new(rest, LexErrorKind::Verify)),
        },
    }
}

/// The token at the start of a text: an identifier, a literal or a symbol
/// where the text begins with one, else its first character as an invalid
/// token. Only the empty text holds no token.
pub open spec fn spec_token(s: Seq<char>) -> (Scan, TokenKind) {
    if spec_identifier(s) is Taken {
        (spec_identifier(s), TokenKind::Identifier)
    } else if spec_literal(s).0 is Taken {
        spec_literal(s)
    } else if spec_operator(s).0 is Taken {
        spec_operator(s)
    } else if s.len() > 0 {
        (Scan::Taken { len: 1 }, TokenKind::Invalid)
    } else {
        (Scan::Failed { at: 0, kind: LexErrorKind::Eof }, TokenKind::Invalid)
    }
}

/// One token.
pub fn token(input: &str) -> (r: IResult<'_, Token<'_>>)
    ensures
        token_result(input, r, spec_token(input@).0, spec_token(input@).1),
{
    if let Ok(found) = identifier(input) {
        return Ok(found);
    }
    if let Ok(found) = literal(input) {
        return Ok(found);
    }
    if let Ok(found) = operator(input) {
        return Ok(found);
    }
    match split_first_char(input) {
        Some((first, rest)) => Ok((rest, Token::new(first, TokenKind::Invalid))),
        None => {
            assert(input@.skip(0) == input@);
            Err(LexError::new(input, LexErrorKind::Eof))
        },
    }
}

/// Where a token lies in the source text, and its kind.
pub struct Lexeme {
    pub start: nat,
    pub end: nat,
    pub kind: TokenKind,
}

/// A token found on text that is not empty takes at least one character and
/// no more than there are.
pub proof fn lemma_token_len(s: Seq<char>)
    requires
        s.len() > 0,
    ensures
        spec_token(s).0 matches Scan::Taken { len } && 0 < len <= s.len(),
{
    CharClass::Word.lemma_leading(s);
    CharClass::Digit.lemma_leading(s);
    CharClass::DigitOrDot.lemma_leading(s);
}

/// The tokens of the text `s` from the offset `from` on: white space is
/// passed over, and every other character belongs to exactly one token.
pub open spec fn lexemes(s: Seq<char>, from: nat) -> Seq<Lexeme>
    decreases s.len() - from,
{
    if from >= s.len() {
        Seq::empty()
    } else {
        let rest = s.skip(from as int);
        let blank = CharClass::WhiteSpace.leading(rest);
        proof {
            CharClass::WhiteSpace.lemma_leading(rest);
            lemma_token_len(rest);
        }
        if blank > 0 {
            lexemes(s, from + blank)
        } else {
            let len = spec_token(rest).0->len;
            seq![Lexeme { start: from, end: from + len, kind: spec_token(rest).1 }] + lexemes(
                s,
                from + len,
            )
        }
    }
}

/// Whether a text has the shape of a token of the given kind.
pub open spec fn well_formed(fragment: Seq<char>, kind: TokenKind) -> bool {
    match kind {
        TokenKind::Identifier => fragment.len() > 0 && !is_digit(fragment[0])
            && CharClass::Word.leading(fragment) == fragment.len(),
        TokenKind::Literal(Literal::Digits) => all_digits(fragment),
        TokenKind::Literal(Literal::Float) => is_float_text(fragment),
        TokenKind::Operator(operator) => fragment == operator.spec_value(),
        TokenKind::Invalid => fragment.len() == 1 && !CharClass::WhiteSpace.contains(fragment[0])
            && !CharClass::Word.contains(fragment[0]) && Operator::spec_recognize(fragment)
            is None,
    }
}

/// The token found at the start of a text that begins with no white space
/// has the shape of its kind.
pub proof fn lemma_token_well_formed(s: Seq<char>)
    requires
        s.len() > 0,
        !CharClass::WhiteSpace.contains(s[0]),
    ensures
        well_formed(s.take(spec_token(s).0->len as int), spec_token(s).1),
{
    lemma_token_len(s);
    CharClass::Word.lemma_leading(s);
    CharClass::Digit.lemma_leading(s);
    let len = spec_token(s).0->len;
    let fragment = s.take(len as int);
    if spec_identifier(s) is Taken {
        CharClass::Word.lemma_leading_is(fragment, len as int);
    } else if spec_float(s) is Taken {
        let whole = CharClass::Digit.leading(s);
        let behind = s.skip(whole + 1 as int);
        let fraction = CharClass::Digit.leading(behind);
        CharClass::Digit.lemma_leading(behind);
        let before = s.take(whole as int);
        let after = behind.take(fraction as int);
        assert(all_digits(before));
        assert(all_digits(after));
        assert(fragment =~= before + seq!['.'] + after);
        lemma_float_text(before, after);
    } else if spec_take_while1(s, CharClass::Digit) is Taken {
        assert(all_digits(fragment));
    } else if spec_operator(s).0 is Taken {
    } else {
        assert(fragment[0] == s[0]);
        assert(fragment == s.take(1));
    }
}

/// The tokens of a text from an offset on are those behind the white space
/// that stands there, or the token that stands there and those behind it.
pub proof fn lemma_lexemes_step(s: Seq<char>, from: nat)
    requires
        from < s.len(),
    ensures
        ({
            let rest = s.skip(from as int);
            let blank = CharClass::WhiteSpace.leading(rest);
            let len = spec_token(rest).0->len;
            &&& blank <= rest.len()
            &&& forall|p: int| from <= p < from + blank ==> CharClass::WhiteSpace.contains(s[p])
            &&& blank > 0 ==> lexemes(s, from) == lexemes(s, from + blank)
            &&& blank == 0 ==> {
                &&& 0 < len <= rest.len()
                &&& well_formed(s.subrange(from as int, (from + len) as int), spec_token(rest).1)
                &&& lexemes(s, from) == seq![
                    Lexeme { start: from, end: from + len, kind: spec_token(rest).1 },
                ] + lexemes(s, from + len)
            }
        }),
{
    let rest = s.skip(from as int);
    let blank = CharClass::WhiteSpace.leading(rest);
    CharClass::WhiteSpace.lemma_leading(rest);
    lemma_token_len(rest);
    assert forall|p: int| from <= p < from + blank implies CharClass::WhiteSpace.contains(
        s[p],
    ) by {
        assert(s[p] == rest[p - from]);
    }
    if blank == 0 {
        let len = spec_token(rest).0->len;
        lemma_token_well_formed(rest);
        assert(rest.take(len as int) == s.subrange(from as int, (from + len) as int));
    }
}

/// Each token of a text lies within the text, is not empty and has the
/// shape of its kind.
pub proof fn lemma_lexemes_well_formed(s: Seq<char>, from: nat)
    requires
        from <= s.len(),
    ensures
        forall|i: int|
            0 <= i < lexemes(s, from).len() ==> {
                let lexeme = #[trigger] lexemes(s, from)[i];
                &&& from <= lexeme.start < lexeme.end <= s.len()
                &&& well_formed(s.subrange(lexeme.start as int, lexeme.end as int), lexeme.kind)
            },
    decreases s.len() - from,
{
    if from < s.len() {
        lemma_lexemes_step(s, from);
        let rest = s.skip(from as int);
        let blank = CharClass::WhiteSpace.leading(rest);
        let all = lexemes(s, from);
        if blank > 0 {
            lemma_lexemes_well_formed(s, from + blank);
        } else {
            let len = spec_token(rest).0->len;
            let more = lexemes(s, from + len);
            lemma_lexemes_well_formed(s, from + len);
            assert forall|i: int| 0 <= i < all.len() implies {
                let lexeme = #[trigger] all[i];
                &&& from <= lexeme.start < lexeme.end <= s.len()
                &&& well_formed(s.subrange(lexeme.start as int, lexeme.end as int), lexeme.kind)
            } by {
                if i > 0 {
                    assert(all[i] == more[i - 1]);
                }
            }
        }
    }
}

/// Each token of a text begins no earlier than the tokens before it end.
pub proof fn lemma_lexemes_in_order(s: Seq<char>, from: nat)
    requires
        from <= s.len(),
    ensures
        forall|i: int, j: int|
            0 <= i < j < lexemes(s, from).len() ==> (#[trigger] lexemes(s, from)[i]).end <= (
            #[trigger] lexemes(s, from)[j]).start,
    decreases s.len() - from,
{
    if from < s.len() {
        lemma_lexemes_step(s, from);
        let rest = s.skip(from as int);
        let blank = CharClass::WhiteSpace.leading(rest);
        let all = lexemes(s, from);
        if blank > 0 {
            lemma_lexemes_in_order(s, from + blank);
        } else {
            let len = spec_token(rest).0->len;
            let more = lexemes(s, from + len);
            lemma_lexemes_in_order(s, from + len);
            lemma_lexemes_well_formed(s, from + len);
            assert forall|i: int, j: int| 0 <= i < j < all.len() implies (#[trigger] all[i]).end
                <= (#[trigger] all[j]).start by {
                assert(all[j] == more[j - 1]);
                if i > 0 {
                    assert(all[i] == more[i - 1]);
                }
            }
        }
    }
}

/// Whether the character at the offset `p` belongs to one of the tokens.
pub open spec fn covered(found: Seq<Lexeme>, p: int) -> bool {
    exists|i: int| 0 <= i < found.len() && (#[trigger] found[i]).start <= p < found[i].end
}

/// Every character of a text that is no white space belongs to a token.
pub proof fn lemma_lexemes_cover(s: Seq<char>, from: nat)
    requires
        from <= s.len(),
    ensures
        forall|p: int|
            from <= p < s.len() ==> CharClass::WhiteSpace.contains(s[p]) || #[trigger] covered(
                lexemes(s, from),
                p,
            ),
    decreases s.len() - from,
{
    if from < s.len() {
        lemma_lexemes_step(s, from);
        let rest = s.skip(from as int);
        let blank = CharClass::WhiteSpace.leading(rest);
        let all = lexemes(s, from);
        if blank > 0 {
            lemma_lexemes_cover(s, from + blank);
        } else {
            let len = spec_token(rest).0->len;
            let more = lexemes(s, from + len);
            lemma_lexemes_cover(s, from + len);
            assert forall|p: int| from <= p < s.len() implies CharClass::WhiteSpace.contains(
                s[p],
            ) || #[trigger] covered(all, p) by {
                if p < from + len {
                    assert(all[0].start <= p < all[0].end);
                } else if !CharClass::WhiteSpace.contains(s[p]) {
                    assert(covered(more, p));
                    let i = choose|i: int|
                        0 <= i < more.len() && (#[trigger] more[i]).start <= p < more[i].end;
                    assert(all[i + 1] == more[i]);
                }
            }
        }
    }
}

/// The tokens `tokens` are those that `found` places in the text `s`.
pub open spec fn tokens_of(tokens: Seq<Token>, s: Seq<char>, found: Seq<Lexeme>) -> bool {
    &&& tokens.len() == found.len()
    &&& forall|i: int|
        0 <= i < tokens.len() ==> (#[trigger] tokens[i]).kind == found[i].kind
            && tokens[i].fragment@ == s.subrange(found[i].start as int, found[i].end as int)
}

/// The tokens of a text. No text is refused: what starts no other token
/// becomes an invalid token of one character.
pub fn tokens(input: &str) -> (r: IResult<'_, Tokens<'_>>)
    ensures
        r matches Ok((rest, tokens)) && rest@.len() == 0 && tokens_of(
            tokens@,
            input@,
            lexemes(input@, 0),
        ),
{
    let ghost s = input@;
    let mut output: Vec<Token<'_>> = Vec::new();
    let mut rest = input;
    let ghost mut from: nat = 0;
    let ghost mut found: Seq<Lexeme> = Seq::empty();
    proof {
        assert(s.skip(0) == s);
    }
    loop
        invariant
            from <= s.len(),
            rest@ == s.skip(from as int),
            tokens_of(output@, s, found),
            lexemes(s, 0) == found + lexemes(s, from),
        ensures
            from == s.len(),
        decreases s.len() - from,
    {
        proof {
            CharClass::WhiteSpace.lemma_leading(rest@);
            if rest@.len() > 0 {
                lemma_token_len(rest@);
            }
        }
        if let Ok((after, _)) = white_space(rest) {
            proof {
                let blank = CharClass::WhiteSpace.leading(rest@);
                assert(after@ == s.skip((from + blank) as int));
                from = from + blank;
            }
            rest = after;
            continue ;
        }
        match token(rest) {
            Ok((after, token)) => {
                proof {
                    let len = spec_token(rest@).0->len;
                    let kind = spec_token(rest@).1;
                    assert(after@ == s.skip((from + len) as int));
                    assert(rest@.take(len as int) == s.subrange(from as int, (from + len) as int));
                    let lexeme = Lexeme { start: from, end: from + len, kind };
                    assert(found + (seq![lexeme] + lexemes(s, from + len)) == found.push(lexeme)
                        + lexemes(s, from + len));
                    found = found.push(lexeme);
                    from = from + len;
                }
                output.push(token);
                rest = after;
            },
            Err(_) => {
                break ;
            },
        }
    }
    proof {
        assert(found + Seq::<Lexeme>::empty() == found);
    }
    Ok((rest, Tokens::from_vec(output)))
}

} // verus!
