//! Parsers over slices of tokens, and ways to build parsers from parsers.
//!
//! A parser is a function from the tokens that are left to what it made of
//! their start together with the tokens after that, or to a failure. The
//! functions here hand out parsers; what a parser does is stated as a
//! relation between its input and its result.

use crate::ast::{kind_at, Error, ErrorKind, Expectation, TS};
use crate::lexer::Token;
use vstd::prelude::*;
use vstd::slice::slice_to_vec;

verus! {

/// What a parser hands back: the tokens that are left and what it made, or
/// a failure.
pub type IResult<'a, 'src, O> = Result<(TS<'a, 'src>, O), Error<'a, 'src>>;

/// The uncommitted failure at `input` that looked for `expectation`.
pub open spec fn failure<'a, 'src>(input: TS<'a, 'src>, expectation: Expectation) -> Error<
    'a,
    'src,
> {
    Error { input, kind: kind_at(input@), expectation, committed: false }
}

/// What `take(at)` makes of `input`: the first `at` tokens, or a failure
/// where fewer are left.
pub open spec fn took<'a, 'src>(
    at: usize,
    input: TS<'a, 'src>,
    r: IResult<'a, 'src, TS<'a, 'src>>,
) -> bool {
    if at <= input@.len() {
        r matches Ok((rest, taken)) && taken@ == input@.take(at as int) && rest@ == input@.skip(
            at as int,
        )
    } else {
        r == Err::<(TS, TS), Error>(failure(input, Expectation::Unspecified))
    }
}

/// The parser that takes the next `at` tokens.
pub fn take(at: usize) -> (parser: impl for <'b, 'bsrc>Fn(TS<'b, 'bsrc>) -> IResult<
    'b,
    'bsrc,
    TS<'b, 'bsrc>,
>)
    ensures
        forall|input: TS| #[trigger] call_requires(parser, (input,)),
        forall|input: TS, r: IResult<TS>| #[trigger]
            call_ensures(parser, (input,), r) ==> took(at, input, r),
{
    move |input: TS| -> (r: IResult<TS>)
        ensures
            took(at, input, r),
        {
            if at > input.len() {
                Err(Error::new(input))
            } else {
                let (splitted_segment, the_rest) = input.split_at(at);
                Ok((the_rest, splitted_segment))
            }
        }
}

/// Whether `input` begins with tokens that equal those of `expected`, each
/// in kind and in text.
pub open spec fn starts_with(input: Seq<Token>, expected: Seq<Token>) -> bool {
    &&& expected.len() <= input.len()
    &&& forall|i: int| 0 <= i < expected.len() ==> (#[trigger] input[i])@ == expected[i]@
}

/// Whether the tokens of `input` from the index `from` on begin with those
/// of `expected`.
pub fn begins_at(input: TS, from: usize, expected: TS) -> (r: bool)
    requires
        from <= input@.len(),
    ensures
        r == starts_with(input@.skip(from as int), expected@),
{
    let len = input.len();
    if expected.len() > len - from {
        return false;
    }
    let mut i: usize = 0;
    while i < expected.len()
        invariant
            len == input@.len(),
            from + expected@.len() <= input@.len(),
            i <= expected@.len(),
            forall|j: int| 0 <= j < i ==> (#[trigger] input@.skip(from as int)[j])@ == expected@[j]@,
        decreases expected@.len() - i,
    {
        if !(input[from + i] == expected[i]) {
            assert(input@.skip(from as int)[i as int] == input@[from + i]);
            return false;
        }
        assert(input@.skip(from as int)[i as int] == input@[from + i]);
        i += 1;
    }
    true
}

/// What `tag(this)` makes of `input`: the tokens that equal `this`, or a
/// failure where `input` does not begin with them.
pub open spec fn tagged<'a, 'src>(
    this: Seq<Token>,
    input: TS<'a, 'src>,
    r: IResult<'a, 'src, TS<'a, 'src>>,
) -> bool {
    if starts_with(input@, this) {
        r matches Ok((rest, taken)) && taken@ == input@.take(this.len() as int) && rest@
            == input@.skip(this.len() as int)
    } else {
        r == Err::<(TS, TS), Error>(failure(input, Expectation::Tag))
    }
}

/// The parser that takes the tokens `this` and nothing else.
pub fn tag<'a, 'src>(this: TS<'a, 'src>) -> (parser: impl for <'b, 'bsrc>Fn(
    TS<'b, 'bsrc>,
) -> IResult<'b, 'bsrc, TS<'b, 'bsrc>> + 'src)
    ensures
        forall|input: TS| #[trigger] call_requires(parser, (input,)),
        forall|input: TS, r: IResult<TS>| #[trigger]
            call_ensures(parser, (input,), r) ==> tagged(this@, input, r),
{
    let this = slice_to_vec(this);
    move |input: TS| -> (r: IResult<TS>)
        ensures
            tagged(this@, input, r),
        {
            proof {
                assert(input@.skip(0) == input@);
            }
            if begins_at(input, 0, this.as_slice()) {
                let (matched, rest) = input.split_at(this.len());
                Ok((rest, matched))
            } else {
                Err(Error::new(input).with_context(Expectation::Tag))
            }
        }
}

/// What `map(parser, mapper)` makes of `input`: what `parser` made of it,
/// with `mapper` applied to the value; a failure of `parser` as it is.
pub open spec fn mapped<'a, 'src: 'a, P, PO, M, U>(
    parser: P,
    mapper: M,
    input: TS<'a, 'src>,
    r: IResult<'a, 'src, U>,
) -> bool where P: Fn(TS<'a, 'src>) -> IResult<'a, 'src, PO>, M: Fn(PO) -> U {
    match r {
        Ok((rest, value)) => exists|o: PO|
            #![trigger call_ensures(mapper, (o,), value)]
            call_ensures(parser, (input,), Ok::<(TS, PO), Error>((rest, o))) && call_ensures(
                mapper,
                (o,),
                value,
            ),
        Err(e) => call_ensures(parser, (input,), Err::<(TS, PO), Error>(e)),
    }
}

/// Whether `mapper` may be called on whatever `parser` makes of `input`.
pub open spec fn accepts_output<'a, 'src: 'a, P, PO, M, U>(
    parser: P,
    mapper: M,
    input: TS<'a, 'src>,
) -> bool where P: Fn(TS<'a, 'src>) -> IResult<'a, 'src, PO>, M: Fn(PO) -> U {
    &&& call_requires(parser, (input,))
    &&& forall|rest: TS<'a, 'src>, o: PO| #[trigger]
        call_ensures(parser, (input,), Ok::<(TS, PO), Error>((rest, o))) ==> call_requires(
            mapper,
            (o,),
        )
}

/// The parser that runs `parser` and hands its value to `mapper`.
pub fn map<'a, 'src: 'a, P, PO, M, U>(parser: P, mapper: M) -> (r: impl Fn(TS<'a, 'src>) -> IResult<
    'a,
    'src,
    U,
>) where P: Fn(TS<'a, 'src>) -> IResult<'a, 'src, PO>, M: Fn(PO) -> U
    ensures
        forall|input: TS<'a, 'src>|
            accepts_output(parser, mapper, input) ==> #[trigger] call_requires(r, (input,)),
        forall|input: TS<'a, 'src>, out: IResult<'a, 'src, U>| #[trigger]
            call_ensures(r, (input,), out) ==> mapped(parser, mapper, input, out),
{
    move |input: TS<'a, 'src>| -> (out: IResult<'a, 'src, U>)
        requires
            accepts_output(parser, mapper, input),
        ensures
            mapped(parser, mapper, input, out),
        {
            match parser(input) {
                Ok((i, o)) => {
                    let ghost parsed = o;
                    let value = mapper(o);
                    let out: IResult<'a, 'src, U> = Ok((i, value));
                    proof {
                        assert(call_ensures(parser, (input,), Ok::<(TS, PO), Error>((i, parsed))));
                        assert(call_ensures(mapper, (parsed,), value));
                        assert(out matches Ok((rest, v)) && rest == i && v == value);
                    }
                    out
                },
                Err(e) => Err(e),
            }
        }
}

/// What `try_map(parser, mapper)` makes of `input`: what `parser` made of
/// it, with the value that `mapper` gave for its value; a failure of
/// `parser` as it is; and where `mapper` gave no value, a failure at `input`.
pub open spec fn try_mapped<'a, 'src: 'a, P, PO, M, U>(
    parser: P,
    mapper: M,
    input: TS<'a, 'src>,
    r: IResult<'a, 'src, U>,
) -> bool where P: Fn(TS<'a, 'src>) -> IResult<'a, 'src, PO>, M: Fn(PO) -> Option<U> {
    match r {
        Ok((rest, value)) => exists|o: PO|
            #![trigger call_ensures(mapper, (o,), Some(value))]
            call_ensures(parser, (input,), Ok::<(TS, PO), Error>((rest, o))) && call_ensures(
                mapper,
                (o,),
                Some(value),
            ),
        Err(e) => {
            ||| call_ensures(parser, (input,), Err::<(TS, PO), Error>(e))
            ||| e == failure(input, Expectation::Unspecified) && exists|rest: TS<'a, 'src>, o: PO|
                #![trigger call_ensures(parser, (input,), Ok::<(TS, PO), Error>((rest, o)))]
                call_ensures(parser, (input,), Ok::<(TS, PO), Error>((rest, o))) && call_ensures(
                    mapper,
                    (o,),
                    None::<U>,
                )
        },
    }
}

/// The parser that runs `parser` and hands its value to `mapper`, which
/// may refuse it.
pub fn try_map<'a, 'src: 'a, P, PO, M, U>(parser: P, mapper: M) -> (r: impl Fn(
    TS<'a, 'src>,
) -> IResult<'a, 'src, U>) where
    P: Fn(TS<'a, 'src>) -> IResult<'a, 'src, PO>,
    M: Fn(PO) -> Option<U>,

    ensures
        forall|input: TS<'a, 'src>|
            accepts_output(parser, mapper, input) ==> #[trigger] call_requires(r, (input,)),
        forall|input: TS<'a, 'src>, out: IResult<'a, 'src, U>| #[trigger]
            call_ensures(r, (input,), out) ==> try_mapped(parser, mapper, input, out),
{
    move |input: TS<'a, 'src>| -> (out: IResult<'a, 'src, U>)
        requires
            accepts_output(parser, mapper, input),
        ensures
            try_mapped(parser, mapper, input, out),
        {
            match parser(input) {
                Ok((i, o)) => {
                    let ghost parsed = o;
                    let value = mapper(o);
                    let ghost given = value;
                    let out: IResult<'a, 'src, U> = match value {
                        Some(o) => Ok((i, o)),
                        None => Err(Error::new(input)),
                    };
                    proof {
                        assert(call_ensures(parser, (input,), Ok::<(TS, PO), Error>((i, parsed))));
                        assert(call_ensures(mapper, (parsed,), given));
                        if let Some(mapped_value) = given {
                            assert(out matches Ok((rest, v)) && rest == i && v == mapped_value);
                        }
                    }
                    out
                },
                Err(e) => Err(e),
            }
        }
}

/// Where the marker stands that closes a balanced region. The tokens of
/// `input` are gone through from the index `i` on with `depth` regions open:
/// an opening marker opens one more and is passed over, a closing marker
/// closes one and is passed over, and the closing marker that is met with
/// none open ends the search. A token that begins no marker is passed over.
pub open spec fn closing(
    open: Seq<Token>,
    close: Seq<Token>,
    input: Seq<Token>,
    i: nat,
    depth: nat,
) -> Option<nat>
    decreases input.len() - i, depth,
{
    if i > input.len() {
        None
    } else if open.len() > 0 && starts_with(input.skip(i as int), open) {
        closing(open, close, input, i + open.len(), depth + 1)
    } else if starts_with(input.skip(i as int), close) {
        if depth == 0 {
            Some(i)
        } else {
            closing(open, close, input, i + close.len(), (depth - 1) as nat)
        }
    } else if i < input.len() {
        closing(open, close, input, i + 1, depth)
    } else {
        None
    }
}

/// How many regions are open at the end of `region`, gone through from the
/// index `i` on with `depth` regions open, as `closing` goes through the
/// input; or nothing, where a closing marker is met with none open.
pub open spec fn nesting(
    open: Seq<Token>,
    close: Seq<Token>,
    region: Seq<Token>,
    i: nat,
    depth: nat,
) -> Option<nat>
    decreases region.len() - i, depth,
{
    if i >= region.len() {
        Some(depth)
    } else if open.len() > 0 && starts_with(region.skip(i as int), open) {
        nesting(open, close, region, i + open.len(), depth + 1)
    } else if starts_with(region.skip(i as int), close) {
        if depth == 0 {
            None
        } else {
            nesting(open, close, region, i + close.len(), (depth - 1) as nat)
        }
    } else {
        nesting(open, close, region, i + 1, depth)
    }
}

/// The closing marker of a region is found no earlier than the search
/// starts.
pub proof fn lemma_closing_is_ahead(
    open: Seq<Token>,
    close: Seq<Token>,
    input: Seq<Token>,
    i: nat,
    depth: nat,
)
    ensures
        closing(open, close, input, i, depth) matches Some(end) ==> i <= end && end + close.len()
            <= input.len(),
    decreases input.len() - i, depth,
{
    if i > input.len() {
    } else if open.len() > 0 && starts_with(input.skip(i as int), open) {
        lemma_closing_is_ahead(open, close, input, i + open.len(), depth + 1);
    } else if starts_with(input.skip(i as int), close) {
        if depth > 0 {
            lemma_closing_is_ahead(open, close, input, i + close.len(), (depth - 1) as nat);
        }
    } else if i < input.len() {
        lemma_closing_is_ahead(open, close, input, i + 1, depth);
    }
}

/// A region that `closing` has found is balanced: gone through on its own,
/// it never meets a closing marker with no region open, and it ends with
/// as many regions open as it began with closed, that is with none where
/// the search began with `depth` open and closed them all. This holds for a
/// closing marker of at least one token.
pub proof fn lemma_region_is_balanced(
    open: Seq<Token>,
    close: Seq<Token>,
    input: Seq<Token>,
    i: nat,
    depth: nat,
    end: nat,
)
    requires
        close.len() > 0,
        closing(open, close, input, i, depth) == Some(end),
    ensures
        i <= end <= input.len(),
        nesting(open, close, input.take(end as int), i, depth) == Some(0nat),
    decreases input.len() - i, depth,
{
    lemma_closing_is_ahead(open, close, input, i, depth);
    let region = input.take(end as int);
    if i < end {
        let ahead = input.skip(i as int);
        let inside = region.skip(i as int);
        assert(inside.len() == end - i);
        assert forall|j: int| 0 <= j < inside.len() implies inside[j] == ahead[j] by {}
        if open.len() > 0 && starts_with(ahead, open) {
            lemma_region_is_balanced(open, close, input, i + open.len(), depth + 1, end);
            assert(starts_with(inside, open));
        } else if starts_with(ahead, close) {
            lemma_region_is_balanced(
                open,
                close,
                input,
                i + close.len(),
                (depth - 1) as nat,
                end,
            );
            assert(starts_with(inside, close));
            if open.len() > 0 && starts_with(inside, open) {
                assert forall|j: int| 0 <= j < open.len() implies (#[trigger] ahead[j])@
                    == open[j]@ by {
                    assert(inside[j]@ == open[j]@);
                }
            }
        } else {
            lemma_region_is_balanced(open, close, input, i + 1, depth, end);
            if open.len() > 0 && starts_with(inside, open) {
                assert forall|j: int| 0 <= j < open.len() implies (#[trigger] ahead[j])@
                    == open[j]@ by {
                    assert(inside[j]@ == open[j]@);
                }
            }
            if starts_with(inside, close) {
                assert forall|j: int| 0 <= j < close.len() implies (#[trigger] ahead[j])@
                    == close[j]@ by {
                    assert(inside[j]@ == close[j]@);
                }
            }
        }
    } else {
        // the search ends where it stands: no region is open here
        if open.len() > 0 && starts_with(input.skip(i as int), open) {
            lemma_closing_is_ahead(open, close, input, i + open.len(), depth + 1);
        } else if starts_with(input.skip(i as int), close) {
            if depth > 0 {
                lemma_closing_is_ahead(open, close, input, i + close.len(), (depth - 1) as nat);
            }
        } else {
            lemma_closing_is_ahead(open, close, input, i + 1, depth);
        }
    }
}

/// What `between_balanced(open, close)` makes of `input`: the tokens
/// between the opening marker at its start and the marker that closes it,
/// together with the tokens after that marker. Without the opening marker
/// it fails at `input`; without the closing one, at the end of the input.
/// The tokens that it hands out are balanced (for a closing marker of at
/// least one token): they hold as many closing markers as opening ones, and
/// no closing marker before the opening one that it belongs to.
pub open spec fn balanced<'a, 'src>(
    open: Seq<Token>,
    close: Seq<Token>,
    input: TS<'a, 'src>,
    r: IResult<'a, 'src, TS<'a, 'src>>,
) -> bool {
    if !starts_with(input@, open) {
        r == Err::<(TS, TS), Error>(failure(input, Expectation::Tag))
    } else {
        let body = input@.skip(open.len() as int);
        match closing(open, close, body, 0, 0) {
            Some(end) => r matches Ok((rest, region)) && end + close.len() <= body.len()
                && region@ == body.take(end as int) && rest@ == body.skip(
                (end + close.len()) as int,
            ) && (close.len() > 0 ==> nesting(open, close, region@, 0, 0) == Some(0nat)),
            None => r matches Err(e) && e.input@ == Seq::<Token>::empty() && e.kind
                == ErrorKind::Grammar && e.expectation == Expectation::Close && e.committed,
        }
    }
}

/// The parser that takes a region between an opening marker and the
/// closing marker that belongs to it, and hands out what is between them.
pub fn between_balanced<'a, 'src>(open: TS<'a, 'src>, close: TS<'a, 'src>) -> (parser: impl for <
    'b,
    'bsrc,
>Fn(TS<'b, 'bsrc>) -> IResult<'b, 'bsrc, TS<'b, 'bsrc>> + 'src)
    ensures
        forall|input: TS| #[trigger] call_requires(parser, (input,)),
        forall|input: TS, r: IResult<TS>| #[trigger]
            call_ensures(parser, (input,), r) ==> balanced(open@, close@, input, r),
{
    let open = slice_to_vec(open);
    let close = slice_to_vec(close);
    move |input: TS| -> (r: IResult<TS>)
        ensures
            balanced(open@, close@, input, r),
        {
            proof {
                assert(input@.skip(0) == input@);
            }
            if !begins_at(input, 0, open.as_slice()) {
                return Err(Error::new(input).with_context(Expectation::Tag));
            }
            let (_, body) = input.split_at(open.len());
            let len = body.len();
            let mut i: usize = 0;
            let mut depth: usize = 0;
            loop
                invariant
                    starts_with(input@, open@),
                    body@ == input@.skip(open@.len() as int),
                    len == body@.len(),
                    i <= body@.len(),
                    depth <= i,
                    closing(open@, close@, body@, 0, 0) == closing(
                        open@,
                        close@,
                        body@,
                        i as nat,
                        depth as nat,
                    ),
                decreases body@.len() - i, depth,
            {
                if open.len() > 0 && begins_at(body, i, open.as_slice()) {
                    i += open.len();
                    depth += 1;
                } else if begins_at(body, i, close.as_slice()) {
                    if depth == 0 {
                        let (region, tail) = body.split_at(i);
                        let (_, rest) = tail.split_at(close.len());
                        proof {
                            assert(rest@ == body@.skip((i + close@.len()) as int));
                            if close@.len() > 0 {
                                lemma_region_is_balanced(open@, close@, body@, 0, 0, i as nat);
                            }
                        }
                        return Ok((rest, region));
                    }
                    i += close.len();
                    depth -= 1;
                } else if i < len {
                    i += 1;
                } else {
                    let (_, end) = body.split_at(i);
                    proof {
                        assert(end@ == Seq::<Token>::empty());
                    }
                    return Err(
                        Error::new(end).with_context(Expectation::Close).commit(),
                    );
                }
            }
        }
}

} // verus!
