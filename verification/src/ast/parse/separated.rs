//! Lists of items between a beginning and an end, with a separator after
//! each item but, at will, the last.

use super::combinator::{failure, IResult};
use crate::ast::{kind_at, Error, Expectation, TS};
use vstd::prelude::*;

verus! {

/// The failure `e`, committed.
pub open spec fn committed<'a, 'src>(e: Error<'a, 'src>) -> Error<'a, 'src> {
    Error { committed: true, ..e }
}

/// Whether `r`, if it is a list, holds `item` at the index `k`.
pub open spec fn holds_at<'a, 'src, I>(r: IResult<'a, 'src, Vec<I>>, k: nat, item: I) -> bool {
    r matches Ok((_, items)) ==> k < items@.len() && items@[k as int] == item
}

/// Whether `r` is the list of `k` items that ends where `end` has taken the
/// end of the list at `at`.
pub open spec fn ends_at<'a, 'src, I, EP>(
    end: EP,
    at: TS<'a, 'src>,
    r: IResult<'a, 'src, Vec<I>>,
    k: nat,
) -> bool where EP: Fn(TS<'a, 'src>) -> IResult<'a, 'src, TS<'a, 'src>> {
    r matches Ok((rest, items)) && items@.len() == k && exists|o: TS<'a, 'src>| #[trigger]
        call_ensures(end, (at,), Ok::<(TS, TS), Error>((rest, o)))
}

/// Whether `parser` has refused the tokens at `at`.
pub open spec fn refuses<'a, 'src, P>(parser: P, at: TS<'a, 'src>) -> bool where
    P: Fn(TS<'a, 'src>) -> IResult<'a, 'src, TS<'a, 'src>>,
 {
    exists|e: Error<'a, 'src>| #[trigger] call_ensures(parser, (at,), Err::<(TS, TS), Error>(e))
}

/// Whether the item parser has refused the tokens at `cur` with the
/// failure `e`, which ends the list `r`, committed.
pub open spec fn item_failed<'a, 'src, I, IP>(
    item_parser: IP,
    cur: TS<'a, 'src>,
    r: IResult<'a, 'src, Vec<I>>,
    e: Error<'a, 'src>,
) -> bool where IP: Fn(TS<'a, 'src>) -> IResult<'a, 'src, I> {
    call_ensures(item_parser, (cur,), Err::<(TS, I), Error>(e)) && r == Err::<
        (TS, Vec<I>),
        Error,
    >(committed(e))
}

/// Whether the list `r` has gone through the item of index `k` in this way:
/// the item parser made `item` of the tokens at `cur` and left
/// `after_item`; the separator, found or not (`separated`), left `at`; and
/// from there the list went on as it must.
///
/// With the end found at `at` the list is complete, whether or not a
/// separator came before it. With a separator and no end the next item
/// follows (`next` says that the list goes on from `at` as it must), unless
/// item and separator together took no token. With neither, the list fails
/// at the place after the item.
pub open spec fn item_taken<'a, 'src, I, IP, SP, EP>(
    item_parser: IP,
    seperator: SP,
    end: EP,
    cur: TS<'a, 'src>,
    r: IResult<'a, 'src, Vec<I>>,
    k: nat,
    after_item: TS<'a, 'src>,
    item: I,
    at: TS<'a, 'src>,
    separated: bool,
    next: bool,
) -> bool where
    IP: Fn(TS<'a, 'src>) -> IResult<'a, 'src, I>,
    SP: Fn(TS<'a, 'src>) -> IResult<'a, 'src, TS<'a, 'src>>,
    EP: Fn(TS<'a, 'src>) -> IResult<'a, 'src, TS<'a, 'src>>,
 {
    &&& call_ensures(item_parser, (cur,), Ok::<(TS, I), Error>((after_item, item)))
    &&& holds_at(r, k, item)
    &&& stepped(seperator, after_item, at, separated)
    &&& {
        ||| ends_at(end, at, r, k + 1)
        ||| refuses(end, at) && if !separated {
            r == Err::<(TS, Vec<I>), Error>(
                committed(failure(after_item, Expectation::SeparatorOrEnd)),
            )
        } else if at@.len() >= cur@.len() {
            r == Err::<(TS, Vec<I>), Error>(committed(failure(at, Expectation::Progress)))
        } else {
            next
        }
    }
}

/// What becomes of a list whose item of index `k` is looked for at `cur`:
/// the item parser fails there, or it makes an item and the list goes on.
pub open spec fn listed_from<'a, 'src, I, IP, SP, EP>(
    item_parser: IP,
    seperator: SP,
    end: EP,
    cur: TS<'a, 'src>,
    r: IResult<'a, 'src, Vec<I>>,
    k: nat,
) -> bool where
    IP: Fn(TS<'a, 'src>) -> IResult<'a, 'src, I>,
    SP: Fn(TS<'a, 'src>) -> IResult<'a, 'src, TS<'a, 'src>>,
    EP: Fn(TS<'a, 'src>) -> IResult<'a, 'src, TS<'a, 'src>>,

    decreases cur@.len(),
{
    ||| exists|e: Error<'a, 'src>| #[trigger] item_failed(item_parser, cur, r, e)
    ||| exists|after_item: TS<'a, 'src>, item: I, at: TS<'a, 'src>, separated: bool|
        #![trigger
            call_ensures(item_parser, (cur,), Ok::<(TS, I), Error>((after_item, item))),
            stepped(seperator, after_item, at, separated),
        ]
        item_taken(
            item_parser,
            seperator,
            end,
            cur,
            r,
            k,
            after_item,
            item,
            at,
            separated,
            at@.len() < cur@.len() && listed_from(item_parser, seperator, end, at, r, k + 1),
        )
}

/// Whether `at` is where the separator leaves off after an item that ended
/// at `after_item`: behind the separator where it was found (`separated`),
/// else at `after_item` itself.
pub open spec fn stepped<'a, 'src, SP>(
    seperator: SP,
    after_item: TS<'a, 'src>,
    at: TS<'a, 'src>,
    separated: bool,
) -> bool where SP: Fn(TS<'a, 'src>) -> IResult<'a, 'src, TS<'a, 'src>> {
    if separated {
        exists|o: TS<'a, 'src>| #[trigger]
            call_ensures(seperator, (after_item,), Ok::<(TS, TS), Error>((at, o)))
    } else {
        refuses(seperator, after_item) && at == after_item
    }
}

/// After an item, where neither the separator nor the end of the list is
/// found, the list fails at the very place that the item parser left: what
/// was tried behind the item has taken nothing.
pub proof fn lemma_failure_after_item<'a, 'src: 'a, I, IP, SP, EP>(
    item_parser: IP,
    seperator: SP,
    end: EP,
    cur: TS<'a, 'src>,
    r: IResult<'a, 'src, Vec<I>>,
    k: nat,
    after_item: TS<'a, 'src>,
    item: I,
    at: TS<'a, 'src>,
    next: bool,
) where
    IP: Fn(TS<'a, 'src>) -> IResult<'a, 'src, I>,
    SP: Fn(TS<'a, 'src>) -> IResult<'a, 'src, TS<'a, 'src>>,
    EP: Fn(TS<'a, 'src>) -> IResult<'a, 'src, TS<'a, 'src>>,

    requires
        item_taken(item_parser, seperator, end, cur, r, k, after_item, item, at, false, next),
        r is Err,
    ensures
        at == after_item,
        r matches Err(e) && e.input == after_item && e.kind == kind_at(after_item@)
            && e.expectation == Expectation::SeparatorOrEnd && e.committed,
{
}

/// What `surround_seperated_items_allowed_trailing` makes of `input`: a
/// failure of `begin` as it is; the empty list where the end follows the
/// beginning at once; else the list of the items from there on.
pub open spec fn listed<'a, 'src, I, IP, SP, BP, EP>(
    item_parser: IP,
    seperator: SP,
    begin: BP,
    end: EP,
    input: TS<'a, 'src>,
    r: IResult<'a, 'src, Vec<I>>,
) -> bool where
    IP: Fn(TS<'a, 'src>) -> IResult<'a, 'src, I>,
    SP: Fn(TS<'a, 'src>) -> IResult<'a, 'src, TS<'a, 'src>>,
    BP: Fn(TS<'a, 'src>) -> IResult<'a, 'src, TS<'a, 'src>>,
    EP: Fn(TS<'a, 'src>) -> IResult<'a, 'src, TS<'a, 'src>>,
 {
    ||| exists|e: Error<'a, 'src>| #[trigger]
        call_ensures(begin, (input,), Err::<(TS, TS), Error>(e)) && r == Err::<
            (TS, Vec<I>),
            Error,
        >(e)
    ||| exists|first: TS<'a, 'src>, o: TS<'a, 'src>|
        {
            &&& #[trigger] call_ensures(begin, (input,), Ok::<(TS, TS), Error>((first, o)))
            &&& {
                ||| ends_at(end, first, r, 0)
                ||| refuses(end, first) && listed_from(item_parser, seperator, end, first, r, 0)
            }
        }
}

/// Whether the parser that `surround_seperated_items_allowed_trailing`
/// hands out may be called on `input`: `begin` takes `input`, the item
/// parser takes whatever is no longer than what `begin` leaves, and the
/// separator and the end take anything.
pub open spec fn listable<'a, 'src, I, IP, SP, BP, EP>(
    item_parser: IP,
    seperator: SP,
    begin: BP,
    end: EP,
    input: TS<'a, 'src>,
) -> bool where
    IP: Fn(TS<'a, 'src>) -> IResult<'a, 'src, I>,
    SP: Fn(TS<'a, 'src>) -> IResult<'a, 'src, TS<'a, 'src>>,
    BP: Fn(TS<'a, 'src>) -> IResult<'a, 'src, TS<'a, 'src>>,
    EP: Fn(TS<'a, 'src>) -> IResult<'a, 'src, TS<'a, 'src>>,
 {
    &&& call_requires(begin, (input,))
    &&& forall|at: TS<'a, 'src>| #[trigger] call_requires(seperator, (at,))
    &&& forall|at: TS<'a, 'src>| #[trigger] call_requires(end, (at,))
    &&& forall|first: TS<'a, 'src>, o: TS<'a, 'src>, at: TS<'a, 'src>|
        #![trigger call_ensures(begin, (input,), Ok::<(TS, TS), Error>((first, o))), call_requires(item_parser, (at,))]
        call_ensures(begin, (input,), Ok::<(TS, TS), Error>((first, o))) && at@.len()
            <= first@.len() ==> call_requires(item_parser, (at,))
}

/// Whether `r`, if it is a list, begins with the items `items`.
pub open spec fn begins_with<'a, 'src, I>(r: IResult<'a, 'src, Vec<I>>, items: Seq<I>) -> bool {
    r matches Ok((_, all)) ==> items.len() <= all@.len() && forall|j: int|
        0 <= j < items.len() ==> all@[j] == items[j]
}

/// The parser of a list: `begin`, then items, each followed by `seperator`
/// but, at will, the last, then `end`.
pub fn surround_seperated_items_allowed_trailing<'a, 'src: 'a, I, IP, SP, BP, EP>(
    item_parser: IP,
    seperator: SP,
    begin: BP,
    end: EP,
) -> (parser: impl Fn(TS<'a, 'src>) -> IResult<'a, 'src, Vec<I>>) where
    IP: Fn(TS<'a, 'src>) -> IResult<'a, 'src, I>,
    SP: Fn(TS<'a, 'src>) -> IResult<'a, 'src, TS<'a, 'src>>,
    BP: Fn(TS<'a, 'src>) -> IResult<'a, 'src, TS<'a, 'src>>,
    EP: Fn(TS<'a, 'src>) -> IResult<'a, 'src, TS<'a, 'src>>,

    ensures
        forall|input: TS<'a, 'src>|
            listable(item_parser, seperator, begin, end, input) ==> #[trigger] call_requires(
                parser,
                (input,),
            ),
        forall|input: TS<'a, 'src>, r: IResult<'a, 'src, Vec<I>>| #[trigger]
            call_ensures(parser, (input,), r) ==> listed(
                item_parser,
                seperator,
                begin,
                end,
                input,
                r,
            ),
{
    move |input: TS<'a, 'src>| -> (r: IResult<'a, 'src, Vec<I>>)
        requires
            listable(item_parser, seperator, begin, end, input),
        ensures
            listed(item_parser, seperator, begin, end, input, r),
        {
            let mut vec: Vec<I> = Vec::new();
            let first = match begin(input) {
                Ok((first, begun)) => {
                    assert(call_ensures(begin, (input,), Ok::<(TS, TS), Error>((first, begun))));
                    first
                },
                Err(e) => {
                    return Err(e);
                },
            };
            match end(first) {
                Ok((rest, ended)) => {
                    let r: IResult<'a, 'src, Vec<I>> = Ok((rest, vec));
                    proof {
                        assert(call_ensures(end, (first,), Ok::<(TS, TS), Error>((rest, ended))));
                        assert(r matches Ok((left, items)) && left == rest && items@.len() == 0);
                        assert(ends_at(end, first, r, 0));
                    }
                    return r;
                },
                Err(e) => {
                    assert(call_ensures(end, (first,), Err::<(TS, TS), Error>(e)));
                },
            }
            let mut l_input = first;
            loop
                invariant
                    listable(item_parser, seperator, begin, end, input),
                    exists|o: TS<'a, 'src>| #[trigger]
                        call_ensures(begin, (input,), Ok::<(TS, TS), Error>((first, o))),
                    refuses(end, first),
                    l_input@.len() <= first@.len(),
                    forall|r: IResult<'a, 'src, Vec<I>>|
                        #![trigger listed_from(item_parser, seperator, end, l_input, r, vec@.len())]
                        begins_with(r, vec@) && listed_from(
                            item_parser,
                            seperator,
                            end,
                            l_input,
                            r,
                            vec@.len(),
                        ) ==> listed_from(item_parser, seperator, end, first, r, 0),
                decreases l_input@.len(),
            {
                let cur = l_input;
                let ghost before = vec@;
                let (after_item, output) = match item_parser(cur) {
                    Ok(found) => found,
                    Err(e) => {
                        let r: IResult<'a, 'src, Vec<I>> = Err(e.commit());
                        proof {
                            assert(item_failed(item_parser, cur, r, e));
                            assert(listed_from(item_parser, seperator, end, cur, r, before.len()));
                        }
                        return r;
                    },
                };
                let ghost item = output;
                vec.push(output);
                let (at, is_seperator) = match seperator(after_item) {
                    Ok((at, found)) => {
                        assert(call_ensures(
                            seperator,
                            (after_item,),
                            Ok::<(TS, TS), Error>((at, found)),
                        ));
                        (at, true)
                    },
                    Err(e) => {
                        assert(call_ensures(seperator, (after_item,), Err::<(TS, TS), Error>(e)));
                        (after_item, false)
                    },
                };
                proof {
                    assert(stepped(seperator, after_item, at, is_seperator));
                }
                match end(at) {
                    Ok((rest, ended)) => {
                        let ghost pushed = vec@;
                        let r: IResult<'a, 'src, Vec<I>> = Ok((rest, vec));
                        proof {
                            assert(call_ensures(end, (at,), Ok::<(TS, TS), Error>((rest, ended))));
                            assert(r matches Ok((left, items)) && left == rest && items@
                                == pushed);
                            assert(ends_at(end, at, r, before.len() + 1));
                            assert(holds_at(r, before.len(), item));
                            assert(item_taken(
                                item_parser,
                                seperator,
                                end,
                                cur,
                                r,
                                before.len(),
                                after_item,
                                item,
                                at,
                                is_seperator,
                                false,
                            ));
                            assert(listed_from(item_parser, seperator, end, cur, r, before.len()));
                        }
                        return r;
                    },
                    Err(e) => {
                        assert(call_ensures(end, (at,), Err::<(TS, TS), Error>(e)));
                    },
                }
                proof {
                    assert(refuses(end, at));
                }
                if !is_seperator {
                    let r: IResult<'a, 'src, Vec<I>> = Err(
                        Error::new(after_item).with_context(Expectation::SeparatorOrEnd).commit(),
                    );
                    proof {
                        assert(holds_at(r, before.len(), item));
                        assert(item_taken(
                            item_parser,
                            seperator,
                            end,
                            cur,
                            r,
                            before.len(),
                            after_item,
                            item,
                            at,
                            is_seperator,
                            false,
                        ));
                        assert(listed_from(item_parser, seperator, end, cur, r, before.len()));
                    }
                    return r;
                }
                if at.len() >= cur.len() {
                    let r: IResult<'a, 'src, Vec<I>> = Err(
                        Error::new(at).with_context(Expectation::Progress).commit(),
                    );
                    proof {
                        assert(holds_at(r, before.len(), item));
                        assert(item_taken(
                            item_parser,
                            seperator,
                            end,
                            cur,
                            r,
                            before.len(),
                            after_item,
                            item,
                            at,
                            is_seperator,
                            false,
                        ));
                        assert(listed_from(item_parser, seperator, end, cur, r, before.len()));
                    }
                    return r;
                }
                proof {
                    assert forall|r: IResult<'a, 'src, Vec<I>>|
                        begins_with(r, vec@) && #[trigger] listed_from(
                            item_parser,
                            seperator,
                            end,
                            at,
                            r,
                            vec@.len(),
                        ) implies listed_from(item_parser, seperator, end, first, r, 0) by {
                        assert(holds_at(r, before.len(), item)) by {
                            if let Ok((_, all)) = r {
                                assert(all@[before.len() as int] == vec@[before.len() as int]);
                            }
                        }
                        assert(begins_with(r, before)) by {
                            if let Ok((_, all)) = r {
                                assert forall|j: int| 0 <= j < before.len() implies all@[j]
                                    == before[j] by {
                                    assert(vec@[j] == before[j]);
                                }
                            }
                        }
                        assert(item_taken(
                            item_parser,
                            seperator,
                            end,
                            cur,
                            r,
                            before.len(),
                            after_item,
                            item,
                            at,
                            is_seperator,
                            at@.len() < cur@.len() && listed_from(
                                item_parser,
                                seperator,
                                end,
                                at,
                                r,
                                before.len() + 1,
                            ),
                        ));
                        assert(listed_from(item_parser, seperator, end, cur, r, before.len()));
                    }
                }
                l_input = at;
            }
        }
}

} // verus!
