//! Lists: repetition of one parser with another one between the matches.

use vstd::prelude::*;
use crate::collect::Collector;
use crate::combinators::{never_rewinds, productive, total};
use crate::combinators::repeat::{
    collected, ends_unmatched, input_at, matched, prepended, values,
};
use crate::input::Input;
use crate::result::ParseResult;

verus! {

/// Outcome `k` of `outs` is one that the element parser `p` can produce on
/// the input that separator `k - 1` left, or on `start` for the first
/// element.
pub open spec fn element<'a, I, T, E, U, N, P>(
    p: P,
    start: Input<'a, I>,
    outs: Seq<ParseResult<'a, I, T, E>>,
    seps: Seq<ParseResult<'a, I, U, N>>,
    k: int,
) -> bool where P: FnOnce(Input<'a, I>) -> ParseResult<'a, I, T, E> {
    p.ensures((input_at(start, seps, k),), outs[k])
}

/// Outcome `k` of `seps` is one that the separator parser `sep` can produce
/// on the input that element `k` left.
pub open spec fn separator<'a, I, T, E, U, N, S>(
    sep: S,
    outs: Seq<ParseResult<'a, I, T, E>>,
    seps: Seq<ParseResult<'a, I, U, N>>,
    k: int,
) -> bool where S: FnOnce(Input<'a, I>) -> ParseResult<'a, I, U, N> {
    sep.ensures((outs[k].rest(),), seps[k])
}

/// Every outcome of `outs` is one that `p` can produce where the separator
/// before it left off, and every one that has a successor is a match.
pub open spec fn elements_follow<'a, I, T, E, U, N, P>(
    p: P,
    start: Input<'a, I>,
    outs: Seq<ParseResult<'a, I, T, E>>,
    seps: Seq<ParseResult<'a, I, U, N>>,
) -> bool where P: FnOnce(Input<'a, I>) -> ParseResult<'a, I, T, E> {
    forall|k: int|
        0 <= k < outs.len() ==> #[trigger] element(p, start, outs, seps, k) && (k + 1 < outs.len()
            ==> outs[k].classified() is Success)
}

/// Every outcome of `seps` is one that `sep` can produce where the element
/// before it left off, and every one that has a successor is a match.
pub open spec fn separators_follow<'a, I, T, E, U, N, S>(
    sep: S,
    outs: Seq<ParseResult<'a, I, T, E>>,
    seps: Seq<ParseResult<'a, I, U, N>>,
) -> bool where S: FnOnce(Input<'a, I>) -> ParseResult<'a, I, U, N> {
    forall|k: int|
        0 <= k < seps.len() ==> #[trigger] separator(sep, outs, seps, k) && (k + 1 < seps.len()
            ==> seps[k].classified() is Success)
}

/// `outs` and `seps` record the attempts at elements and at separators, in
/// turn, each where the preceding attempt left off.
pub open spec fn is_alternating<'a, I, T, E, U, N, P, S>(
    p: P,
    sep: S,
    start: Input<'a, I>,
    outs: Seq<ParseResult<'a, I, T, E>>,
    seps: Seq<ParseResult<'a, I, U, N>>,
) -> bool where
    P: FnOnce(Input<'a, I>) -> ParseResult<'a, I, T, E>,
    S: FnOnce(Input<'a, I>) -> ParseResult<'a, I, U, N>,
 {
    &&& elements_follow(p, start, outs, seps)
    &&& separators_follow(sep, outs, seps)
}

/// `outs` and `seps` record a whole run of a separated list from `start`:
/// element, separator, element, and so on, over with the first attempt of
/// either kind that is not a match.
pub open spec fn is_list<'a, I, T, E, U, N, P, S>(
    p: P,
    sep: S,
    start: Input<'a, I>,
    outs: Seq<ParseResult<'a, I, T, E>>,
    seps: Seq<ParseResult<'a, I, U, N>>,
) -> bool where
    P: FnOnce(Input<'a, I>) -> ParseResult<'a, I, T, E>,
    S: FnOnce(Input<'a, I>) -> ParseResult<'a, I, U, N>,
 {
    &&& outs.len() > 0
    &&& is_alternating(p, sep, start, outs, seps)
    &&& if ends_unmatched(outs) {
        seps.len() + 1 == outs.len() && !ends_unmatched(seps)
    } else {
        seps.len() == outs.len() && ends_unmatched(seps)
    }
}

/// What a separated list makes of the whole run `outs`, `seps`.
///
/// Once an element has matched, the list is the elements that matched,
/// whatever ended the run, and the input is what the last of them left: a
/// separator that matched with no element behind it is not consumed, and
/// running out of input behind an element does not give the element up.
/// Before any element has matched, a definite failure of the first attempt is
/// an empty list, or that failure if the list has to have an element, either
/// on the input as it was; and `Incomplete` is `Incomplete`.
pub open spec fn list_result<'a, I, T, E, U, N>(
    start: Input<'a, I>,
    at_least_one: bool,
    outs: Seq<ParseResult<'a, I, T, E>>,
    seps: Seq<ParseResult<'a, I, U, N>>,
) -> ParseResult<'a, I, Seq<T>, E> {
    let n = matched(outs);
    let list = ParseResult::Success(input_at(start, outs, n), values(outs, n));
    if n > 0 {
        list
    } else {
        match outs.last().classified() {
            ParseResult::Incomplete(hint) => ParseResult::Incomplete(hint),
            ParseResult::Error(_, e) => if at_least_one {
                ParseResult::Error(start, e)
            } else {
                list
            },
            ParseResult::Success(_, _) => arbitrary(),
        }
    }
}

/// What makes a list end: each round of separator and element consumes at
/// least one token, because the element does and the separator does not give
/// any back, or the other way round.
pub open spec fn rounds_consume<'a, I: 'a, T, E, U, N, P, S>(p: P, sep: S) -> bool where
    P: FnOnce(Input<'a, I>) -> ParseResult<'a, I, T, E>,
    S: FnOnce(Input<'a, I>) -> ParseResult<'a, I, U, N>,
 {
    ||| productive(p) && never_rewinds(sep)
    ||| never_rewinds(p) && productive(sep)
}

/// Whether `s` is a result of parsing a list of `p` separated by `sep` from
/// `start`.
pub open spec fn separates<'a, I, T, E, U, N, P, S>(
    p: P,
    sep: S,
    start: Input<'a, I>,
    at_least_one: bool,
    s: ParseResult<'a, I, Seq<T>, E>,
) -> bool where
    P: FnOnce(Input<'a, I>) -> ParseResult<'a, I, T, E>,
    S: FnOnce(Input<'a, I>) -> ParseResult<'a, I, U, N>,
 {
    exists|outs: Seq<ParseResult<'a, I, T, E>>, seps: Seq<ParseResult<'a, I, U, N>>| #[trigger]
        is_list(p, sep, start, outs, seps) && s == list_result(start, at_least_one, outs, seps)
}

/// Recording the attempt at a separator behind the last element keeps what
/// was recorded before.
proof fn lemma_separator_push<'a, I, T, E, U, N, P, S>(
    p: P,
    sep: S,
    start: Input<'a, I>,
    outs: Seq<ParseResult<'a, I, T, E>>,
    seps: Seq<ParseResult<'a, I, U, N>>,
    os: ParseResult<'a, I, U, N>,
) where
    P: FnOnce(Input<'a, I>) -> ParseResult<'a, I, T, E>,
    S: FnOnce(Input<'a, I>) -> ParseResult<'a, I, U, N>,

    requires
        is_alternating(p, sep, start, outs, seps),
        outs.len() == seps.len() + 1,
        !ends_unmatched(seps),
        sep.ensures((outs.last().rest(),), os),
    ensures
        is_alternating(p, sep, start, outs, seps.push(os)),
{
    let seps2 = seps.push(os);
    assert forall|k: int| 0 <= k < outs.len() implies #[trigger] element(p, start, outs, seps2, k)
        && (k + 1 < outs.len() ==> outs[k].classified() is Success) by {
        assert(element(p, start, outs, seps, k));
        assert(input_at(start, seps2, k) == input_at(start, seps, k));
    }
    assert forall|k: int| 0 <= k < seps2.len() implies #[trigger] separator(sep, outs, seps2, k)
        && (k + 1 < seps2.len() ==> seps2[k].classified() is Success) by {
        if k < seps.len() {
            assert(separator(sep, outs, seps, k));
            assert(seps2[k] == seps[k]);
        }
    }
    assert(elements_follow(p, start, outs, seps2));
    assert(separators_follow(sep, outs, seps2));
}

/// Recording the attempt at an element behind a separator that matched keeps
/// what was recorded before.
proof fn lemma_element_push<'a, I, T, E, U, N, P, S>(
    p: P,
    sep: S,
    start: Input<'a, I>,
    outs: Seq<ParseResult<'a, I, T, E>>,
    seps: Seq<ParseResult<'a, I, U, N>>,
    o: ParseResult<'a, I, T, E>,
) where
    P: FnOnce(Input<'a, I>) -> ParseResult<'a, I, T, E>,
    S: FnOnce(Input<'a, I>) -> ParseResult<'a, I, U, N>,

    requires
        is_alternating(p, sep, start, outs, seps),
        outs.len() == seps.len() > 0,
        !ends_unmatched(outs),
        !ends_unmatched(seps),
        p.ensures((seps.last().rest(),), o),
    ensures
        is_alternating(p, sep, start, outs.push(o), seps),
        values(outs.push(o), outs.len() as int) == values(outs, outs.len() as int),
        input_at(start, outs.push(o), outs.len() as int) == outs.last().rest(),
        o.classified() is Success ==> values(outs.push(o), outs.len() as int + 1) == values(
            outs,
            outs.len() as int,
        ).push(o.value()),
{
    let outs2 = outs.push(o);
    assert forall|k: int| 0 <= k < outs2.len() implies #[trigger] element(p, start, outs2, seps, k)
        && (k + 1 < outs2.len() ==> outs2[k].classified() is Success) by {
        if k < outs.len() {
            assert(element(p, start, outs, seps, k));
            assert(outs2[k] == outs[k]);
        } else {
            assert(input_at(start, seps, k) == seps.last().rest());
        }
    }
    assert(elements_follow(p, start, outs2, seps));
    assert forall|k: int| 0 <= k < seps.len() implies #[trigger] separator(sep, outs2, seps, k)
        && (k + 1 < seps.len() ==> seps[k].classified() is Success) by {
        assert(separator(sep, outs, seps, k));
        assert(outs2[k] == outs[k]);
    }
    assert(separators_follow(sep, outs2, seps));
    assert(outs2[outs.len() - 1] == outs.last());
    assert(values(outs2, outs.len() as int) =~= values(outs, outs.len() as int));
    assert(values(outs2, outs.len() as int + 1) =~= values(outs, outs.len() as int).push(
        o.value(),
    ));
}

/// The loop behind both forms of separated list.
fn separated<'a, I, T, E, U, N, C, P, S>(i: Input<'a, I>, p: P, sep: S, at_least_one: bool) -> (r:
    ParseResult<'a, I, C, E>) where
    P: FnMut(Input<'a, I>) -> ParseResult<'a, I, T, E>,
    S: FnMut(Input<'a, I>) -> ParseResult<'a, I, U, N>,
    C: Collector<T>,

    requires
        total(p),
        total(sep),
        rounds_consume(p, sep),
    ensures
        separates(p, sep, i, at_least_one, collected(r)),
{
    let mut acc = C::start();
    let mut item = p;
    let mut between = sep;
    let ghost none: Seq<ParseResult<'a, I, U, N>> = Seq::empty();
    let first_mark = i.mark();
    proof {
        use_type_invariant(&i);
    }
    let raw_first = item(i);
    let ghost first = raw_first;
    let ghost one = seq![first];
    proof {
        assert(values(one, 0) =~= Seq::<T>::empty());
        assert(values(one, 1) =~= Seq::<T>::empty().push(first.value()));
        assert forall|k: int| 0 <= k < one.len() implies #[trigger] element(p, i, one, none, k)
            && (k + 1 < one.len() ==> one[k].classified() is Success) by {}
        assert(is_alternating(p, sep, i, one, none));
    }
    let mut cur = match raw_first.classify() {
        ParseResult::Success(rest, t) => {
            acc.append(t);
            rest
        },
        ParseResult::Error(rest, e) => {
            let back = rest.restore(first_mark);
            let r = if at_least_one {
                ParseResult::Error(back, e)
            } else {
                ParseResult::Success(back, acc)
            };
            proof {
                assert(is_list(p, sep, i, one, none));
                assert(collected(r) == list_result(i, at_least_one, one, none));
            }
            return r;
        },
        ParseResult::Incomplete(hint) => {
            let r = ParseResult::Incomplete(hint);
            proof {
                assert(is_list(p, sep, i, one, none));
                assert(collected(r) == list_result(i, at_least_one, one, none));
            }
            return r;
        },
    };
    let ghost mut outs: Seq<ParseResult<'a, I, T, E>> = one;
    let ghost mut seps: Seq<ParseResult<'a, I, U, N>> = none;
    proof {
        use_type_invariant(&cur);
    }
    loop
        invariant
            item == p,
            between == sep,
            total(p),
            total(sep),
            rounds_consume(p, sep),
            is_alternating(p, sep, i, outs, seps),
            outs.len() == seps.len() + 1,
            !ends_unmatched(outs),
            !ends_unmatched(seps),
            cur == outs.last().rest(),
            acc.items() == values(outs, outs.len() as int),
            cur@.wf(),
        decreases cur@.left(),
    {
        let m = cur.mark();
        let raw_sep = between(cur);
        let ghost os = raw_sep;
        proof {
            lemma_separator_push(p, sep, i, outs, seps, os);
            seps = seps.push(os);
        }
        let after = match raw_sep.classify() {
            ParseResult::Success(rest, _) => rest,
            ParseResult::Error(rest, _) => {
                let r = ParseResult::Success(rest.restore(m), acc);
                proof {
                    assert(is_list(p, sep, i, outs, seps));
                    assert(collected(r) == list_result(i, at_least_one, outs, seps));
                }
                return r;
            },
            ParseResult::Incomplete(_) => {
                let r = ParseResult::Success(m.input(), acc);
                proof {
                    assert(is_list(p, sep, i, outs, seps));
                    assert(collected(r) == list_result(i, at_least_one, outs, seps));
                }
                return r;
            },
        };
        proof {
            use_type_invariant(&after);
            assert(after == os.rest());
        }
        let raw = item(after);
        let ghost o = raw;
        proof {
            lemma_element_push(p, sep, i, outs, seps, o);
            outs = outs.push(o);
        }
        match raw.classify() {
            ParseResult::Success(rest, t) => {
                proof {
                    use_type_invariant(&rest);
                    assert(rest == o.rest());
                }
                acc.append(t);
                cur = rest;
            },
            ParseResult::Error(rest, _) => {
                let r = ParseResult::Success(rest.restore(m), acc);
                proof {
                    assert(is_list(p, sep, i, outs, seps));
                    assert(collected(r) == list_result(i, at_least_one, outs, seps));
                }
                return r;
            },
            ParseResult::Incomplete(_) => {
                let r = ParseResult::Success(m.input(), acc);
                proof {
                    assert(is_list(p, sep, i, outs, seps));
                    assert(collected(r) == list_result(i, at_least_one, outs, seps));
                }
                return r;
            },
        }
    }
}

/// Parses a list of `p` with `sep` between the elements; the list may be
/// empty. A separator with no element behind it does not belong to the list
/// and is not consumed.
///
/// `Incomplete` from the first attempt at an element is passed on. Once an
/// element has matched, `Incomplete` from either parser ends the list like a
/// failure does: the elements found so far are the result.
///
/// Each round of separator and element must consume at least one token: `p`
/// must consume whenever it matches and `sep` must not leave more input than
/// it was given, or the other way round.
pub fn sep_by<'a, I, T, E, U, N, C, P, S>(i: Input<'a, I>, p: P, sep: S) -> (r: ParseResult<
    'a,
    I,
    C,
    E,
>) where
    P: FnMut(Input<'a, I>) -> ParseResult<'a, I, T, E>,
    S: FnMut(Input<'a, I>) -> ParseResult<'a, I, U, N>,
    C: Collector<T>,

    requires
        total(p),
        total(sep),
        rounds_consume(p, sep),
    ensures
        separates(p, sep, i, false, collected(r)),
{
    separated(i, p, sep, false)
}

/// Like [`sep_by`], but the list has at least one element: if the first
/// attempt at `p` definitely fails, that failure is the result, on the input
/// as it was.
///
/// Each round of separator and element must consume at least one token, as
/// for [`sep_by`].
pub fn sep_by1<'a, I, T, E, U, N, C, P, S>(i: Input<'a, I>, p: P, sep: S) -> (r: ParseResult<
    'a,
    I,
    C,
    E,
>) where
    P: FnMut(Input<'a, I>) -> ParseResult<'a, I, T, E>,
    S: FnMut(Input<'a, I>) -> ParseResult<'a, I, U, N>,
    C: Collector<T>,

    requires
        total(p),
        total(sep),
        rounds_consume(p, sep),
    ensures
        separates(p, sep, i, true, collected(r)),
{
    separated(i, p, sep, true)
}

/// When the first attempt at an element definitely fails, a list that may be
/// empty matches with no elements, and a list that needs an element is that
/// failure; either way on the input as it was, and no separator is tried.
pub proof fn lemma_list_first_failure<'a, I, T, E, U, N, P, S>(
    p: P,
    sep: S,
    i: Input<'a, I>,
    at_least_one: bool,
    outs: Seq<ParseResult<'a, I, T, E>>,
    seps: Seq<ParseResult<'a, I, U, N>>,
) where
    P: FnOnce(Input<'a, I>) -> ParseResult<'a, I, T, E>,
    S: FnOnce(Input<'a, I>) -> ParseResult<'a, I, U, N>,

    requires
        is_list(p, sep, i, outs, seps),
        outs[0].classified() matches ParseResult::Error(_, _),
    ensures
        outs.len() == 1,
        seps.len() == 0,
        list_result(i, at_least_one, outs, seps) == if at_least_one {
            ParseResult::<'a, I, Seq<T>, E>::Error(i, outs[0].classified()->Error_1)
        } else {
            ParseResult::<'a, I, Seq<T>, E>::Success(i, Seq::empty())
        },
{
    assert(element(p, i, outs, seps, 0));
    assert(values(outs, 0) =~= Seq::<T>::empty());
}

/// A list that may be empty never reports a definite failure. No list
/// reports a failure or `Incomplete` once an element has matched. A list that
/// matched holds exactly the elements that matched, and leaves the input
/// that the last of them left, or the input it started from if there is
/// none: no separator is consumed behind the last element.
pub proof fn lemma_list_ends_after_element<'a, I, T, E, U, N, P, S>(
    p: P,
    sep: S,
    i: Input<'a, I>,
    at_least_one: bool,
    outs: Seq<ParseResult<'a, I, T, E>>,
    seps: Seq<ParseResult<'a, I, U, N>>,
) where
    P: FnOnce(Input<'a, I>) -> ParseResult<'a, I, T, E>,
    S: FnOnce(Input<'a, I>) -> ParseResult<'a, I, U, N>,

    requires
        is_list(p, sep, i, outs, seps),
    ensures
        !at_least_one ==> !(list_result(i, at_least_one, outs, seps) is Error),
        list_result(i, at_least_one, outs, seps) is Error ==> matched(outs) == 0
            && outs[0].classified() is Error,
        list_result(i, at_least_one, outs, seps) is Incomplete ==> matched(outs) == 0
            && outs[0].classified() is Incomplete,
        list_result(i, at_least_one, outs, seps) matches ParseResult::Success(rest, items) ==> {
            &&& items.len() == matched(outs)
            &&& at_least_one ==> items.len() > 0
            &&& forall|k: int| 0 <= k < items.len() ==> items[k] == outs[k].value()
            &&& rest == if items.len() == 0 {
                i
            } else {
                outs[items.len() - 1].rest()
            }
        },
{
}

/// Outcome `k` of `seps` is one that `sep` can produce where element `k - 1`
/// of `outs` left off, or on `cur` for the first separator.
pub open spec fn next_separator<'a, I, T, E, U, N, S>(
    sep: S,
    cur: Input<'a, I>,
    outs: Seq<ParseResult<'a, I, T, E>>,
    seps: Seq<ParseResult<'a, I, U, N>>,
    k: int,
) -> bool where S: FnOnce(Input<'a, I>) -> ParseResult<'a, I, U, N> {
    sep.ensures((input_at(cur, outs, k),), seps[k])
}

/// Outcome `k` of `outs` is one that `p` can produce where separator `k` of
/// `seps` left off.
pub open spec fn next_element<'a, I, T, E, U, N, P>(
    p: P,
    outs: Seq<ParseResult<'a, I, T, E>>,
    seps: Seq<ParseResult<'a, I, U, N>>,
    k: int,
) -> bool where P: FnOnce(Input<'a, I>) -> ParseResult<'a, I, T, E> {
    p.ensures((seps[k].rest(),), outs[k])
}

/// Every outcome of `seps` is one that `sep` can produce behind the element
/// before it, and every one that has a successor is a match.
pub open spec fn separators_go_on<'a, I, T, E, U, N, S>(
    sep: S,
    cur: Input<'a, I>,
    outs: Seq<ParseResult<'a, I, T, E>>,
    seps: Seq<ParseResult<'a, I, U, N>>,
) -> bool where S: FnOnce(Input<'a, I>) -> ParseResult<'a, I, U, N> {
    forall|k: int|
        0 <= k < seps.len() ==> #[trigger] next_separator(sep, cur, outs, seps, k) && (k + 1
            < seps.len() ==> seps[k].classified() is Success)
}

/// Every outcome of `outs` is one that `p` can produce behind its separator,
/// and every one that has a successor is a match.
pub open spec fn elements_go_on<'a, I, T, E, U, N, P>(
    p: P,
    outs: Seq<ParseResult<'a, I, T, E>>,
    seps: Seq<ParseResult<'a, I, U, N>>,
) -> bool where P: FnOnce(Input<'a, I>) -> ParseResult<'a, I, T, E> {
    forall|k: int|
        0 <= k < outs.len() ==> #[trigger] next_element(p, outs, seps, k) && (k + 1 < outs.len()
            ==> outs[k].classified() is Success)
}

/// `outs` and `seps` record how a list goes on behind an element that left
/// `cur`: separator, element, separator, and so on, over with the first
/// attempt of either kind that is not a match.
pub open spec fn is_rest_of_list<'a, I, T, E, U, N, P, S>(
    p: P,
    sep: S,
    cur: Input<'a, I>,
    outs: Seq<ParseResult<'a, I, T, E>>,
    seps: Seq<ParseResult<'a, I, U, N>>,
) -> bool where
    P: FnOnce(Input<'a, I>) -> ParseResult<'a, I, T, E>,
    S: FnOnce(Input<'a, I>) -> ParseResult<'a, I, U, N>,
 {
    &&& seps.len() > 0
    &&& separators_go_on(sep, cur, outs, seps)
    &&& elements_go_on(p, outs, seps)
    &&& if ends_unmatched(seps) {
        outs.len() + 1 == seps.len() && !ends_unmatched(outs)
    } else {
        outs.len() == seps.len() && ends_unmatched(outs)
    }
}

/// What the rest of a list comes to, whatever ended it: the elements that
/// matched, on the input that the last of them left, or on `cur` if there is
/// none.
pub open spec fn rest_of_list_result<'a, I, T, E>(
    cur: Input<'a, I>,
    outs: Seq<ParseResult<'a, I, T, E>>,
) -> ParseResult<'a, I, Seq<T>, E> {
    let n = matched(outs);
    ParseResult::Success(input_at(cur, outs, n), values(outs, n))
}

/// Whether `tail` is a result of going on with a list of `p` separated by
/// `sep` behind an element that left `cur`.
pub open spec fn goes_on<'a, I, T, E, U, N, P, S>(
    p: P,
    sep: S,
    cur: Input<'a, I>,
    tail: ParseResult<'a, I, Seq<T>, E>,
) -> bool where
    P: FnOnce(Input<'a, I>) -> ParseResult<'a, I, T, E>,
    S: FnOnce(Input<'a, I>) -> ParseResult<'a, I, U, N>,
 {
    exists|outs: Seq<ParseResult<'a, I, T, E>>, seps: Seq<ParseResult<'a, I, U, N>>| #[trigger]
        is_rest_of_list(p, sep, cur, outs, seps) && tail == rest_of_list_result(cur, outs)
}

/// Whether `s` is a result of a list from `i` whose first attempt at an
/// element had the outcome `o`: after a match, the match followed by the rest
/// of the list; after a definite failure, an empty list, or the failure if
/// the list needs an element, either on `i`; after `Incomplete`, that.
pub open spec fn list_after_first<'a, I, T, E, U, N, P, S>(
    p: P,
    sep: S,
    i: Input<'a, I>,
    at_least_one: bool,
    o: ParseResult<'a, I, T, E>,
    s: ParseResult<'a, I, Seq<T>, E>,
) -> bool where
    P: FnOnce(Input<'a, I>) -> ParseResult<'a, I, T, E>,
    S: FnOnce(Input<'a, I>) -> ParseResult<'a, I, U, N>,
 {
    match o.classified() {
        ParseResult::Success(rest, v) => exists|tail: ParseResult<'a, I, Seq<T>, E>| #[trigger]
            goes_on(p, sep, rest, tail) && s == prepended(v, tail),
        ParseResult::Error(_, e) => s == if at_least_one {
            ParseResult::<'a, I, Seq<T>, E>::Error(i, e)
        } else {
            ParseResult::<'a, I, Seq<T>, E>::Success(i, Seq::empty())
        },
        ParseResult::Incomplete(hint) => s == ParseResult::<'a, I, Seq<T>, E>::Incomplete(hint),
    }
}

/// Whether `tail` is a result of the rest of a list behind `cur` when the
/// separator matched there and the attempt at an element behind it had the
/// outcome `o`: after a match, the match followed by the rest of the list;
/// after anything else, nothing more, on `cur`, with the separator not
/// consumed.
pub open spec fn goes_on_after_element<'a, I, T, E, U, N, P, S>(
    p: P,
    sep: S,
    cur: Input<'a, I>,
    o: ParseResult<'a, I, T, E>,
    tail: ParseResult<'a, I, Seq<T>, E>,
) -> bool where
    P: FnOnce(Input<'a, I>) -> ParseResult<'a, I, T, E>,
    S: FnOnce(Input<'a, I>) -> ParseResult<'a, I, U, N>,
 {
    match o.classified() {
        ParseResult::Success(rest, v) => exists|more: ParseResult<'a, I, Seq<T>, E>| #[trigger]
            goes_on(p, sep, rest, more) && tail == prepended(v, more),
        _ => tail == ParseResult::<'a, I, Seq<T>, E>::Success(cur, Seq::empty()),
    }
}

/// Whether `tail` is a result of the rest of a list behind `cur` when the
/// attempt at a separator there had the outcome `os`: after a match, whatever
/// follows from an attempt at an element behind it; after anything else,
/// nothing more, on `cur`.
pub open spec fn goes_on_after_separator<'a, I, T, E, U, N, P, S>(
    p: P,
    sep: S,
    cur: Input<'a, I>,
    os: ParseResult<'a, I, U, N>,
    tail: ParseResult<'a, I, Seq<T>, E>,
) -> bool where
    P: FnOnce(Input<'a, I>) -> ParseResult<'a, I, T, E>,
    S: FnOnce(Input<'a, I>) -> ParseResult<'a, I, U, N>,
 {
    match os.classified() {
        ParseResult::Success(after, _) => exists|o: ParseResult<'a, I, T, E>| #[trigger]
            p.ensures((after,), o) && goes_on_after_element(p, sep, cur, o, tail),
        _ => tail == ParseResult::<'a, I, Seq<T>, E>::Success(cur, Seq::empty()),
    }
}

/// A list is one attempt at an element and what follows from its outcome.
pub proof fn lemma_list_unfold<'a, I, T, E, U, N, P, S>(
    p: P,
    sep: S,
    i: Input<'a, I>,
    at_least_one: bool,
    s: ParseResult<'a, I, Seq<T>, E>,
) where
    P: FnOnce(Input<'a, I>) -> ParseResult<'a, I, T, E>,
    S: FnOnce(Input<'a, I>) -> ParseResult<'a, I, U, N>,

    requires
        separates(p, sep, i, at_least_one, s),
    ensures
        exists|o: ParseResult<'a, I, T, E>| #[trigger]
            p.ensures((i,), o) && list_after_first(p, sep, i, at_least_one, o, s),
{
    let (outs, seps) = choose|
        outs: Seq<ParseResult<'a, I, T, E>>,
        seps: Seq<ParseResult<'a, I, U, N>>,
    | #[trigger]
        is_list(p, sep, i, outs, seps) && s == list_result(i, at_least_one, outs, seps);
    let o = outs[0];
    assert(element(p, i, outs, seps, 0));
    assert(values(outs, 0) =~= Seq::<T>::empty());
    match o.classified() {
        ParseResult::Success(rest, v) => {
            let outs2 = outs.skip(1);
            assert(seps.len() > 0);
            assert forall|k: int| 0 <= k < seps.len() implies #[trigger] next_separator(
                sep,
                rest,
                outs2,
                seps,
                k,
            ) && (k + 1 < seps.len() ==> seps[k].classified() is Success) by {
                assert(separator(sep, outs, seps, k));
                if k > 0 {
                    assert(outs2[k - 1] == outs[k]);
                }
            }
            assert(separators_go_on(sep, rest, outs2, seps));
            assert forall|k: int| 0 <= k < outs2.len() implies #[trigger] next_element(
                p,
                outs2,
                seps,
                k,
            ) && (k + 1 < outs2.len() ==> outs2[k].classified() is Success) by {
                assert(element(p, i, outs, seps, k + 1));
                assert(outs2[k] == outs[k + 1]);
            }
            assert(elements_go_on(p, outs2, seps));
            if outs2.len() > 0 {
                assert(outs2.last() == outs.last());
            }
            assert(is_rest_of_list(p, sep, rest, outs2, seps));
            let tail = rest_of_list_result(rest, outs2);
            let n = matched(outs);
            assert(matched(outs2) == n - 1);
            assert(values(outs, n) =~= seq![v] + values(outs2, n - 1));
            if n - 1 > 0 {
                assert(outs2[n - 2] == outs[n - 1]);
            }
            assert(input_at(i, outs, n) == input_at(rest, outs2, n - 1));
            assert(s == prepended(v, tail));
            assert(goes_on(p, sep, rest, tail));
        },
        _ => {
            assert(outs.len() == 1);
        },
    }
    assert(list_after_first(p, sep, i, at_least_one, o, s));
}

/// The rest of a list is one attempt at a separator and what follows from
/// its outcome.
pub proof fn lemma_rest_of_list_unfold<'a, I, T, E, U, N, P, S>(
    p: P,
    sep: S,
    cur: Input<'a, I>,
    tail: ParseResult<'a, I, Seq<T>, E>,
) where
    P: FnOnce(Input<'a, I>) -> ParseResult<'a, I, T, E>,
    S: FnOnce(Input<'a, I>) -> ParseResult<'a, I, U, N>,

    requires
        goes_on(p, sep, cur, tail),
    ensures
        exists|os: ParseResult<'a, I, U, N>| #[trigger]
            sep.ensures((cur,), os) && goes_on_after_separator(p, sep, cur, os, tail),
{
    let (outs, seps) = choose|
        outs: Seq<ParseResult<'a, I, T, E>>,
        seps: Seq<ParseResult<'a, I, U, N>>,
    | #[trigger]
        is_rest_of_list(p, sep, cur, outs, seps) && tail == rest_of_list_result(cur, outs);
    let os = seps[0];
    assert(next_separator(sep, cur, outs, seps, 0));
    assert(values(outs, 0) =~= Seq::<T>::empty());
    match os.classified() {
        ParseResult::Success(after, _) => {
            let o = outs[0];
            assert(next_element(p, outs, seps, 0));
            match o.classified() {
                ParseResult::Success(rest, v) => {
                    let outs2 = outs.skip(1);
                    let seps2 = seps.skip(1);
                    assert forall|k: int| 0 <= k < seps2.len() implies #[trigger] next_separator(
                        sep,
                        rest,
                        outs2,
                        seps2,
                        k,
                    ) && (k + 1 < seps2.len() ==> seps2[k].classified() is Success) by {
                        assert(next_separator(sep, cur, outs, seps, k + 1));
                        assert(seps2[k] == seps[k + 1]);
                        if k > 0 {
                            assert(outs2[k - 1] == outs[k]);
                        }
                    }
                    assert(separators_go_on(sep, rest, outs2, seps2));
                    assert forall|k: int| 0 <= k < outs2.len() implies #[trigger] next_element(
                        p,
                        outs2,
                        seps2,
                        k,
                    ) && (k + 1 < outs2.len() ==> outs2[k].classified() is Success) by {
                        assert(next_element(p, outs, seps, k + 1));
                        assert(outs2[k] == outs[k + 1]);
                        assert(seps2[k] == seps[k + 1]);
                    }
                    assert(elements_go_on(p, outs2, seps2));
                    assert(seps2.last() == seps.last());
                    if outs2.len() > 0 {
                        assert(outs2.last() == outs.last());
                    }
                    assert(is_rest_of_list(p, sep, rest, outs2, seps2));
                    let more = rest_of_list_result(rest, outs2);
                    let n = matched(outs);
                    assert(matched(outs2) == n - 1);
                    assert(values(outs, n) =~= seq![v] + values(outs2, n - 1));
                    if n - 1 > 0 {
                        assert(outs2[n - 2] == outs[n - 1]);
                    }
                    assert(input_at(cur, outs, n) == input_at(rest, outs2, n - 1));
                    assert(tail == prepended(v, more));
                    assert(goes_on(p, sep, rest, more));
                },
                _ => {
                    assert(outs.len() == 1);
                },
            }
            assert(goes_on_after_element(p, sep, cur, o, tail));
        },
        _ => {
            assert(seps.len() == 1);
        },
    }
    assert(goes_on_after_separator(p, sep, cur, os, tail));
}

} // verus!
