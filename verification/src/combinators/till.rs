//! Repetition of one parser until another one matches.

use vstd::prelude::*;
use crate::collect::Collector;
use crate::combinators::{productive, total};
use crate::combinators::repeat::{
    attempt, collected, ends_unmatched, input_at, is_chain, prepended, values,
};
use crate::input::Input;
use crate::result::ParseResult;

verus! {

/// Outcome `k` of `ends` is one that the terminator `end` can produce on the
/// input that round `k` starts on.
pub open spec fn probe<'a, I, T, E, U, N, F>(
    end: F,
    start: Input<'a, I>,
    outs: Seq<ParseResult<'a, I, T, E>>,
    ends: Seq<ParseResult<'a, I, U, N>>,
    k: int,
) -> bool where F: FnOnce(Input<'a, I>) -> ParseResult<'a, I, U, N> {
    end.ensures((input_at(start, outs, k),), ends[k])
}

/// Every outcome of `ends` is one that `end` can produce at the start of its
/// round, and every one that has a successor is a definite failure.
pub open spec fn is_probing<'a, I, T, E, U, N, F>(
    end: F,
    start: Input<'a, I>,
    outs: Seq<ParseResult<'a, I, T, E>>,
    ends: Seq<ParseResult<'a, I, U, N>>,
) -> bool where F: FnOnce(Input<'a, I>) -> ParseResult<'a, I, U, N> {
    forall|k: int|
        0 <= k < ends.len() ==> #[trigger] probe(end, start, outs, ends, k) && (k + 1 < ends.len()
            ==> ends[k].classified() is Error)
}

/// `outs` and `ends` record a whole run of `many_till` from `start`.
///
/// Each round starts where the last match of `p` left off and tries `end`
/// first: `ends` holds those outcomes. Only when `end` definitely fails is
/// `p` tried, on the same input: `outs` holds those outcomes. The run is over
/// with the first outcome of `end` that is not a definite failure, or with
/// the first outcome of `p` that is not a match.
pub open spec fn is_till<'a, I, T, E, U, N, P, F>(
    p: P,
    end: F,
    start: Input<'a, I>,
    outs: Seq<ParseResult<'a, I, T, E>>,
    ends: Seq<ParseResult<'a, I, U, N>>,
) -> bool where
    P: FnOnce(Input<'a, I>) -> ParseResult<'a, I, T, E>,
    F: FnOnce(Input<'a, I>) -> ParseResult<'a, I, U, N>,
 {
    &&& ends.len() > 0
    &&& is_chain(p, start, outs)
    &&& is_probing(end, start, outs, ends)
    &&& if ends.last().classified() is Error {
        outs.len() == ends.len() && ends_unmatched(outs)
    } else {
        outs.len() + 1 == ends.len() && !ends_unmatched(outs)
    }
}

/// What `many_till` makes of the whole run `outs`, `ends`.
///
/// A run that `end` stopped yields, for a match of `end`, the values of all
/// matches of `p` and the input that `end` left; for `Incomplete`, that. A
/// run that `p` stopped yields, for a definite failure, that failure on the
/// input as the last match of `p` left it; for `Incomplete`, that.
pub open spec fn till_result<'a, I, T, E, U, N>(
    start: Input<'a, I>,
    outs: Seq<ParseResult<'a, I, T, E>>,
    ends: Seq<ParseResult<'a, I, U, N>>,
) -> ParseResult<'a, I, Seq<T>, E> {
    match ends.last().classified() {
        ParseResult::Success(rest, _) => ParseResult::Success(
            rest,
            values(outs, outs.len() as int),
        ),
        ParseResult::Incomplete(hint) => ParseResult::Incomplete(hint),
        ParseResult::Error(_, _) => match outs.last().classified() {
            ParseResult::Error(_, e) => ParseResult::Error(
                input_at(start, outs, outs.len() - 1),
                e,
            ),
            ParseResult::Incomplete(hint) => ParseResult::Incomplete(hint),
            ParseResult::Success(_, _) => arbitrary(),
        },
    }
}

/// Whether `s` is a result of `many_till` for `p` and `end` from `start`.
pub open spec fn repeats_till<'a, I, T, E, U, N, P, F>(
    p: P,
    end: F,
    start: Input<'a, I>,
    s: ParseResult<'a, I, Seq<T>, E>,
) -> bool where
    P: FnOnce(Input<'a, I>) -> ParseResult<'a, I, T, E>,
    F: FnOnce(Input<'a, I>) -> ParseResult<'a, I, U, N>,
 {
    exists|outs: Seq<ParseResult<'a, I, T, E>>, ends: Seq<ParseResult<'a, I, U, N>>| #[trigger]
        is_till(p, end, start, outs, ends) && s == till_result(start, outs, ends)
}

/// Recording the attempt of `end` that opens a round keeps what was recorded
/// of the earlier rounds.
proof fn lemma_probe_push<'a, I, T, E, U, N, F>(
    end: F,
    start: Input<'a, I>,
    outs: Seq<ParseResult<'a, I, T, E>>,
    ends: Seq<ParseResult<'a, I, U, N>>,
    oe: ParseResult<'a, I, U, N>,
) where F: FnOnce(Input<'a, I>) -> ParseResult<'a, I, U, N>
    requires
        is_probing(end, start, outs, ends),
        ends.len() == outs.len(),
        ends.len() > 0 ==> ends.last().classified() is Error,
        end.ensures((input_at(start, outs, outs.len() as int),), oe),
    ensures
        is_probing(end, start, outs, ends.push(oe)),
{
    let ends2 = ends.push(oe);
    assert forall|k: int| 0 <= k < ends2.len() implies #[trigger] probe(end, start, outs, ends2, k)
        && (k + 1 < ends2.len() ==> ends2[k].classified() is Error) by {
        if k < ends.len() {
            assert(probe(end, start, outs, ends, k));
            assert(ends2[k] == ends[k]);
        }
    }
}

/// Recording the attempt of `p` that closes a round keeps what was recorded
/// before.
proof fn lemma_item_push<'a, I, T, E, U, N, P, F>(
    p: P,
    end: F,
    start: Input<'a, I>,
    outs: Seq<ParseResult<'a, I, T, E>>,
    ends: Seq<ParseResult<'a, I, U, N>>,
    o: ParseResult<'a, I, T, E>,
) where
    P: FnOnce(Input<'a, I>) -> ParseResult<'a, I, T, E>,
    F: FnOnce(Input<'a, I>) -> ParseResult<'a, I, U, N>,

    requires
        is_chain(p, start, outs),
        !ends_unmatched(outs),
        is_probing(end, start, outs, ends),
        ends.len() == outs.len() + 1,
        p.ensures((input_at(start, outs, outs.len() as int),), o),
    ensures
        is_chain(p, start, outs.push(o)),
        is_probing(end, start, outs.push(o), ends),
        input_at(start, outs.push(o), outs.len() as int) == input_at(
            start,
            outs,
            outs.len() as int,
        ),
        o.classified() is Success ==> values(outs.push(o), outs.len() as int + 1) == values(
            outs,
            outs.len() as int,
        ).push(o.value()),
{
    let outs2 = outs.push(o);
    assert forall|k: int| 0 <= k < outs2.len() implies #[trigger] attempt(p, start, outs2, k) && (k
        + 1 < outs2.len() ==> outs2[k].classified() is Success) by {
        if k < outs.len() {
            assert(attempt(p, start, outs, k));
            assert(input_at(start, outs2, k) == input_at(start, outs, k));
            assert(outs2[k] == outs[k]);
        }
    }
    assert forall|k: int| 0 <= k < ends.len() implies #[trigger] probe(end, start, outs2, ends, k)
        && (k + 1 < ends.len() ==> ends[k].classified() is Error) by {
        assert(probe(end, start, outs, ends, k));
        assert(input_at(start, outs2, k) == input_at(start, outs, k));
    }
    assert(values(outs2, outs.len() as int + 1) =~= values(outs, outs.len() as int).push(
        o.value(),
    ));
}

/// Collects matches of `p` until `end` matches.
///
/// Each round tries `end` first. If it matches, the repetition is over: the
/// result is the values that `p` produced, and the input is what `end` left;
/// the value of `end` is dropped. If `end` definitely fails, what it consumed
/// is undone and `p` is tried. A definite failure of `p` ends the repetition
/// with that failure, reported on the input as the last match left it.
/// `Incomplete` from either parser is passed on.
///
/// `p` must consume at least one token whenever it matches.
pub fn many_till<'a, I, T, E, U, N, C, P, F>(i: Input<'a, I>, p: P, end: F) -> (r: ParseResult<
    'a,
    I,
    C,
    E,
>) where
    P: FnMut(Input<'a, I>) -> ParseResult<'a, I, T, E>,
    F: FnMut(Input<'a, I>) -> ParseResult<'a, I, U, N>,
    C: Collector<T>,

    requires
        total(p),
        total(end),
        productive(p),
    ensures
        repeats_till(p, end, i, collected(r)),
{
    let mut acc = C::start();
    let mut cur = i;
    let mut element = p;
    let mut terminator = end;
    let ghost mut outs: Seq<ParseResult<'a, I, T, E>> = Seq::empty();
    let ghost mut ends: Seq<ParseResult<'a, I, U, N>> = Seq::empty();
    proof {
        use_type_invariant(&cur);
        assert(values(outs, 0) =~= Seq::<T>::empty());
    }
    loop
        invariant
            element == p,
            terminator == end,
            total(p),
            total(end),
            productive(p),
            is_chain(p, i, outs),
            !ends_unmatched(outs),
            is_probing(end, i, outs, ends),
            ends.len() == outs.len(),
            ends.len() > 0 ==> ends.last().classified() is Error,
            cur == input_at(i, outs, outs.len() as int),
            acc.items() == values(outs, outs.len() as int),
            cur@.wf(),
        decreases cur@.left(),
    {
        let m = cur.mark();
        let raw_end = terminator(cur);
        let ghost oe = raw_end;
        proof {
            lemma_probe_push(end, i, outs, ends, oe);
            ends = ends.push(oe);
        }
        let back = match raw_end.classify() {
            ParseResult::Success(rest, _) => {
                let r = ParseResult::Success(rest, acc);
                proof {
                    assert(is_till(p, end, i, outs, ends));
                    assert(collected(r) == till_result(i, outs, ends));
                }
                return r;
            },
            ParseResult::Incomplete(hint) => {
                let r = ParseResult::Incomplete(hint);
                proof {
                    assert(is_till(p, end, i, outs, ends));
                    assert(collected(r) == till_result(i, outs, ends));
                }
                return r;
            },
            ParseResult::Error(rest, _) => rest.restore(m),
        };
        let raw = element(back);
        let ghost o = raw;
        proof {
            lemma_item_push(p, end, i, outs, ends, o);
            outs = outs.push(o);
        }
        match raw.classify() {
            ParseResult::Success(rest, t) => {
                proof {
                    use_type_invariant(&rest);
                    assert(rest == o.rest());
                }
                acc.append(t);
                cur = rest;
            },
            ParseResult::Error(rest, e) => {
                let r = ParseResult::Error(rest.restore(m), e);
                proof {
                    assert(is_till(p, end, i, outs, ends));
                    assert(collected(r) == till_result(i, outs, ends));
                }
                return r;
            },
            ParseResult::Incomplete(hint) => {
                let r = ParseResult::Incomplete(hint);
                proof {
                    assert(is_till(p, end, i, outs, ends));
                    assert(collected(r) == till_result(i, outs, ends));
                }
                return r;
            },
        }
    }
}

/// When `end` matches on the very first input, `many_till` matches with no
/// items and leaves the input that `end` left, and `p` is never tried.
pub proof fn lemma_till_immediate<'a, I, T, E, U, N, P, F>(
    p: P,
    end: F,
    i: Input<'a, I>,
    outs: Seq<ParseResult<'a, I, T, E>>,
    ends: Seq<ParseResult<'a, I, U, N>>,
) where
    P: FnOnce(Input<'a, I>) -> ParseResult<'a, I, T, E>,
    F: FnOnce(Input<'a, I>) -> ParseResult<'a, I, U, N>,

    requires
        is_till(p, end, i, outs, ends),
        ends[0].classified() is Success,
    ensures
        outs.len() == 0,
        ends.len() == 1,
        end.ensures((i,), ends[0]),
        till_result(i, outs, ends) == ParseResult::<'a, I, Seq<T>, E>::Success(
            ends[0].rest(),
            Seq::empty(),
        ),
{
    assert(probe(end, i, outs, ends, 0));
    assert(values(outs, 0) =~= Seq::<T>::empty());
}

/// If `end` can only match on `i`, then `many_till` matches with no items
/// and leaves an input that `end` left when run on `i`.
pub proof fn lemma_till_of_matching<'a, I, T, E, U, N, P, F>(
    p: P,
    end: F,
    i: Input<'a, I>,
    s: ParseResult<'a, I, Seq<T>, E>,
) where
    P: FnOnce(Input<'a, I>) -> ParseResult<'a, I, T, E>,
    F: FnOnce(Input<'a, I>) -> ParseResult<'a, I, U, N>,

    requires
        repeats_till(p, end, i, s),
        forall|oe: ParseResult<'a, I, U, N>| end.ensures((i,), oe) ==> oe.classified() is Success,
    ensures
        s is Success,
        s.value() == Seq::<T>::empty(),
        exists|oe: ParseResult<'a, I, U, N>| #[trigger]
            end.ensures((i,), oe) && oe.classified() is Success && s.rest() == oe.rest(),
{
    let (outs, ends) = choose|
        outs: Seq<ParseResult<'a, I, T, E>>,
        ends: Seq<ParseResult<'a, I, U, N>>,
    | #[trigger]
        is_till(p, end, i, outs, ends) && s == till_result(i, outs, ends);
    assert(probe(end, i, outs, ends, 0));
    lemma_till_immediate(p, end, i, outs, ends);
}

/// Whether `s` is a result of `many_till` from `i` when `end` definitely
/// failed there and `p` then had the outcome `o`: after a match, the match
/// followed by a run from where it left off; after a definite failure, that
/// failure on `i`; after `Incomplete`, that.
pub open spec fn till_after_item<'a, I, T, E, U, N, P, F>(
    p: P,
    end: F,
    i: Input<'a, I>,
    o: ParseResult<'a, I, T, E>,
    s: ParseResult<'a, I, Seq<T>, E>,
) -> bool where
    P: FnOnce(Input<'a, I>) -> ParseResult<'a, I, T, E>,
    F: FnOnce(Input<'a, I>) -> ParseResult<'a, I, U, N>,
 {
    match o.classified() {
        ParseResult::Success(rest, v) => exists|tail: ParseResult<'a, I, Seq<T>, E>| #[trigger]
            repeats_till(p, end, rest, tail) && s == prepended(v, tail),
        ParseResult::Error(_, e) => s == ParseResult::<'a, I, Seq<T>, E>::Error(i, e),
        ParseResult::Incomplete(hint) => s == ParseResult::<'a, I, Seq<T>, E>::Incomplete(hint),
    }
}

/// Whether `s` is a result of `many_till` from `i` when `end` had the
/// outcome `oe` there: after a match, an empty list on the input that `end`
/// left; after `Incomplete`, that; after a definite failure, whatever
/// follows from an attempt of `p` on `i`.
pub open spec fn till_after_end<'a, I, T, E, U, N, P, F>(
    p: P,
    end: F,
    i: Input<'a, I>,
    oe: ParseResult<'a, I, U, N>,
    s: ParseResult<'a, I, Seq<T>, E>,
) -> bool where
    P: FnOnce(Input<'a, I>) -> ParseResult<'a, I, T, E>,
    F: FnOnce(Input<'a, I>) -> ParseResult<'a, I, U, N>,
 {
    match oe.classified() {
        ParseResult::Success(rest, _) => s == ParseResult::<'a, I, Seq<T>, E>::Success(
            rest,
            Seq::empty(),
        ),
        ParseResult::Incomplete(hint) => s == ParseResult::<'a, I, Seq<T>, E>::Incomplete(hint),
        ParseResult::Error(_, _) => exists|o: ParseResult<'a, I, T, E>| #[trigger]
            p.ensures((i,), o) && till_after_item(p, end, i, o, s),
    }
}

/// A run of `many_till` is one attempt of `end` and what follows from its
/// outcome.
pub proof fn lemma_till_unfold<'a, I, T, E, U, N, P, F>(
    p: P,
    end: F,
    i: Input<'a, I>,
    s: ParseResult<'a, I, Seq<T>, E>,
) where
    P: FnOnce(Input<'a, I>) -> ParseResult<'a, I, T, E>,
    F: FnOnce(Input<'a, I>) -> ParseResult<'a, I, U, N>,

    requires
        repeats_till(p, end, i, s),
    ensures
        exists|oe: ParseResult<'a, I, U, N>| #[trigger]
            end.ensures((i,), oe) && till_after_end(p, end, i, oe, s),
{
    let (outs, ends) = choose|
        outs: Seq<ParseResult<'a, I, T, E>>,
        ends: Seq<ParseResult<'a, I, U, N>>,
    | #[trigger]
        is_till(p, end, i, outs, ends) && s == till_result(i, outs, ends);
    let oe = ends[0];
    assert(probe(end, i, outs, ends, 0));
    assert(values(outs, 0) =~= Seq::<T>::empty());
    if oe.classified() is Error {
        let o = outs[0];
        assert(attempt(p, i, outs, 0));
        match o.classified() {
            ParseResult::Success(rest, v) => {
                let outs2 = outs.skip(1);
                let ends2 = ends.skip(1);
                assert forall|k: int| 0 <= k < outs2.len() implies #[trigger] attempt(
                    p,
                    rest,
                    outs2,
                    k,
                ) && (k + 1 < outs2.len() ==> outs2[k].classified() is Success) by {
                    assert(attempt(p, i, outs, k + 1));
                    assert(outs2[k] == outs[k + 1]);
                    if k > 0 {
                        assert(outs2[k - 1] == outs[k]);
                    }
                }
                assert(is_chain(p, rest, outs2));
                assert forall|k: int| 0 <= k < ends2.len() implies #[trigger] probe(
                    end,
                    rest,
                    outs2,
                    ends2,
                    k,
                ) && (k + 1 < ends2.len() ==> ends2[k].classified() is Error) by {
                    assert(probe(end, i, outs, ends, k + 1));
                    assert(ends2[k] == ends[k + 1]);
                    if k > 0 {
                        assert(outs2[k - 1] == outs[k]);
                    }
                }
                assert(is_probing(end, rest, outs2, ends2));
                assert(ends2.last() == ends.last());
                if outs2.len() > 0 {
                    assert(outs2.last() == outs.last());
                }
                assert(is_till(p, end, rest, outs2, ends2));
                let tail = till_result(rest, outs2, ends2);
                assert(values(outs, outs.len() as int) =~= seq![v] + values(
                    outs2,
                    outs2.len() as int,
                ));
                if outs.len() == ends.len() {
                    if outs.len() - 2 > 0 {
                        assert(outs2[outs.len() - 3] == outs[outs.len() - 2]);
                    }
                    assert(input_at(i, outs, outs.len() - 1) == input_at(
                        rest,
                        outs2,
                        outs2.len() - 1,
                    ));
                }
                assert(s == prepended(v, tail));
                assert(repeats_till(p, end, rest, tail));
            },
            _ => {
                assert(outs.len() == 1);
            },
        }
        assert(till_after_item(p, end, i, o, s));
    } else {
        assert(ends.len() == 1);
    }
    assert(till_after_end(p, end, i, oe, s));
}

} // verus!
