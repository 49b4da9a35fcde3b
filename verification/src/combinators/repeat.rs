//! Repetition of one parser: as often as it matches, at least once, or an
//! exact number of times.

use vstd::prelude::*;
use crate::collect::{Collector, Discard};
use crate::combinators::{productive, total};
use crate::input::Input;
use crate::result::ParseResult;

verus! {

/// The input on which attempt number `k` of a run starts: `start` for the
/// first attempt, and after that the input that outcome `k - 1` carries.
pub open spec fn input_at<'a, I, T, E>(
    start: Input<'a, I>,
    outs: Seq<ParseResult<'a, I, T, E>>,
    k: int,
) -> Input<'a, I> {
    if k <= 0 {
        start
    } else {
        outs[k - 1].rest()
    }
}

/// The values of the first `n` outcomes of a run, in order.
pub open spec fn values<'a, I, T, E>(outs: Seq<ParseResult<'a, I, T, E>>, n: int) -> Seq<T> {
    Seq::new(n as nat, |k: int| outs[k].value())
}

/// Outcome `k` of `outs` is one that `p` can produce on the input that
/// attempt `k` starts on.
pub open spec fn attempt<'a, I, T, E, F>(
    p: F,
    start: Input<'a, I>,
    outs: Seq<ParseResult<'a, I, T, E>>,
    k: int,
) -> bool where F: FnOnce(Input<'a, I>) -> ParseResult<'a, I, T, E> {
    p.ensures((input_at(start, outs, k),), outs[k])
}

/// `outs` records consecutive attempts of `p` from `start`: each outcome is
/// one that `p` can produce where its predecessor left off, and every outcome
/// that has a successor is a match.
pub open spec fn is_chain<'a, I, T, E, F>(
    p: F,
    start: Input<'a, I>,
    outs: Seq<ParseResult<'a, I, T, E>>,
) -> bool where F: FnOnce(Input<'a, I>) -> ParseResult<'a, I, T, E> {
    forall|k: int|
        0 <= k < outs.len() ==> #[trigger] attempt(p, start, outs, k) && (k + 1 < outs.len()
            ==> outs[k].classified() is Success)
}

/// Whether the last outcome of `outs` is something other than a match.
pub open spec fn ends_unmatched<'a, I, T, E>(outs: Seq<ParseResult<'a, I, T, E>>) -> bool {
    outs.len() > 0 && !(outs.last().classified() is Success)
}

/// `outs` is a whole repetition of `p` from `start` with at most `max`
/// matches: a chain that goes on until `p` does not match, or until `max`
/// matches are reached, whichever comes first.
pub open spec fn is_repeat<'a, I, T, E, F>(
    p: F,
    start: Input<'a, I>,
    max: Option<usize>,
    outs: Seq<ParseResult<'a, I, T, E>>,
) -> bool where F: FnOnce(Input<'a, I>) -> ParseResult<'a, I, T, E> {
    &&& is_chain(p, start, outs)
    &&& max matches Some(m) ==> outs.len() <= m
    &&& !ends_unmatched(outs) ==> max == Some(outs.len() as usize)
}

/// The number of matches in the run `outs`: every outcome but an unmatched
/// last one.
pub open spec fn matched<'a, I, T, E>(outs: Seq<ParseResult<'a, I, T, E>>) -> int {
    if ends_unmatched(outs) {
        outs.len() - 1
    } else {
        outs.len() as int
    }
}

/// What a repetition that demands at least `min` matches, and stops after
/// `max`, makes of the whole run `outs`.
///
/// The input of a match or of a definite failure is the one that the last
/// match of the parser left, or `start` if nothing matched: what the last
/// attempt consumed without matching is undone.
///
/// * A run that reached its bound is the values of its matches.
/// * A run that a definite failure ended is the values of its matches if
///   there are at least `min`, and that failure otherwise.
/// * A run that `Incomplete` ended is `Incomplete`, with one exception: a
///   repetition without a bound that has matched at least once, and at least
///   `min` times, is the values of its matches. What was matched is not
///   given up because the input ended behind it.
pub open spec fn repeat_result<'a, I, T, E>(
    start: Input<'a, I>,
    min: nat,
    max: Option<usize>,
    outs: Seq<ParseResult<'a, I, T, E>>,
) -> ParseResult<'a, I, Seq<T>, E> {
    let n = matched(outs);
    let rest = input_at(start, outs, n);
    let list = ParseResult::Success(rest, values(outs, n));
    if ends_unmatched(outs) {
        match outs.last().classified() {
            ParseResult::Error(_, e) => if n >= min {
                list
            } else {
                ParseResult::Error(rest, e)
            },
            ParseResult::Incomplete(hint) => if max is None && 0 < n && min <= n {
                list
            } else {
                ParseResult::Incomplete(hint)
            },
            ParseResult::Success(_, _) => arbitrary(),
        }
    } else {
        list
    }
}

/// Whether `s` is a result of repeating `p` from `start`, demanding at least
/// `min` matches and stopping after `max`.
pub open spec fn repeats<'a, I, T, E, F>(
    p: F,
    start: Input<'a, I>,
    min: nat,
    max: Option<usize>,
    s: ParseResult<'a, I, Seq<T>, E>,
) -> bool where F: FnOnce(Input<'a, I>) -> ParseResult<'a, I, T, E> {
    exists|outs: Seq<ParseResult<'a, I, T, E>>| #[trigger]
        is_repeat(p, start, max, outs) && s == repeat_result(start, min, max, outs)
}

/// A result with the collected container replaced by the items in it.
pub open spec fn collected<'a, I, T, E, C: Collector<T>>(
    r: ParseResult<'a, I, C, E>,
) -> ParseResult<'a, I, Seq<T>, E> {
    r.map_value(|c: C| c.items())
}

/// A result with the collected items dropped.
pub open spec fn discarded<'a, I, T, E>(s: ParseResult<'a, I, Seq<T>, E>) -> ParseResult<
    'a,
    I,
    (),
    E,
> {
    s.map_value(|items: Seq<T>| ())
}

/// Appending a match to a run of matches keeps the earlier attempts and
/// inputs as they were.
proof fn lemma_chain_push<'a, I, T, E, F>(
    p: F,
    start: Input<'a, I>,
    outs: Seq<ParseResult<'a, I, T, E>>,
    o: ParseResult<'a, I, T, E>,
) where F: FnOnce(Input<'a, I>) -> ParseResult<'a, I, T, E>
    requires
        is_chain(p, start, outs),
        outs.len() > 0 ==> outs.last().classified() is Success,
        p.ensures((input_at(start, outs, outs.len() as int),), o),
    ensures
        is_chain(p, start, outs.push(o)),
        values(outs.push(o), outs.len() as int) == values(outs, outs.len() as int),
        o.classified() is Success ==> values(outs.push(o), outs.len() as int + 1) == values(
            outs,
            outs.len() as int,
        ).push(o.value()),
        input_at(start, outs.push(o), outs.len() as int) == input_at(
            start,
            outs,
            outs.len() as int,
        ),
{
    let next = outs.push(o);
    assert forall|k: int| 0 <= k < next.len() implies #[trigger] attempt(p, start, next, k) && (k
        + 1 < next.len() ==> next[k].classified() is Success) by {
        if k < outs.len() {
            assert(attempt(p, start, outs, k));
            assert(input_at(start, next, k) == input_at(start, outs, k));
            assert(next[k] == outs[k]);
        }
    }
    assert(values(next, outs.len() as int) =~= values(outs, outs.len() as int));
    assert(values(next, outs.len() as int + 1) =~= values(outs, outs.len() as int).push(o.value()));
}

/// The loop behind every repetition of one parser.
fn repeat<'a, I, T, E, C, F>(i: Input<'a, I>, p: F, min: usize, max: Option<usize>) -> (r:
    ParseResult<'a, I, C, E>) where
    F: FnMut(Input<'a, I>) -> ParseResult<'a, I, T, E>,
    C: Collector<T>,

    requires
        total(p),
        max is None ==> productive(p),
    ensures
        repeats(p, i, min as nat, max, collected(r)),
{
    let mut acc = C::start();
    let mut cur = i;
    let mut n: usize = 0;
    let ghost mut outs: Seq<ParseResult<'a, I, T, E>> = Seq::empty();
    let mut step = p;
    proof {
        use_type_invariant(&cur);
        assert(values(outs, 0) =~= Seq::<T>::empty());
    }
    loop
        invariant
            step == p,
            total(p),
            max is None ==> productive(p),
            is_chain(p, i, outs),
            outs.len() > 0 ==> outs.last().classified() is Success,
            cur == input_at(i, outs, outs.len() as int),
            acc.items() == values(outs, outs.len() as int),
            n == outs.len(),
            max matches Some(m) ==> n <= m,
            max is None ==> n + cur@.left() <= i@.left(),
            cur@.wf(),
            i@.wf(),
        decreases
                (if max is Some {
                    max.unwrap() - n
                } else {
                    cur@.left()
                }),
    {
        if let Some(m) = max {
            if n >= m {
                let r = ParseResult::Success(cur, acc);
                proof {
                    assert(is_repeat(p, i, max, outs));
                    assert(collected(r) == repeat_result(i, min as nat, max, outs));
                }
                return r;
            }
        }
        let m = cur.mark();
        let raw = step(cur);
        let ghost o = raw;
        proof {
            lemma_chain_push(p, i, outs, o);
            outs = outs.push(o);
        }
        match raw.classify() {
            ParseResult::Success(rest, t) => {
                proof {
                    use_type_invariant(&rest);
                    assert(rest == o.rest());
                }
                acc.append(t);
                cur = rest;
                n = n + 1;
            },
            ParseResult::Error(rest, e) => {
                let back = rest.restore(m);
                let r = if n >= min {
                    ParseResult::Success(back, acc)
                } else {
                    ParseResult::Error(back, e)
                };
                proof {
                    assert(ends_unmatched(outs));
                    assert(is_repeat(p, i, max, outs));
                    assert(collected(r) == repeat_result(i, min as nat, max, outs));
                }
                return r;
            },
            ParseResult::Incomplete(hint) => {
                let r = if max.is_none() && 0 < n && min <= n {
                    ParseResult::Success(m.input(), acc)
                } else {
                    ParseResult::Incomplete(hint)
                };
                proof {
                    assert(ends_unmatched(outs));
                    assert(is_repeat(p, i, max, outs));
                    assert(collected(r) == repeat_result(i, min as nat, max, outs));
                }
                return r;
            },
        }
    }
}

/// Runs `p` until it no longer matches and collects the values of the
/// matches. The attempt that did not match is undone: the input left is the
/// one after the last match, and a definite failure of `p` is no failure of
/// `many`.
///
/// `Incomplete` from the first attempt is passed on. `Incomplete` from a
/// later attempt ends the repetition like a failure does: the matches made so
/// far are the result, so that a repetition that reaches the end of the data
/// at hand still yields what it has found.
///
/// `p` must consume at least one token whenever it matches.
pub fn many<'a, I, T, E, C, F>(i: Input<'a, I>, p: F) -> (r: ParseResult<'a, I, C, E>) where
    F: FnMut(Input<'a, I>) -> ParseResult<'a, I, T, E>,
    C: Collector<T>,

    requires
        total(p),
        productive(p),
    ensures
        repeats(p, i, 0, None, collected(r)),
{
    repeat(i, p, 0, None)
}

/// Like [`many`], but `p` has to match at least once: if the first attempt
/// definitely fails, that failure is the result, on the input as it was.
/// `Incomplete` is treated as in [`many`].
///
/// `p` must consume at least one token whenever it matches.
pub fn many1<'a, I, T, E, C, F>(i: Input<'a, I>, p: F) -> (r: ParseResult<'a, I, C, E>) where
    F: FnMut(Input<'a, I>) -> ParseResult<'a, I, T, E>,
    C: Collector<T>,

    requires
        total(p),
        productive(p),
    ensures
        repeats(p, i, 1, None, collected(r)),
{
    repeat(i, p, 1, None)
}

/// Runs `p` exactly `num` times and collects the values. The first attempt
/// that does not match ends the whole operation with its verdict, also where
/// that is `Incomplete`; a definite failure is reported on the input as the
/// last match left it.
pub fn count<'a, I, T, E, C, F>(i: Input<'a, I>, num: usize, p: F) -> (r: ParseResult<
    'a,
    I,
    C,
    E,
>) where F: FnMut(Input<'a, I>) -> ParseResult<'a, I, T, E>, C: Collector<T>
    requires
        total(p),
    ensures
        repeats(p, i, num as nat, Some(num), collected(r)),
{
    repeat(i, p, num, Some(num))
}

/// Like [`many`], but the values are dropped: only the input consumed
/// matters.
///
/// `p` must consume at least one token whenever it matches.
pub fn skip_many<'a, I, T, E, F>(i: Input<'a, I>, p: F) -> (r: ParseResult<'a, I, (), E>) where
    F: FnMut(Input<'a, I>) -> ParseResult<'a, I, T, E>,

    requires
        total(p),
        productive(p),
    ensures
        exists|s: ParseResult<'a, I, Seq<T>, E>| #[trigger]
            repeats(p, i, 0, None, s) && r == discarded(s),
{
    let kept: ParseResult<'a, I, Discard<T>, E> = repeat(i, p, 0, None);
    drop_items(kept)
}

/// Like [`many1`], but the values are dropped.
///
/// `p` must consume at least one token whenever it matches.
pub fn skip_many1<'a, I, T, E, F>(i: Input<'a, I>, p: F) -> (r: ParseResult<'a, I, (), E>) where
    F: FnMut(Input<'a, I>) -> ParseResult<'a, I, T, E>,

    requires
        total(p),
        productive(p),
    ensures
        exists|s: ParseResult<'a, I, Seq<T>, E>| #[trigger]
            repeats(p, i, 1, None, s) && r == discarded(s),
{
    let kept: ParseResult<'a, I, Discard<T>, E> = repeat(i, p, 1, None);
    drop_items(kept)
}

/// Forgets what a repetition collected.
fn drop_items<'a, I, T, E, C: Collector<T>>(kept: ParseResult<'a, I, C, E>) -> (r: ParseResult<
    'a,
    I,
    (),
    E,
>)
    ensures
        r == discarded(collected(kept)),
{
    match kept {
        ParseResult::Success(rest, _) => ParseResult::Success(rest, ()),
        ParseResult::Error(rest, e) => ParseResult::Error(rest, e),
        ParseResult::Incomplete(hint) => ParseResult::Incomplete(hint),
    }
}

/// All outcomes that `p` can produce on `j` are one and the same.
pub open spec fn decided<'a, I, T, E, F>(p: F, j: Input<'a, I>) -> bool where
    F: FnOnce(Input<'a, I>) -> ParseResult<'a, I, T, E>,
 {
    forall|o1: ParseResult<'a, I, T, E>, o2: ParseResult<'a, I, T, E>|
        p.ensures((j,), o1) && p.ensures((j,), o2) ==> o1 == o2
}

/// However a repetition ends, whatever its last attempt consumed without
/// matching is not part of what it reports: the input of a match or of a
/// definite failure is the one that the last match of `p` left, or the one
/// the repetition started on if nothing matched. A match reports the values
/// of all matches of `p`, in order. A definite failure stands for one of `p`
/// with too few matches before it. And `Incomplete` stands for `Incomplete`
/// from `p`, where the repetition has a bound or too few matches were made.
pub proof fn lemma_repeat_ends_after_last_match<'a, I, T, E, F>(
    p: F,
    i: Input<'a, I>,
    min: nat,
    max: Option<usize>,
    outs: Seq<ParseResult<'a, I, T, E>>,
) where F: FnOnce(Input<'a, I>) -> ParseResult<'a, I, T, E>
    requires
        is_repeat(p, i, max, outs),
    ensures
        forall|k: int| 0 <= k < matched(outs) ==> (#[trigger] outs[k]).classified() is Success,
        !(repeat_result(i, min, max, outs) is Incomplete) ==> repeat_result(
            i,
            min,
            max,
            outs,
        ).rest() == (if matched(outs) == 0 {
            i
        } else {
            outs[matched(outs) - 1].rest()
        }),
        repeat_result(i, min, max, outs) matches ParseResult::Success(_, items) ==> {
            &&& items.len() == matched(outs)
            &&& ends_unmatched(outs) ==> items.len() >= min
            &&& forall|k: int| 0 <= k < items.len() ==> items[k] == outs[k].value()
        },
        repeat_result(i, min, max, outs) is Error ==> matched(outs) < min
            && outs.last().classified() is Error,
        repeat_result(i, min, max, outs) is Incomplete ==> outs.last().classified()
            is Incomplete && (max is Some || matched(outs) == 0 || matched(outs) < min),
{
    assert forall|k: int| 0 <= k < matched(outs) implies (#[trigger] outs[k]).classified()
        is Success by {
        assert(attempt(p, i, outs, k));
    }
}

/// An unbounded repetition whose first attempt definitely fails matches with
/// no items and leaves the input exactly as it was.
pub proof fn lemma_many_first_failure<'a, I, T, E, F>(
    p: F,
    i: Input<'a, I>,
    outs: Seq<ParseResult<'a, I, T, E>>,
) where F: FnOnce(Input<'a, I>) -> ParseResult<'a, I, T, E>
    requires
        is_repeat(p, i, None, outs),
        outs[0].classified() is Error,
    ensures
        outs.len() == 1,
        repeat_result(i, 0, None, outs) == ParseResult::<'a, I, Seq<T>, E>::Success(
            i,
            Seq::empty(),
        ),
{
    assert(attempt(p, i, outs, 0));
    assert(values(outs, 0) =~= Seq::<T>::empty());
}

/// A repetition whose first attempt is `Incomplete` is `Incomplete`, with the
/// same hint: with nothing matched there is nothing to report instead.
pub proof fn lemma_repeat_first_incomplete<'a, I, T, E, F>(
    p: F,
    i: Input<'a, I>,
    min: nat,
    max: Option<usize>,
    outs: Seq<ParseResult<'a, I, T, E>>,
) where F: FnOnce(Input<'a, I>) -> ParseResult<'a, I, T, E>
    requires
        is_repeat(p, i, max, outs),
        outs.len() > 0,
        outs[0].classified() is Incomplete,
    ensures
        outs.len() == 1,
        repeat_result(i, min, max, outs) == outs[0].classified().map_value(
            |v: T| Seq::<T>::empty(),
        ),
{
    assert(attempt(p, i, outs, 0));
}

/// If `p` can only fail on `i`, then `many` of it matches with no items and
/// consumes nothing.
pub proof fn lemma_many_of_failing<'a, I, T, E, F>(
    p: F,
    i: Input<'a, I>,
    s: ParseResult<'a, I, Seq<T>, E>,
) where F: FnOnce(Input<'a, I>) -> ParseResult<'a, I, T, E>
    requires
        repeats(p, i, 0, None, s),
        forall|o: ParseResult<'a, I, T, E>| p.ensures((i,), o) ==> o.classified() is Error,
    ensures
        s == ParseResult::<'a, I, Seq<T>, E>::Success(i, Seq::empty()),
{
    let outs = choose|outs: Seq<ParseResult<'a, I, T, E>>| #[trigger]
        is_repeat(p, i, None, outs) && s == repeat_result(i, 0, None, outs);
    assert(attempt(p, i, outs, 0));
    lemma_many_first_failure(p, i, outs);
}

/// `many` never reports a definite failure, and reports `Incomplete` only
/// when the first attempt of `p` was. When it matches, it has collected a
/// maximal run: there is a chain of attempts of `p` from `i` whose matches
/// are the items, in order, followed by an attempt that did not match, on
/// the very input that `many` leaves. So `p` was seen not to match there; and
/// if `p` has only one outcome on that input, it cannot match there.
pub proof fn lemma_many_maximal<'a, I, T, E, F>(
    p: F,
    i: Input<'a, I>,
    s: ParseResult<'a, I, Seq<T>, E>,
) where F: FnOnce(Input<'a, I>) -> ParseResult<'a, I, T, E>
    requires
        repeats(p, i, 0, None, s),
    ensures
        !(s is Error),
        s is Incomplete ==> exists|o: ParseResult<'a, I, T, E>| #[trigger]
            p.ensures((i,), o) && o.classified() is Incomplete,
        s is Success ==> exists|outs: Seq<ParseResult<'a, I, T, E>>|
            {
                &&& #[trigger] is_chain(p, i, outs)
                &&& outs.len() == s.value().len() + 1
                &&& s.value() == values(outs, outs.len() - 1)
                &&& s.rest() == input_at(i, outs, outs.len() - 1)
                &&& !(outs.last().classified() is Success)
            },
        s is Success ==> exists|o: ParseResult<'a, I, T, E>| #[trigger]
            p.ensures((s.rest(),), o) && !(o.classified() is Success),
        s is Success && decided(p, s.rest()) ==> forall|o: ParseResult<'a, I, T, E>|
            p.ensures((s.rest(),), o) ==> !(o.classified() is Success),
{
    let outs = choose|outs: Seq<ParseResult<'a, I, T, E>>| #[trigger]
        is_repeat(p, i, None, outs) && s == repeat_result(i, 0, None, outs);
    assert(attempt(p, i, outs, outs.len() - 1));
    if s is Success {
        assert(is_chain(p, i, outs));
        assert(p.ensures((s.rest(),), outs.last()));
    }
}

/// `count` matches only with exactly `num` items. When an attempt definitely
/// fails before that, `count` reports the failure on the input as the last
/// match left it: not on the input it started from, unless nothing matched,
/// and not on whatever the failed attempt had reached. And `Incomplete` from
/// any attempt is `Incomplete` from `count`.
pub proof fn lemma_count_exact<'a, I, T, E, F>(
    p: F,
    i: Input<'a, I>,
    num: usize,
    outs: Seq<ParseResult<'a, I, T, E>>,
) where F: FnOnce(Input<'a, I>) -> ParseResult<'a, I, T, E>
    requires
        is_repeat(p, i, Some(num), outs),
    ensures
        repeat_result(i, num as nat, Some(num), outs) is Success ==> outs.len() == num
            && repeat_result(i, num as nat, Some(num), outs).value().len() == num,
        ends_unmatched(outs) && outs.last().classified() is Error ==> repeat_result(
            i,
            num as nat,
            Some(num),
            outs,
        ) == ParseResult::<'a, I, Seq<T>, E>::Error(
            input_at(i, outs, outs.len() - 1),
            outs.last().classified()->Error_1,
        ),
        ends_unmatched(outs) && outs.last().classified() is Incomplete ==> repeat_result(
            i,
            num as nat,
            Some(num),
            outs,
        ) == ParseResult::<'a, I, Seq<T>, E>::Incomplete(
            outs.last().classified()->Incomplete_0,
        ),
{
}

/// A result with `v` put in front of the collected items.
pub open spec fn prepended<'a, I, T, E>(v: T, s: ParseResult<'a, I, Seq<T>, E>) -> ParseResult<
    'a,
    I,
    Seq<T>,
    E,
> {
    s.map_value(|items: Seq<T>| seq![v] + items)
}

/// The demand that is left after one match.
pub open spec fn one_less(min: nat) -> nat {
    if min > 0 {
        (min - 1) as nat
    } else {
        0
    }
}

/// The bound that is left after one match.
pub open spec fn one_fewer(max: Option<usize>) -> Option<usize> {
    match max {
        Some(m) => Some((m - 1) as usize),
        None => None,
    }
}

/// What a repetition comes to when its first attempt matched with the value
/// `v` and left `rest`, and `tail` is what the repetition from `rest` comes
/// to: `v` in front of the items of `tail`. Where `tail` is `Incomplete`,
/// so is the whole, unless it has no bound and `v` alone is enough: then it
/// is `v`, on `rest`.
pub open spec fn after_match<'a, I, T, E>(
    v: T,
    rest: Input<'a, I>,
    min: nat,
    max: Option<usize>,
    tail: ParseResult<'a, I, Seq<T>, E>,
) -> ParseResult<'a, I, Seq<T>, E> {
    if tail is Incomplete && max is None && min <= 1 {
        ParseResult::Success(rest, seq![v])
    } else {
        prepended(v, tail)
    }
}

/// Whether `s` is a result of a repetition from `i` whose first attempt
/// had the outcome `o`: after a match, what follows from the match and a
/// repetition from where it left off, with one match fewer to demand and to
/// allow; after a definite failure, an empty list if none is demanded, and
/// the failure otherwise, either on `i`; after `Incomplete`, that.
pub open spec fn repeats_after<'a, I, T, E, F>(
    p: F,
    i: Input<'a, I>,
    min: nat,
    max: Option<usize>,
    o: ParseResult<'a, I, T, E>,
    s: ParseResult<'a, I, Seq<T>, E>,
) -> bool where F: FnOnce(Input<'a, I>) -> ParseResult<'a, I, T, E> {
    match o.classified() {
        ParseResult::Success(rest, v) => exists|tail: ParseResult<'a, I, Seq<T>, E>| #[trigger]
            repeats(p, rest, one_less(min), one_fewer(max), tail) && s == after_match(
                v,
                rest,
                min,
                max,
                tail,
            ),
        ParseResult::Error(_, e) => s == if min == 0 {
            ParseResult::<'a, I, Seq<T>, E>::Success(i, Seq::empty())
        } else {
            ParseResult::<'a, I, Seq<T>, E>::Error(i, e)
        },
        ParseResult::Incomplete(hint) => s == ParseResult::<'a, I, Seq<T>, E>::Incomplete(hint),
    }
}

/// A repetition that may match no more is an empty list on the input as it
/// is. Any other repetition is one attempt of `p` and what follows from its
/// outcome.
pub proof fn lemma_repeats_unfold<'a, I, T, E, F>(
    p: F,
    i: Input<'a, I>,
    min: nat,
    max: Option<usize>,
    s: ParseResult<'a, I, Seq<T>, E>,
) where F: FnOnce(Input<'a, I>) -> ParseResult<'a, I, T, E>
    requires
        repeats(p, i, min, max, s),
    ensures
        max == Some(0usize) ==> s == ParseResult::<'a, I, Seq<T>, E>::Success(i, Seq::empty()),
        max != Some(0usize) ==> exists|o: ParseResult<'a, I, T, E>| #[trigger]
            p.ensures((i,), o) && repeats_after(p, i, min, max, o, s),
{
    let outs = choose|outs: Seq<ParseResult<'a, I, T, E>>| #[trigger]
        is_repeat(p, i, max, outs) && s == repeat_result(i, min, max, outs);
    assert(values(outs, 0) =~= Seq::<T>::empty());
    if max != Some(0usize) {
        let o = outs[0];
        assert(attempt(p, i, outs, 0));
        match o.classified() {
            ParseResult::Success(rest, v) => {
                let next = one_less(min);
                let after = outs.skip(1);
                assert forall|k: int| 0 <= k < after.len() implies #[trigger] attempt(
                    p,
                    rest,
                    after,
                    k,
                ) && (k + 1 < after.len() ==> after[k].classified() is Success) by {
                    assert(attempt(p, i, outs, k + 1));
                    assert(after[k] == outs[k + 1]);
                    if k > 0 {
                        assert(after[k - 1] == outs[k]);
                    }
                }
                assert(is_chain(p, rest, after));
                if after.len() > 0 {
                    assert(after.last() == outs.last());
                }
                assert(is_repeat(p, rest, one_fewer(max), after));
                let tail = repeat_result(rest, next, one_fewer(max), after);
                let n = matched(outs);
                assert(matched(after) == n - 1);
                assert(values(outs, n) =~= seq![v] + values(after, n - 1));
                assert(values(outs, 1) =~= seq![v]);
                if n - 1 > 0 {
                    assert(after[n - 2] == outs[n - 1]);
                }
                assert(input_at(i, outs, n) == input_at(rest, after, n - 1));
                assert(s == after_match(v, rest, min, max, tail));
                assert(repeats(p, rest, next, one_fewer(max), tail));
            },
            _ => {
                assert(outs.len() == 1);
            },
        }
        assert(repeats_after(p, i, min, max, o, s));
    }
}

} // verus!
