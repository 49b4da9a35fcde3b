//! Combinators that run a parser once and decide what to do with a failure.

use vstd::prelude::*;
use either::Either;
use crate::combinators::moves_forward;
use crate::input::Input;
use crate::result::ParseResult;

verus! {

/// Makes `either::Either` known to the verifier: the enum of the `either`
/// crate with its two variants, `Left(L)` and `Right(R)`, as that crate
/// declares them. Nothing is claimed of any function of the crate; verified
/// code only builds and matches the variants.
#[verifier::external_type_specification]
#[verifier::reject_recursive_types(L)]
#[verifier::reject_recursive_types(R)]
pub struct ExEither<L, R>(either::Either<L, R>);

/// What [`option`] makes of the classified outcome `step` of its parser on
/// `start`.
pub open spec fn option_result<'a, I, T, E>(
    start: Input<'a, I>,
    step: ParseResult<'a, I, T, E>,
    default: T,
) -> ParseResult<'a, I, T, E> {
    match step {
        ParseResult::Error(_, _) => ParseResult::Success(start, default),
        _ => step,
    }
}

/// Tries `f`. A match is passed on; a definite failure is replaced by a match
/// of `default` that consumes nothing; `Incomplete` is passed on, never
/// papered over with `default`.
pub fn option<'a, I, T, E, F>(i: Input<'a, I>, f: F, default: T) -> (r: ParseResult<
    'a,
    I,
    T,
    E,
>) where F: FnOnce(Input<'a, I>) -> ParseResult<'a, I, T, E>
    requires
        f.requires((i,)),
    ensures
        exists|o: ParseResult<'a, I, T, E>| #[trigger]
            f.ensures((i,), o) && r == option_result(i, o.classified(), default),
{
    let m = i.mark();
    match f(i).classify() {
        ParseResult::Error(rest, _) => ParseResult::Success(rest.restore(m), default),
        other => other,
    }
}

/// Whether `r` is what [`or`] may return for the alternatives `f` and `g` on
/// `i`: the classified outcome of `f` unless that is a definite failure, and
/// then the classified outcome of `g` on `i`.
pub open spec fn or_outcome<'a, I, T, E, F, G>(
    f: F,
    g: G,
    i: Input<'a, I>,
    r: ParseResult<'a, I, T, E>,
) -> bool where
    F: FnOnce(Input<'a, I>) -> ParseResult<'a, I, T, E>,
    G: FnOnce(Input<'a, I>) -> ParseResult<'a, I, T, E>,
 {
    exists|o: ParseResult<'a, I, T, E>| #[trigger]
        f.ensures((i,), o) && if o.classified() is Error {
            exists|o2: ParseResult<'a, I, T, E>| #[trigger]
                g.ensures((i,), o2) && r == o2.classified()
        } else {
            r == o.classified()
        }
}

/// Tries `f`; if it definitely fails, rewinds and tries `g` on the same
/// input. `Incomplete` from `f` is passed on without trying `g`.
pub fn or<'a, I, T, E, F, G>(i: Input<'a, I>, f: F, g: G) -> (r: ParseResult<'a, I, T, E>) where
    F: FnOnce(Input<'a, I>) -> ParseResult<'a, I, T, E>,
    G: FnOnce(Input<'a, I>) -> ParseResult<'a, I, T, E>,

    requires
        f.requires((i,)),
        g.requires((i,)),
    ensures
        or_outcome(f, g, i, r),
{
    let m = i.mark();
    match f(i).classify() {
        ParseResult::Error(rest, _) => g(rest.restore(m)).classify(),
        other => other,
    }
}

/// Whether `r` is what [`either_of`] may return for the alternatives `f` and
/// `g` on `i`: as for [`or`], with the value tagged by the alternative that
/// produced it.
pub open spec fn either_outcome<'a, I, T, U, E, F, G>(
    f: F,
    g: G,
    i: Input<'a, I>,
    r: ParseResult<'a, I, Either<T, U>, E>,
) -> bool where
    F: FnOnce(Input<'a, I>) -> ParseResult<'a, I, T, E>,
    G: FnOnce(Input<'a, I>) -> ParseResult<'a, I, U, E>,
 {
    exists|o: ParseResult<'a, I, T, E>| #[trigger]
        f.ensures((i,), o) && if o.classified() is Error {
            exists|o2: ParseResult<'a, I, U, E>| #[trigger]
                g.ensures((i,), o2) && r == o2.classified().map_value(
                    |u: U| Either::<T, U>::Right(u),
                )
        } else {
            r == o.classified().map_value(|t: T| Either::<T, U>::Left(t))
        }
}

/// Like [`or`] for alternatives of different types: a match of `f` comes
/// back as `Left`, a match of `g` as `Right`.
pub fn either_of<'a, I, T, U, E, F, G>(i: Input<'a, I>, f: F, g: G) -> (r: ParseResult<
    'a,
    I,
    Either<T, U>,
    E,
>) where
    F: FnOnce(Input<'a, I>) -> ParseResult<'a, I, T, E>,
    G: FnOnce(Input<'a, I>) -> ParseResult<'a, I, U, E>,

    requires
        f.requires((i,)),
        g.requires((i,)),
    ensures
        either_outcome(f, g, i, r),
{
    let m = i.mark();
    match f(i).classify() {
        ParseResult::Success(rest, t) => ParseResult::Success(rest, Either::Left(t)),
        ParseResult::Incomplete(hint) => ParseResult::Incomplete(hint),
        ParseResult::Error(rest, _) => match g(rest.restore(m)).classify() {
            ParseResult::Success(rest, u) => ParseResult::Success(rest, Either::Right(u)),
            ParseResult::Error(rest, e) => ParseResult::Error(rest, e),
            ParseResult::Incomplete(hint) => ParseResult::Incomplete(hint),
        },
    }
}

/// Whether `r` is what [`matched_by`] makes of the classified outcome `step`
/// of its parser on `start`: a match gains the tokens between the two
/// offsets, anything else is passed on.
pub open spec fn matched_result<'a, I, T, E>(
    start: Input<'a, I>,
    step: ParseResult<'a, I, T, E>,
    r: ParseResult<'a, I, (&'a [I], T), E>,
) -> bool {
    match step {
        ParseResult::Success(rest, t) => r is Success && r.rest() == rest && r.value().1 == t
            && r.value().0@ == start@.buffer.subrange(
            start@.offset as int,
            rest@.offset as int,
        ),
        ParseResult::Error(rest, e) => r == ParseResult::<'a, I, (&'a [I], T), E>::Error(rest, e),
        ParseResult::Incomplete(hint) => r == ParseResult::<
            'a,
            I,
            (&'a [I], T),
            E,
        >::Incomplete(hint),
    }
}

/// Runs `f` and returns, beside its value, exactly the tokens it consumed.
///
/// `f` must leave its input on the buffer it was given, at or after the
/// offset it started from.
pub fn matched_by<'a, I, T, E, F>(i: Input<'a, I>, f: F) -> (r: ParseResult<
    'a,
    I,
    (&'a [I], T),
    E,
>) where F: FnOnce(Input<'a, I>) -> ParseResult<'a, I, T, E>
    requires
        f.requires((i,)),
        moves_forward(f, i),
    ensures
        exists|o: ParseResult<'a, I, T, E>| #[trigger]
            f.ensures((i,), o) && matched_result(i, o.classified(), r),
{
    let m = i.mark();
    match f(i).classify() {
        ParseResult::Success(rest, t) => {
            let matched = rest.consume_from(m);
            ParseResult::Success(rest, (matched, t))
        },
        ParseResult::Error(rest, e) => ParseResult::Error(rest, e),
        ParseResult::Incomplete(hint) => ParseResult::Incomplete(hint),
    }
}

/// When its parser reports `Incomplete`, so does [`option`]; and a match that
/// [`option`] reports is either the parser's own or stands for a definite
/// failure of the parser. The default never stands for `Incomplete`.
pub proof fn lemma_option_keeps_incomplete<'a, I, T, E>(
    start: Input<'a, I>,
    o: ParseResult<'a, I, T, E>,
    default: T,
)
    ensures
        o.classified() is Incomplete <==> option_result(start, o.classified(), default) is Incomplete,
        option_result(start, o.classified(), default) is Success ==> o.classified() is Success
            || o.classified() is Error,
        !(option_result(start, o.classified(), default) is Error),
        o.classified() is Error ==> option_result(start, o.classified(), default)
            == ParseResult::<'a, I, T, E>::Success(start, default),
{
}

} // verus!
