//! Parsers built from other parsers: alternation, optional matches, and the
//! several forms of repetition.
//!
//! A parser is any function from an [`Input`] to a [`ParseResult`]. Each
//! combinator classifies the outcome of every parser it runs, so an attempt
//! that failed after running off the end of a partial buffer is read as
//! `Incomplete` and never as a definite failure.
//!
//! A combinator that runs one parser, or one alternative after another,
//! passes `Incomplete` on, and so do [`count`] and [`many_till`], which have
//! nothing to report before they are through. The open-ended repetitions,
//! [`many`], [`many1`], [`skip_many`], [`skip_many1`], [`sep_by`] and
//! [`sep_by1`], pass `Incomplete` on only from their first attempt: once
//! something has matched, an attempt that is `Incomplete` ends them like one
//! that fails, and what has matched is the result.
//!
//! The contracts speak of the outcomes that a parser can produce: for a
//! parser `p`, `p.ensures((input,), outcome)` says that `outcome` is one of
//! them on `input`. A combinator that runs a parser once promises a result
//! that follows from one such outcome. A repetition promises a result that
//! follows from a whole run: a sequence of outcomes, each one produced where
//! the one before it left off. The lemmas beside each combinator unfold such
//! a run one attempt at a time.
//!
//! Repetitions without a bound go on for as long as their parser matches, so
//! they ask for a parser that consumes something whenever it does; a list
//! asks that of its element or of its separator.

pub mod choice;
pub mod repeat;
pub mod sep;
pub mod till;

pub use self::choice::{either_of, matched_by, option, or};
pub use self::repeat::{count, many, many1, skip_many, skip_many1};
pub use self::sep::{sep_by, sep_by1};
pub use self::till::many_till;

use vstd::prelude::*;
use crate::input::Input;
use crate::result::ParseResult;

verus! {

/// `p` may be called on every well-formed input.
pub open spec fn total<'a, I: 'a, T, E, F>(p: F) -> bool where
    F: FnOnce(Input<'a, I>) -> ParseResult<'a, I, T, E>,
 {
    forall|j: Input<'a, I>| j@.wf() ==> #[trigger] p.requires((j,))
}

/// Every match of `p` consumes at least one token: it leaves strictly fewer
/// than it was given.
pub open spec fn productive<'a, I: 'a, T, E, F>(p: F) -> bool where
    F: FnOnce(Input<'a, I>) -> ParseResult<'a, I, T, E>,
 {
    forall|j: Input<'a, I>, o: ParseResult<'a, I, T, E>| #[trigger]
        p.ensures((j,), o) && o.classified() is Success ==> o.rest()@.left() < j@.left()
}

/// No match of `p` leaves more tokens than it was given.
pub open spec fn never_rewinds<'a, I: 'a, T, E, F>(p: F) -> bool where
    F: FnOnce(Input<'a, I>) -> ParseResult<'a, I, T, E>,
 {
    forall|j: Input<'a, I>, o: ParseResult<'a, I, T, E>| #[trigger]
        p.ensures((j,), o) && o.classified() is Success ==> o.rest()@.left() <= j@.left()
}

/// Every match of `p` on `i` leaves an input over the same buffer as `i`, at
/// or after the offset of `i`.
pub open spec fn moves_forward<'a, I, T, E, F>(p: F, i: Input<'a, I>) -> bool where
    F: FnOnce(Input<'a, I>) -> ParseResult<'a, I, T, E>,
 {
    forall|o: ParseResult<'a, I, T, E>| #[trigger]
        p.ensures((i,), o) && o.classified() is Success ==> o.rest()@.buffer == i@.buffer
            && o.rest()@.offset >= i@.offset
}

} // verus!
