//! Streams: owners of a source of tokens that hand the unconsumed part of it
//! to a parser, one parse at a time, and keep track of what has been
//! consumed.

pub mod chunk;
pub mod slice;

pub use self::chunk::ChunkStream;
pub use self::slice::SliceStream;

use vstd::prelude::*;
use crate::input::Input;
use crate::result::ParseResult;

verus! {

/// Why a stream could not produce a value.
#[derive(Debug, PartialEq, Eq)]
pub enum StreamError<B, E> {
    /// The source is exhausted: it cannot supply the tokens that the parser
    /// still wants.
    EndOfInput,
    /// The parser wants more tokens than are buffered, and the source may
    /// still supply them: refill and try again.
    Incomplete,
    /// The input does not match. Carries the tokens left unconsumed and the
    /// parser's error.
    ParseError(B, E),
}

/// Every verdict of `f` on `j`, match or failure, leaves an input over the
/// buffer of `j`.
pub open spec fn keeps_buffer<'a, I, T, E, F>(f: F, j: Input<'a, I>) -> bool where
    F: FnOnce(Input<'a, I>) -> ParseResult<'a, I, T, E>,
 {
    forall|o: ParseResult<'a, I, T, E>| #[trigger]
        f.ensures((j,), o) && !(o.classified() is Incomplete) ==> o.rest()@.buffer == j@.buffer
}

/// The number of tokens that a stream commits for the classified outcome
/// `step`: whatever a match or a definite failure has moved past, and nothing
/// for `Incomplete`, so that the same tokens are parsed again after a refill.
pub open spec fn committed<'a, I, T, E>(step: ParseResult<'a, I, T, E>) -> nat {
    match step {
        ParseResult::Success(rest, _) => rest@.offset,
        ParseResult::Error(rest, _) => rest@.offset,
        ParseResult::Incomplete(_) => 0,
    }
}

/// Whether `r` is what a stream reports for the classified outcome `step`.
/// `ended` says that the source can supply no more tokens.
pub open spec fn reported<'a, I, T, E>(
    step: ParseResult<'a, I, T, E>,
    ended: bool,
    r: Result<T, StreamError<&'a [I], E>>,
) -> bool {
    match step {
        ParseResult::Success(_, t) => r == Ok::<T, StreamError<&'a [I], E>>(t),
        ParseResult::Error(rest, e) => r matches Err(StreamError::ParseError(tail, error))
            && tail@ == rest@.remaining() && error == e,
        ParseResult::Incomplete(_) => r == Err::<T, StreamError<&'a [I], E>>(
            if ended {
                StreamError::EndOfInput
            } else {
                StreamError::Incomplete
            },
        ),
    }
}

/// Turns the classified outcome of a parse into the number of tokens to
/// commit and the result to report.
pub(crate) fn settle<'a, I, T, E>(step: ParseResult<'a, I, T, E>, ended: bool) -> (r: (
    usize,
    Result<T, StreamError<&'a [I], E>>,
))
    ensures
        r.0 == committed(step),
        reported(step, ended, r.1),
{
    match step {
        ParseResult::Success(rest, t) => (rest.offset(), Ok(t)),
        ParseResult::Error(rest, e) => {
            let mut rest = rest;
            let n = rest.offset();
            let tail = rest.consume_remaining();
            (n, Err(StreamError::ParseError(tail, e)))
        },
        ParseResult::Incomplete(_) => {
            if ended {
                (0, Err(StreamError::EndOfInput))
            } else {
                (0, Err(StreamError::Incomplete))
            }
        },
    }
}

} // verus!
