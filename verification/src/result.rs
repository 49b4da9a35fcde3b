//! The three-way outcome of a parse step, and the single place where a
//! parser is run and its outcome classified.

use vstd::prelude::*;
use crate::input::Input;

verus! {

/// What one parser invocation produced.
#[derive(Debug, PartialEq, Eq)]
pub enum ParseResult<'a, I, T, E> {
    /// The parser matched: the input that is left, and the parsed value.
    Success(Input<'a, I>, T),
    /// The input does not match: the input at the point of failure, and the
    /// parser's description of what went wrong.
    Error(Input<'a, I>, E),
    /// No verdict is possible without more input. The hint, where there is
    /// one, is the number of further tokens needed.
    Incomplete(Option<usize>),
}

impl<'a, I, T, E> ParseResult<'a, I, T, E> {
    /// The input carried by a `Success` or an `Error`.
    pub open spec fn rest(self) -> Input<'a, I> {
        match self {
            ParseResult::Success(rest, _) => rest,
            ParseResult::Error(rest, _) => rest,
            ParseResult::Incomplete(_) => arbitrary(),
        }
    }

    /// The value carried by a `Success`.
    pub open spec fn value(self) -> T {
        match self {
            ParseResult::Success(_, value) => value,
            _ => arbitrary(),
        }
    }

    /// The outcome as every combinator reads it: a failure whose input has
    /// run off the end of a partial buffer is no verdict at all, since more
    /// tokens might have turned it into a match. Everything else stands.
    pub open spec fn classified(self) -> Self {
        match self {
            ParseResult::Error(rest, _) if rest@.incomplete => ParseResult::Incomplete(None),
            _ => self,
        }
    }

    /// Whether classification leaves this outcome as it is.
    pub open spec fn settled(self) -> bool {
        self matches ParseResult::Error(rest, _) ==> !rest@.incomplete
    }

    /// The same outcome with the success value replaced by `f` of it.
    pub open spec fn map_value<U>(self, f: spec_fn(T) -> U) -> ParseResult<'a, I, U, E> {
        match self {
            ParseResult::Success(rest, value) => ParseResult::Success(rest, f(value)),
            ParseResult::Error(rest, error) => ParseResult::Error(rest, error),
            ParseResult::Incomplete(hint) => ParseResult::Incomplete(hint),
        }
    }

    /// Classifies a raw parser outcome.
    pub fn classify(self) -> (r: Self)
        ensures
            r == self.classified(),
    {
        match self {
            ParseResult::Error(rest, error) => {
                if rest.is_incomplete() {
                    ParseResult::Incomplete(None)
                } else {
                    ParseResult::Error(rest, error)
                }
            },
            other => other,
        }
    }
}

/// Classifying is idempotent, and what it yields is settled.
pub proof fn lemma_classified_settled<'a, I, T, E>(o: ParseResult<'a, I, T, E>)
    ensures
        o.classified().settled(),
        o.classified().classified() == o.classified(),
        o.settled() <==> o.classified() == o,
{
}

/// Runs `parser` on `input` exactly once and classifies what it returns.
pub fn run<'a, I, T, E, F>(parser: F, input: Input<'a, I>) -> (r: ParseResult<'a, I, T, E>) where
    F: FnOnce(Input<'a, I>) -> ParseResult<'a, I, T, E>,

    requires
        parser.requires((input,)),
    ensures
        exists|o: ParseResult<'a, I, T, E>| #[trigger]
            parser.ensures((input,), o) && r == o.classified(),
{
    parser(input).classify()
}

} // verus!
