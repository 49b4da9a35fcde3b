//! A stream over tokens that are all in memory already.

use vstd::prelude::*;
use crate::buffer::{committed, keeps_buffer, reported, settle, StreamError};
use crate::collect::Collector;
use crate::combinators::repeat::{collected, lemma_many_maximal, repeats};
use crate::input::{Input, InputView};
use crate::result::ParseResult;

verus! {

/// A stream over an immutable slice. Nothing is ever added to it: each parse
/// consumes from the front of what is left.
#[derive(Debug, PartialEq, Eq, Hash)]
pub struct SliceStream<'i, I> {
    pos: usize,
    slice: &'i [I],
}

impl<'i, I> SliceStream<'i, I> {
    /// No stream has consumed more than its slice holds.
    #[verifier::type_invariant]
    pub open spec fn inv(self) -> bool {
        self.consumed() <= self.source().len()
    }

    /// All tokens of the slice, consumed or not.
    pub closed spec fn source(self) -> Seq<I> {
        self.slice@
    }

    /// The number of tokens that parses have consumed so far.
    pub closed spec fn consumed(self) -> nat {
        self.pos as nat
    }

    /// The tokens that the next parse will see.
    pub open spec fn unconsumed(self) -> Seq<I> {
        self.source().skip(self.consumed() as int)
    }

    /// Creates a stream over `slice` with nothing consumed.
    pub fn new(slice: &'i [I]) -> (s: Self)
        ensures
            s.source() == slice@,
            s.consumed() == 0,
    {
        SliceStream { pos: 0, slice }
    }

    /// The number of tokens left in the stream.
    pub fn len(&self) -> (n: usize)
        ensures
            n == self.source().len() - self.consumed(),
            n == self.unconsumed().len(),
    {
        proof {
            use_type_invariant(self);
        }
        self.slice.len() - self.pos
    }

    /// Whether no tokens are left.
    pub fn is_empty(&self) -> (b: bool)
        ensures
            b <==> self.consumed() == self.source().len(),
            b <==> self.unconsumed().len() == 0,
    {
        self.len() == 0
    }

    /// Runs `f` on the tokens that are left and commits what it consumed.
    ///
    /// An empty stream reports `EndOfInput` without running `f`. Otherwise
    /// `f` sees a partial input over exactly the unconsumed tokens. A match
    /// yields its value; a definite failure yields `ParseError` with the
    /// tokens after the point of failure; both advance the stream by what was
    /// consumed. `Incomplete` leaves the stream where it was.
    ///
    /// Unless the stream is empty, `f` must accept that input and answer with
    /// an input over the buffer it was given.
    pub fn parse<F, T, E>(&mut self, f: F) -> (r: Result<T, StreamError<&'i [I], E>>) where
        F: FnOnce(Input<'i, I>) -> ParseResult<'i, I, T, E>,

        requires
            old(self).unconsumed().len() > 0 ==> forall|j: Input<'i, I>|
                j@ == InputView::fresh(old(self).unconsumed(), true) ==> #[trigger] f.requires(
                    (j,),
                ) && keeps_buffer(f, j),
        ensures
            parsed(*old(self), f, *final(self), r),
            r is Err && !(r->Err_0 is ParseError) ==> final(self).consumed() == old(
                self,
            ).consumed(),
    {
        proof {
            use_type_invariant(&*self);
        }
        if self.is_empty() {
            return Err(StreamError::EndOfInput);
        }
        let input = Input::partial(&self.slice[self.pos..self.slice.len()]);
        let ghost j = input;
        assert(j@.buffer =~= self.unconsumed());
        let raw = f(input);
        let ghost o = raw;
        let step = raw.classify();
        proof {
            assert(f.requires((j,)) && keeps_buffer(f, j));
            assert(f.ensures((j,), o));
            if !(step is Incomplete) {
                assert(step.rest() == o.rest());
                assert(step.rest()@.buffer == j@.buffer);
            }
        }
        match &step {
            ParseResult::Success(rest, _) => {
                proof {
                    use_type_invariant(rest);
                }
            },
            ParseResult::Error(rest, _) => {
                proof {
                    use_type_invariant(rest);
                }
            },
            ParseResult::Incomplete(_) => {},
        }
        let (n, r) = settle(step, false);
        self.pos = self.pos + n;
        proof {
            assert(f.ensures((j,), o));
        }
        r
    }
}

/// Whether `after` and `r` are what [`SliceStream::parse`] makes of the
/// stream `before` and the parser `f`.
///
/// The slice stays. An empty stream stays as it is and reports `EndOfInput`.
/// Otherwise there is an outcome of `f` on a fresh partial input over the
/// unconsumed tokens, the stream has moved on by what that outcome commits,
/// which is never more than there was, and `r` is what is reported for it.
pub open spec fn parsed<'i, I, T, E, F>(
    before: SliceStream<'i, I>,
    f: F,
    after: SliceStream<'i, I>,
    r: Result<T, StreamError<&'i [I], E>>,
) -> bool where F: FnOnce(Input<'i, I>) -> ParseResult<'i, I, T, E> {
    &&& after.source() == before.source()
    &&& if before.unconsumed().len() == 0 {
        after.consumed() == before.consumed() && r == Err::<T, StreamError<&'i [I], E>>(
            StreamError::EndOfInput,
        )
    } else {
        exists|j: Input<'i, I>, o: ParseResult<'i, I, T, E>|
            {
                &&& j@ == InputView::fresh(before.unconsumed(), true)
                &&& #[trigger] f.ensures((j,), o)
                &&& committed(o.classified()) <= before.unconsumed().len()
                &&& after.consumed() == before.consumed() + committed(o.classified())
                &&& reported(o.classified(), false, r)
            }
    }
}

/// A stream is its slice and the number of tokens consumed: two streams that
/// agree in both are the same stream.
pub proof fn lemma_stream_determined<'i, I>(s: SliceStream<'i, I>, t: SliceStream<'i, I>)
    requires
        s.source() == t.source(),
        s.consumed() == t.consumed(),
    ensures
        s == t,
{
    assert(s.slice =~= t.slice);
}

/// Whether `p` matches depends on nothing but the tokens that are left: on
/// two inputs with the same tokens left, `p` matches on both or on neither.
pub open spec fn matches_by_tokens<'a, I: 'a, T, E, P>(p: P) -> bool where
    P: FnOnce(Input<'a, I>) -> ParseResult<'a, I, T, E>,
 {
    forall|
        j1: Input<'a, I>,
        j2: Input<'a, I>,
        o1: ParseResult<'a, I, T, E>,
        o2: ParseResult<'a, I, T, E>,
    |
        j1@.remaining() == j2@.remaining() && #[trigger] p.ensures((j1,), o1)
            && #[trigger] p.ensures((j2,), o2) ==> (o1 is Success <==> o2 is Success)
}

/// After a parse of `many` of `p` has yielded its list, a parse of `p` on
/// the same stream yields nothing: the list was the longest there is.
///
/// Here `f` stands for `many` of `p`, `s0`, `s1` and `s2` are the stream
/// before the first parse, between the two, and after the second, and `r1`
/// and `r2` are what the two parses return. The second parse runs `p` on a
/// fresh input, not on the one that `many` left, so this holds for parsers
/// that match by the tokens left alone.
pub proof fn lemma_parse_after_many<'i, I, T, E, C, F, P>(
    p: P,
    f: F,
    s0: SliceStream<'i, I>,
    s1: SliceStream<'i, I>,
    s2: SliceStream<'i, I>,
    r1: Result<C, StreamError<&'i [I], E>>,
    r2: Result<T, StreamError<&'i [I], E>>,
) where
    P: FnOnce(Input<'i, I>) -> ParseResult<'i, I, T, E>,
    F: FnOnce(Input<'i, I>) -> ParseResult<'i, I, C, E>,
    C: Collector<T>,

    requires
        s0.inv(),
        forall|j: Input<'i, I>, o: ParseResult<'i, I, C, E>| #[trigger]
            f.ensures((j,), o) ==> repeats(p, j, 0, None, collected(o)),
        forall|j: Input<'i, I>| #[trigger] keeps_buffer(f, j),
        matches_by_tokens(p),
        parsed(s0, f, s1, r1),
        parsed(s1, p, s2, r2),
        r1 is Ok,
    ensures
        !(r2 is Ok),
{
    let (j, o) = choose|j: Input<'i, I>, o: ParseResult<'i, I, C, E>|
        {
            &&& j@ == InputView::fresh(s0.unconsumed(), true)
            &&& #[trigger] f.ensures((j,), o)
            &&& committed(o.classified()) <= s0.unconsumed().len()
            &&& s1.consumed() == s0.consumed() + committed(o.classified())
            &&& reported(o.classified(), false, r1)
        };
    assert(keeps_buffer(f, j));
    let rest = o.rest();
    assert(o.classified() is Success);
    assert(rest@.buffer == s0.unconsumed());
    assert(rest@.remaining() =~= s1.unconsumed());
    lemma_many_maximal(p, j, collected(o));
    let seen = choose|x: ParseResult<'i, I, T, E>| #[trigger]
        p.ensures((rest,), x) && !(x.classified() is Success);
    if s1.unconsumed().len() > 0 {
        let (j2, o2) = choose|j2: Input<'i, I>, o2: ParseResult<'i, I, T, E>|
            {
                &&& j2@ == InputView::fresh(s1.unconsumed(), true)
                &&& #[trigger] p.ensures((j2,), o2)
                &&& committed(o2.classified()) <= s1.unconsumed().len()
                &&& s2.consumed() == s1.consumed() + committed(o2.classified())
                &&& reported(o2.classified(), false, r2)
            };
        assert(j2@.remaining() =~= s1.unconsumed());
        assert(!(seen is Success));
        assert(!(o2 is Success));
    }
}

} // verus!
