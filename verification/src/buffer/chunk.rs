//! A stream over a source that delivers its tokens a chunk at a time.

use vstd::prelude::*;
use crate::buffer::{committed, keeps_buffer, reported, settle, StreamError};
use crate::input::{Input, InputView};
use crate::result::ParseResult;

verus! {

/// A stream that is refilled by its owner.
///
/// The owner fetches chunks from wherever the tokens come from and feeds them
/// in; the stream buffers what no parse has consumed yet. When the source has
/// no more to give, the owner says so with [`ChunkStream::finish`], and from
/// then on a parser that runs out of tokens is told that there are no more.
#[derive(Debug)]
pub struct ChunkStream<I> {
    buf: Vec<I>,
    pos: usize,
    ended: bool,
}

impl<I> ChunkStream<I> {
    /// No stream has consumed more than its buffer holds.
    #[verifier::type_invariant]
    spec fn inv(self) -> bool {
        self.pos <= self.buf@.len()
    }

    /// The tokens that have been fed and not yet consumed: what the next
    /// parse will see.
    pub closed spec fn unconsumed(self) -> Seq<I> {
        self.buf@.skip(self.pos as int)
    }

    /// Whether the source has been declared finished.
    pub closed spec fn ended(self) -> bool {
        self.ended
    }

    /// Whether the source is finished and everything it gave is consumed.
    pub open spec fn exhausted(self) -> bool {
        self.ended() && self.unconsumed().len() == 0
    }

    /// Creates a stream with nothing buffered, over a source that may still
    /// deliver.
    pub fn new() -> (s: Self)
        ensures
            s.unconsumed() == Seq::<I>::empty(),
            !s.ended(),
    {
        let s = ChunkStream { buf: Vec::new(), pos: 0, ended: false };
        assert(s.unconsumed() =~= Seq::<I>::empty());
        s
    }

    /// Appends a chunk behind the tokens that are buffered. What has been
    /// consumed already is dropped from the buffer.
    pub fn feed(&mut self, chunk: &[I]) where I: Copy
        ensures
            final(self).unconsumed() == old(self).unconsumed() + chunk@,
            final(self).ended() == old(self).ended(),
    {
        proof {
            use_type_invariant(&*self);
        }
        let ghost kept = self.unconsumed();
        let mut rest: Vec<I> = Vec::new();
        let mut at: usize = self.pos;
        while at < self.buf.len()
            invariant
                self.pos <= at <= self.buf@.len(),
                rest@ == self.buf@.subrange(self.pos as int, at as int),
            decreases self.buf@.len() - at,
        {
            rest.push(self.buf[at]);
            at = at + 1;
            assert(rest@ =~= self.buf@.subrange(self.pos as int, at as int));
        }
        assert(rest@ =~= kept);
        let mut k: usize = 0;
        while k < chunk.len()
            invariant
                k <= chunk@.len(),
                rest@ == kept + chunk@.take(k as int),
            decreases chunk@.len() - k,
        {
            rest.push(chunk[k]);
            k = k + 1;
            assert(rest@ =~= kept + chunk@.take(k as int));
        }
        assert(chunk@.take(k as int) =~= chunk@);
        self.pos = 0;
        self.buf = rest;
        assert(self.unconsumed() =~= old(self).unconsumed() + chunk@);
    }

    /// Declares that the source has nothing more to deliver.
    pub fn finish(&mut self)
        ensures
            final(self).unconsumed() == old(self).unconsumed(),
            final(self).ended(),
    {
        proof {
            use_type_invariant(&*self);
        }
        self.ended = true;
    }

    /// The number of tokens buffered and not yet consumed.
    pub fn len(&self) -> (n: usize)
        ensures
            n == self.unconsumed().len(),
    {
        proof {
            use_type_invariant(self);
        }
        self.buf.len() - self.pos
    }

    /// Whether no unconsumed tokens are buffered.
    pub fn is_empty(&self) -> (b: bool)
        ensures
            b <==> self.unconsumed().len() == 0,
    {
        self.len() == 0
    }

    /// Whether the source is finished and everything it gave is consumed.
    pub fn is_exhausted(&self) -> (b: bool)
        ensures
            b == self.exhausted(),
    {
        self.ended && self.len() == 0
    }

    /// Runs `f` on the buffered tokens and commits what it consumed.
    ///
    /// An exhausted stream reports `EndOfInput` without running `f`.
    /// Otherwise `f` sees exactly the unconsumed tokens, as a partial input
    /// while the source may still deliver and as a complete one once it is
    /// finished. A match yields its value; a definite failure yields
    /// `ParseError` with the tokens after the point of failure; both advance
    /// the stream by what was consumed. `Incomplete` commits nothing, so that
    /// the same tokens, and what is fed behind them, are parsed the next
    /// time; it is reported as `Incomplete` while the source may still
    /// deliver, and as `EndOfInput` once it is finished.
    ///
    /// Unless the stream is exhausted, `f` must accept that input and answer
    /// with an input over the buffer it was given.
    pub fn parse<'a, F, T, E>(&'a mut self, f: F) -> (r: Result<T, StreamError<&'a [I], E>>) where
        F: FnOnce(Input<'a, I>) -> ParseResult<'a, I, T, E>,

        requires
            !old(self).exhausted() ==> forall|j: Input<'a, I>|
                j@ == InputView::fresh(old(self).unconsumed(), !old(self).ended())
                    ==> #[trigger] f.requires((j,)) && keeps_buffer(f, j),
        ensures
            final(self).ended() == old(self).ended(),
            old(self).exhausted() ==> r == Err::<T, StreamError<&'a [I], E>>(
                StreamError::EndOfInput,
            ),
            r is Err && !(r->Err_0 is ParseError) ==> final(self).unconsumed() == old(
                self,
            ).unconsumed(),
            !old(self).exhausted() ==> exists|j: Input<'a, I>, o: ParseResult<'a, I, T, E>|
                {
                    &&& j@ == InputView::fresh(old(self).unconsumed(), !old(self).ended())
                    &&& #[trigger] f.ensures((j,), o)
                    &&& final(self).unconsumed() == old(self).unconsumed().skip(
                        committed(o.classified()) as int,
                    )
                    &&& reported(o.classified(), old(self).ended(), r)
                },
    {
        proof {
            use_type_invariant(&*self);
        }
        if self.is_exhausted() {
            return Err(StreamError::EndOfInput);
        }
        let ended = self.ended;
        let tokens = &self.buf[self.pos..self.buf.len()];
        let input = if ended {
            Input::new(tokens)
        } else {
            Input::partial(tokens)
        };
        let ghost j = input;
        assert(j@.buffer =~= self.unconsumed());
        let raw = f(input);
        let ghost o = raw;
        let step = raw.classify();
        proof {
            assert(f.requires((j,)) && keeps_buffer(f, j));
            assert(f.ensures((j,), o));
            if !(step is Incomplete) {
                assert(step.rest() == o.rest());
            }
        }
        match &step {
            ParseResult::Success(rest, _) => {
                proof {
                    use_type_invariant(rest);
                }
            },
            ParseResult::Error(rest, _) => {
                proof {
                    use_type_invariant(rest);
                }
            },
            ParseResult::Incomplete(_) => {},
        }
        let (n, r) = settle(step, ended);
        self.pos = self.pos + n;
        assert(self.unconsumed() =~= old(self).unconsumed().skip(n as int));
        assert(n == 0 ==> self.unconsumed() =~= old(self).unconsumed());
        r
    }
}

} // verus!
