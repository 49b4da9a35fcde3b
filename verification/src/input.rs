//! The cursor that parsers consume: a borrowed run of tokens, a read offset
//! into it, and the bookkeeping needed to tell "this cannot match" apart from
//! "this cannot match *yet*".

use vstd::prelude::*;

verus! {

/// What a cursor is, mathematically.
pub struct InputView<I> {
    /// Every token of the underlying buffer, consumed or not.
    pub buffer: Seq<I>,
    /// How many tokens of `buffer` have been consumed.
    pub offset: nat,
    /// Whether more tokens may still be appended after the end of `buffer`.
    pub partial: bool,
    /// Whether an operation has run off the end of `buffer` while more tokens
    /// might still have arrived.
    pub incomplete: bool,
}

impl<I> InputView<I> {
    /// The offset lies inside the buffer, the buffer is one that fits in
    /// memory, and only a partial buffer can have been found incomplete.
    pub open spec fn wf(self) -> bool {
        &&& self.offset <= self.buffer.len() <= usize::MAX
        &&& self.incomplete ==> self.partial
    }

    /// The number of tokens not yet consumed.
    pub open spec fn left(self) -> int {
        self.buffer.len() - self.offset
    }

    /// The tokens not yet consumed.
    pub open spec fn remaining(self) -> Seq<I> {
        self.buffer.skip(self.offset as int)
    }

    /// The cursor after consuming `n` more tokens.
    pub open spec fn advance(self, n: nat) -> Self {
        InputView { offset: self.offset + n, ..self }
    }

    /// The cursor after an operation has asked for a token past the end: a
    /// partial buffer is flagged incomplete, a complete one is unchanged.
    pub open spec fn ran_out(self) -> Self {
        InputView { incomplete: self.incomplete || self.partial, ..self }
    }

    /// A cursor at the start of `buffer` that has not run off its end.
    pub open spec fn fresh(buffer: Seq<I>, partial: bool) -> Self {
        InputView { buffer, offset: 0, partial, incomplete: false }
    }
}

/// A positioned, immutable view over the tokens being parsed.
///
/// The tokens are borrowed, never copied. Every operation either leaves the
/// cursor where it is or moves it forward; the only way back is
/// [`Input::restore`] with a [`Mark`] taken earlier.
#[derive(Debug, PartialEq, Eq)]
pub struct Input<'a, I> {
    buf: &'a [I],
    pos: usize,
    partial: bool,
    incomplete: bool,
}

/// A snapshot of a cursor, taken by [`Input::mark`] and handed back to
/// [`Input::restore`] to rewind.
///
/// It records the position and end-of-data state together with a reference to
/// the buffer they belong to, so that it cannot be applied to a buffer it does
/// not fit. No token is copied.
#[derive(Debug)]
pub struct Mark<'a, I> {
    buf: &'a [I],
    pos: usize,
    partial: bool,
    incomplete: bool,
}

impl<'a, I> View for Input<'a, I> {
    type V = InputView<I>;

    closed spec fn view(&self) -> InputView<I> {
        InputView {
            buffer: self.buf@,
            offset: self.pos as nat,
            partial: self.partial,
            incomplete: self.incomplete,
        }
    }
}

impl<'a, I> Clone for Mark<'a, I> {
    fn clone(&self) -> (m: Self)
        ensures
            m == *self,
    {
        *self
    }
}

impl<'a, I> Copy for Mark<'a, I> {

}

impl<'a, I> Mark<'a, I> {
    /// Every mark is a snapshot of a well-formed cursor.
    #[verifier::type_invariant]
    pub open spec fn inv(self) -> bool {
        self.origin()@.wf()
    }

    /// The cursor this mark was taken from.
    pub closed spec fn origin(self) -> Input<'a, I> {
        Input { buf: self.buf, pos: self.pos, partial: self.partial, incomplete: self.incomplete }
    }

    /// The cursor this mark was taken from, for when an attempt has ended
    /// without leaving a cursor to rewind.
    pub fn input(self) -> (r: Input<'a, I>)
        ensures
            r == self.origin(),
    {
        proof {
            use_type_invariant(&self);
        }
        Input { buf: self.buf, pos: self.pos, partial: self.partial, incomplete: self.incomplete }
    }
}

impl<'a, I> Input<'a, I> {
    /// Every cursor is well-formed.
    #[verifier::type_invariant]
    pub open spec fn inv(self) -> bool {
        self@.wf()
    }

    /// The snapshot that [`Input::mark`] takes of this cursor.
    pub closed spec fn spec_mark(self) -> Mark<'a, I> {
        Mark { buf: self.buf, pos: self.pos, partial: self.partial, incomplete: self.incomplete }
    }

    /// The cursor that [`Input::restore`] rewinds to.
    pub open spec fn spec_restore(self, m: Mark<'a, I>) -> Input<'a, I> {
        m.origin()
    }

    /// A cursor at the start of a buffer that is known to be all there is:
    /// running off its end is a definite failure, never "incomplete".
    pub fn new(buf: &'a [I]) -> (r: Self)
        ensures
            r@ == InputView::fresh(buf@, false),
    {
        assert(buf.len() == buf@.len());
        Input { buf, pos: 0, partial: false, incomplete: false }
    }

    /// A cursor at the start of a buffer that may still grow: running off its
    /// end flags the cursor incomplete.
    pub fn partial(buf: &'a [I]) -> (r: Self)
        ensures
            r@ == InputView::fresh(buf@, true),
    {
        assert(buf.len() == buf@.len());
        Input { buf, pos: 0, partial: true, incomplete: false }
    }

    /// The number of tokens not yet consumed.
    pub fn len(&self) -> (n: usize)
        ensures
            n == self@.left(),
    {
        proof {
            use_type_invariant(self);
        }
        self.buf.len() - self.pos
    }

    /// Whether every token has been consumed.
    pub fn is_empty(&self) -> (b: bool)
        ensures
            b <==> self@.left() == 0,
    {
        proof {
            use_type_invariant(self);
        }
        self.pos == self.buf.len()
    }

    /// The number of tokens consumed so far.
    pub fn offset(&self) -> (n: usize)
        ensures
            n == self@.offset,
    {
        self.pos
    }

    /// Whether more tokens may arrive after the end of the buffer.
    pub fn is_partial(&self) -> (b: bool)
        ensures
            b == self@.partial,
    {
        self.partial
    }

    /// Whether an operation on this cursor has run off the end of a partial
    /// buffer.
    pub fn is_incomplete(&self) -> (b: bool)
        ensures
            b == self@.incomplete,
    {
        self.incomplete
    }

    /// Takes a snapshot of the cursor.
    pub fn mark(&self) -> (m: Mark<'a, I>)
        ensures
            m == self.spec_mark(),
            m.origin() == *self,
    {
        proof {
            use_type_invariant(self);
        }
        Mark { buf: self.buf, pos: self.pos, partial: self.partial, incomplete: self.incomplete }
    }

    /// Rewinds to a snapshot: the result is the cursor that `m` was taken
    /// from, whatever has been consumed since.
    pub fn restore(self, m: Mark<'a, I>) -> (r: Self)
        ensures
            r == self.spec_restore(m),
    {
        proof {
            use_type_invariant(&m);
        }
        Input { buf: m.buf, pos: m.pos, partial: m.partial, incomplete: m.incomplete }
    }

    /// Looks at the next token without consuming it. At the end of the buffer
    /// there is none, and the cursor records that it ran out.
    pub fn peek(&mut self) -> (t: Option<I>) where I: Copy
        ensures
            old(self)@.left() > 0 ==> t == Some(old(self)@.remaining()[0]) && final(self)@ == old(
                self,
            )@,
            old(self)@.left() <= 0 ==> t.is_none() && final(self)@ == old(self)@.ran_out(),
    {
        proof {
            use_type_invariant(&*self);
        }
        if self.pos < self.buf.len() {
            Some(self.buf[self.pos])
        } else {
            self.incomplete = self.incomplete || self.partial;
            None
        }
    }

    /// Consumes the next token. At the end of the buffer there is none, and
    /// the cursor records that it ran out.
    pub fn pop(&mut self) -> (t: Option<I>) where I: Copy
        ensures
            old(self)@.left() > 0 ==> t == Some(old(self)@.remaining()[0]) && final(self)@ == old(
                self,
            )@.advance(1),
            old(self)@.left() <= 0 ==> t.is_none() && final(self)@ == old(self)@.ran_out(),
    {
        proof {
            use_type_invariant(&*self);
        }
        if self.pos < self.buf.len() {
            let t = self.buf[self.pos];
            self.pos = self.pos + 1;
            Some(t)
        } else {
            self.incomplete = self.incomplete || self.partial;
            None
        }
    }

    /// Consumes exactly `n` tokens and returns them. With fewer than `n` left
    /// nothing is consumed, and the cursor records that it ran out.
    pub fn consume(&mut self, n: usize) -> (b: Option<&'a [I]>)
        ensures
            n <= old(self)@.left() ==> b.is_some() && b.unwrap()@ == old(self)@.remaining().take(
                n as int,
            ) && final(self)@ == old(self)@.advance(n as nat),
            n > old(self)@.left() ==> b.is_none() && final(self)@ == old(self)@.ran_out(),
    {
        proof {
            use_type_invariant(&*self);
        }
        if n <= self.buf.len() - self.pos {
            let b = &self.buf[self.pos..self.pos + n];
            assert(b@ =~= self@.remaining().take(n as int));
            self.pos = self.pos + n;
            Some(b)
        } else {
            self.incomplete = self.incomplete || self.partial;
            None
        }
    }

    /// Consumes the longest run of tokens that `pred` accepts and returns it.
    /// If the run reaches the end of the buffer, the cursor records that it
    /// ran out: on a partial buffer the run might have gone on.
    pub fn consume_while<F>(&mut self, mut pred: F) -> (b: &'a [I]) where
        I: Copy,
        F: FnMut(I) -> bool,

        requires
            forall|t: I| pred.requires((t,)),
        ensures
            b@.len() <= old(self)@.left(),
            b@ == old(self)@.remaining().take(b@.len() as int),
            forall|k: int| 0 <= k < b@.len() ==> pred.ensures((#[trigger] b@[k],), true),
            b@.len() < old(self)@.left() ==> pred.ensures(
                (old(self)@.remaining()[b@.len() as int],),
                false,
            ) && final(self)@ == old(self)@.advance(b@.len()),
            b@.len() == old(self)@.left() ==> final(self)@ == old(self)@.advance(
                b@.len(),
            ).ran_out(),
    {
        proof {
            use_type_invariant(&*self);
        }
        let buf = self.buf;
        let start: usize = self.pos;
        let mut end: usize = self.pos;
        let mut stopped = false;
        let ghost pred0 = pred;
        while end < buf.len()
            invariant_except_break
                !stopped,
            invariant
                pred == pred0,
                start <= end <= buf@.len(),
                forall|t: I| pred.requires((t,)),
                forall|k: int| start <= k < end ==> pred.ensures((#[trigger] buf@[k],), true),
                stopped ==> end < buf@.len() && pred.ensures((buf@[end as int],), false),
            ensures
                !stopped ==> end == buf@.len(),
            decreases buf@.len() - end,
        {
            if !pred(buf[end]) {
                stopped = true;
                break ;
            }
            end = end + 1;
        }
        let b = &buf[start..end];
        proof {
            assert(b@ =~= self@.remaining().take((end - start) as int));
            assert forall|k: int| 0 <= k < b@.len() implies pred.ensures(
                (#[trigger] b@[k],),
                true,
            ) by {
                assert(b@[k] == buf@[start + k]);
            }
            if stopped {
                assert(self@.remaining()[b@.len() as int] == buf@[end as int]);
            }
        }
        self.pos = end;
        if !stopped {
            self.incomplete = self.incomplete || self.partial;
        }
        b
    }

    /// Consumes every token that is left and returns them. Nothing but the
    /// offset changes.
    pub fn consume_remaining(&mut self) -> (b: &'a [I])
        ensures
            b@ == old(self)@.remaining(),
            final(self)@ == old(self)@.advance(old(self)@.left() as nat),
    {
        proof {
            use_type_invariant(&*self);
        }
        let b = &self.buf[self.pos..self.buf.len()];
        assert(b@ =~= self@.remaining());
        self.pos = self.buf.len();
        b
    }

    /// The tokens consumed since `m` was taken, without consuming anything.
    ///
    /// `m` must be a snapshot of an earlier state of this same cursor.
    pub fn consume_from(&self, m: Mark<'a, I>) -> (b: &'a [I])
        requires
            self@.buffer == m.origin()@.buffer,
            m.origin()@.offset <= self@.offset,
        ensures
            b@ == self@.buffer.subrange(m.origin()@.offset as int, self@.offset as int),
    {
        proof {
            use_type_invariant(self);
            use_type_invariant(&m);
        }
        &m.buf[m.pos..self.pos]
    }
}

/// A cursor is what its view says: two cursors with the same view are the
/// same cursor.
pub proof fn lemma_view_determines<'a, I>(i: Input<'a, I>, j: Input<'a, I>)
    requires
        i@ == j@,
    ensures
        i == j,
{
    assert(i.buf =~= j.buf);
}

/// Rewinding to a snapshot of `s` gives back `s` itself, from whatever cursor
/// `x` the rewind starts.
pub proof fn lemma_restore_mark<'a, I>(s: Input<'a, I>, x: Input<'a, I>)
    ensures
        x.spec_restore(s.spec_mark()) == s,
        s.spec_mark().origin() == s,
{
}

/// Rewinding twice to the same snapshot is the same as rewinding once.
pub proof fn lemma_restore_idempotent<'a, I>(x: Input<'a, I>, m: Mark<'a, I>)
    ensures
        x.spec_restore(m).spec_restore(m) == x.spec_restore(m),
{
}

} // verus!
