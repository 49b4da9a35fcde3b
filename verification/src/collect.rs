//! Containers that repetition can collect into.

use vstd::prelude::*;

verus! {

/// A container that is built by starting empty and appending one item at a
/// time. Once the last item is appended, the container itself is the result.
pub trait Collector<T>: Sized {
    /// The items appended so far, oldest first.
    spec fn items(&self) -> Seq<T>;

    /// An empty container.
    fn start() -> (c: Self)
        ensures
            c.items() == Seq::<T>::empty(),
    ;

    /// Appends one item behind those already there.
    fn append(&mut self, item: T)
        ensures
            final(self).items() == old(self).items().push(item),
    ;
}

impl<T> Collector<T> for Vec<T> {
    open spec fn items(&self) -> Seq<T> {
        self@
    }

    fn start() -> (c: Self) {
        Vec::new()
    }

    fn append(&mut self, item: T) {
        self.push(item);
    }
}

/// A collector that keeps nothing: each item is dropped as it arrives. What
/// was appended is remembered only in the proof.
pub struct Discard<T> {
    seen: Ghost<Seq<T>>,
}

impl<T> Collector<T> for Discard<T> {
    closed spec fn items(&self) -> Seq<T> {
        self.seen@
    }

    fn start() -> (c: Self) {
        Discard { seen: Ghost(Seq::empty()) }
    }

    fn append(&mut self, item: T) {
        self.seen = Ghost(self.seen@.push(item));
    }
}

} // verus!
