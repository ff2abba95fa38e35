//! Indexed access to a sequence of values that may still be arriving.

use vstd::prelude::*;
use vstd::std_specs::iter::IteratorSpec;

verus! {

/// A source of values that has a buffer kind of its own.
pub trait IntoBuffer: Sized {
    /// The buffer made of this source.
    type Into: Buffer<Self>;
}

/// Indexed access to the values of a source. The buffer knows a growing
/// beginning of the source's sequence, and whether that is all of it.
pub trait Buffer<Source>: Sized {
    /// What `get` hands out.
    type Item: Clone;

    /// The kind of iterator that the values not yet known come from.
    type Feed: Iterator<Item = Self::Item>;

    /// The iterator that the values not yet known come from, as far as it has
    /// been used up. For a buffer that knows its whole sequence from the start
    /// it is of no account.
    spec fn feed(&self) -> Self::Feed;

    /// The values known so far: index `i` of the sequence is `cached()[i]`.
    spec fn cached(&self) -> Seq<Self::Item>;

    /// The end of the sequence has been seen: `cached()` is all of it.
    spec fn exhausted(&self) -> bool;

    /// How often the source has been asked for a value. A buffer that knows
    /// its whole sequence from the start never asks.
    spec fn pulls(&self) -> nat;

    /// The buffer's parts agree.
    spec fn wf(&self) -> bool;

    /// A valid buffer knows no more values than a `usize` counts.
    proof fn lemma_len(&self)
        requires
            self.wf(),
        ensures
            self.cached().len() <= usize::MAX,
    ;

    /// The buffer of `source`.
    fn from_source(source: Source) -> (b: Self)
        ensures
            b.wf(),
    ;

    /// Bounds on the length of the sequence: it has at least the values known,
    /// and no more once its end has been seen.
    fn size_hint(&self) -> (r: (usize, Option<usize>))
        requires
            self.wf(),
        ensures
            r.0 == self.cached().len(),
            r.1 == if self.exhausted() {
                Some(r.0)
            } else {
                None
            },
    ;

    /// The value at `index`, or `None` where the sequence ends before it. The
    /// buffer learns as much of the sequence as the answer needs and no more:
    /// asking for what it knows, or of a buffer that has seen the end, changes
    /// nothing.
    fn get(&mut self, index: usize) -> (r: Option<Self::Item>)
        requires
            old(self).wf(),
        ensures
            final(self).wf(),
            final(self).cached().len() <= usize::MAX,
            old(self).cached().is_prefix_of(final(self).cached()),
            old(self).exhausted() ==> final(self).exhausted(),
            index < old(self).cached().len() || old(self).exhausted() ==> *final(self) == *old(self),
            final(self).cached().len() <= old(self).cached().len() || final(self).cached().len()
                <= index + 1,
            r is Some <==> index < final(self).cached().len(),
            r is Some ==> cloned(final(self).cached()[index as int], r->0),
            r is None ==> final(self).exhausted(),
            old(self).pulls() <= final(self).pulls(),
            final(self).pulls() <= old(self).pulls() || final(self).pulls() <= index + 1,
            ({
                let before = old(self).feed();
                let after = final(self).feed();
                &&& after.obeys_prophetic_iter_laws() == before.obeys_prophetic_iter_laws()
                &&& before.obeys_prophetic_iter_laws() && (old(self).exhausted()
                    ==> before.remaining().len() == 0) ==> {
                    &&& final(self).cached() + after.remaining() == old(self).cached()
                        + before.remaining()
                    &&& final(self).exhausted() ==> after.remaining().len() == 0
                }
            }),
    ;
}

/// `r` is what indexing `whole` at `index` gives: a clone of the value there,
/// or `None` beyond the end.
pub open spec fn answers<T: Clone>(whole: Seq<T>, index: usize, r: Option<T>) -> bool {
    &&& r is Some <==> index < whole.len()
    &&& r is Some ==> cloned(whole[index as int], r->0)
}

/// A buffer over any iterator. It asks the iterator for a value only when an
/// index beyond those it holds is wanted, keeps what it got, and once the
/// iterator has ended never asks again.
///
/// What `get` answers is stated twice: over what the buffer holds, for every
/// iterator, and over the whole sequence `cached() + feed().remaining()`, for
/// an iterator that keeps the laws of iterators, in a buffer that holds
/// `exhausted()` only where nothing remains. A buffer fresh from `from_source`
/// is such a buffer, and `get` keeps it one.
pub struct LazyBuffer<I: Iterator> {
    iter: I,
    buffer: Vec<I::Item>,
    done: bool,
    pulls: Ghost<nat>,
}

/// Marks an iterator as a source to be buffered lazily.
pub struct Lazy<I>(pub I);

impl<I: Iterator> IntoBuffer for Lazy<I> where I::Item: Clone {
    type Into = LazyBuffer<I>;
}

impl<I: Iterator> LazyBuffer<I> where I::Item: Clone {
    /// The iterator has been asked once for each value held, and once more if
    /// its end has been seen.
    pub proof fn lemma_pulls(&self)
        requires
            self.wf(),
        ensures
            self.pulls() == self.cached().len() + if self.exhausted() {
                1nat
            } else {
                0nat
            },
    {
    }
}

impl<I: Iterator> Buffer<Lazy<I>> for LazyBuffer<I> where I::Item: Clone {
    type Item = I::Item;

    type Feed = I;

    closed spec fn feed(&self) -> I {
        self.iter
    }

    closed spec fn pulls(&self) -> nat {
        self.pulls@
    }

    closed spec fn cached(&self) -> Seq<I::Item> {
        self.buffer@
    }

    closed spec fn exhausted(&self) -> bool {
        self.done
    }

    closed spec fn wf(&self) -> bool {
        self.pulls@ == self.buffer@.len() + if self.done {
            1nat
        } else {
            0nat
        }
    }

    proof fn lemma_len(&self) {
        assert(self.buffer.len() == self.buffer@.len());
    }

    fn from_source(source: Lazy<I>) -> (b: Self)
        ensures
            b.cached() == Seq::<I::Item>::empty(),
            !b.exhausted(),
            b.feed() == source.0,
            b.pulls() == 0,
    {
        LazyBuffer { iter: source.0, buffer: Vec::new(), done: false, pulls: Ghost(0) }
    }

    fn size_hint(&self) -> (r: (usize, Option<usize>)) {
        let known = self.buffer.len();
        if self.done {
            (known, Some(known))
        } else {
            (known, None)
        }
    }

    fn get(&mut self, index: usize) -> (r: Option<I::Item>)
        ensures
            ({
                let before = old(self).feed();
                before.obeys_prophetic_iter_laws() && (old(self).exhausted()
                    ==> before.remaining().len() == 0) ==> answers(
                    old(self).cached() + before.remaining(),
                    index,
                    r,
                )
            }),
    {
        let ghost whole = old(self).cached() + old(self).feed().remaining();
        while self.buffer.len() <= index && !self.done
            invariant
                self.wf(),
                old(self).wf(),
                old(self).cached().is_prefix_of(self.cached()),
                old(self).exhausted() ==> self.exhausted(),
                index < old(self).cached().len() || old(self).exhausted() ==> *self == *old(self),
                self.cached().len() <= old(self).cached().len() || self.cached().len() <= index + 1,
                self.done ==> self.buffer@.len() <= index || *self == *old(self),
                self.iter.obeys_prophetic_iter_laws() == old(self).iter.obeys_prophetic_iter_laws(),
                whole == old(self).cached() + old(self).iter.remaining(),
                self.iter.obeys_prophetic_iter_laws() ==> self.buffer@ + self.iter.remaining()
                    == whole,
                self.iter.obeys_prophetic_iter_laws() && self.done && (old(self).done
                    ==> old(self).iter.remaining().len() == 0)
                    ==> self.iter.remaining().len() == 0,
            decreases
                    index + 1 - self.buffer@.len() + if self.done {
                        0int
                    } else {
                        1int
                    },
        {
            let next = self.iter.next();
            proof {
                self.pulls@ = self.pulls@ + 1;
            }
            match next {
                Some(item) => {
                    self.buffer.push(item);
                    proof {
                        if self.iter.obeys_prophetic_iter_laws() {
                            assert(self.buffer@ + self.iter.remaining() =~= whole);
                        }
                    }
                },
                None => {
                    self.done = true;
                },
            }
        }
        if self.buffer.len() > index {
            Some(self.buffer[index].clone())
        } else {
            None
        }
    }
}

impl<T: Clone> IntoBuffer for Vec<T> {
    type Into = Vec<T>;
}

/// A vector is its own buffer: all of the sequence is known from the start.
impl<T: Clone> Buffer<Vec<T>> for Vec<T> {
    type Item = T;

    type Feed = std::vec::IntoIter<T>;

    open spec fn feed(&self) -> std::vec::IntoIter<T> {
        arbitrary()
    }

    open spec fn pulls(&self) -> nat {
        0
    }

    open spec fn cached(&self) -> Seq<T> {
        self@
    }

    open spec fn exhausted(&self) -> bool {
        true
    }

    open spec fn wf(&self) -> bool {
        true
    }

    proof fn lemma_len(&self) {
        assert(self.len() == self@.len());
    }

    fn from_source(source: Vec<T>) -> (b: Self)
        ensures
            b == source,
    {
        source
    }

    fn size_hint(&self) -> (r: (usize, Option<usize>)) {
        (self.len(), Some(self.len()))
    }

    fn get(&mut self, index: usize) -> (r: Option<T>) {
        if index < self.len() {
            Some(self[index].clone())
        } else {
            None
        }
    }
}

impl<'a, T> IntoBuffer for &'a [T] {
    type Into = &'a [T];
}

/// A slice is its own buffer, and hands out references into itself.
impl<'a, T> Buffer<&'a [T]> for &'a [T] {
    type Item = &'a T;

    type Feed = std::slice::Iter<'a, T>;

    open spec fn feed(&self) -> std::slice::Iter<'a, T> {
        arbitrary()
    }

    open spec fn pulls(&self) -> nat {
        0
    }

    open spec fn cached(&self) -> Seq<&'a T> {
        self@.as_ref()
    }

    open spec fn exhausted(&self) -> bool {
        true
    }

    open spec fn wf(&self) -> bool {
        true
    }

    proof fn lemma_len(&self) {
        assert(self.len() == self@.len());
    }

    fn from_source(source: &'a [T]) -> (b: Self)
        ensures
            b == source,
    {
        source
    }

    fn size_hint(&self) -> (r: (usize, Option<usize>)) {
        (self.len(), Some(self.len()))
    }

    fn get(&mut self, index: usize) -> (r: Option<&'a T>)
        ensures
            r is Some ==> *r->0 == old(self)@[index as int],
    {
        if index < self.len() {
            Some(&self[index])
        } else {
            None
        }
    }
}

} // verus!
