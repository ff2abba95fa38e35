//! Tuples that take one value from each of several sequences, lent out rather
//! than cloned.

use vstd::prelude::*;
use vstd::std_specs::iter::IteratorSpec;
use crate::adaptors::multi_product::{
    aligned, grown, sparing, lemma_fed_on, lemma_fed_twice, lemma_grown_on, lemma_grown_twice, lens_of,
    places_of, pull, wheels_wf, MultiProduct, MultiProductIter,
};
use crate::buffer::{Buffer, IntoBuffer};
use crate::odometer::{
    begun, lemma_number_first, lemma_pivot, lemma_pivot_is, lemma_product_positive,
    lemma_product_zero, lemma_stall, lemma_step_counts, number, pivot, product, shown, showing,
    stall, turned,
};

verus! {

/// The cartesian product of several sequences, the last place changing
/// fastest. It lends out the tuple it shows, and after the last tuple it stays
/// there.
pub struct MultiProductRef<I: IntoBuffer> {
    iters: Vec<MultiProductIter<I>>,
    cur: Option<Vec<<I::Into as Buffer<I>>::Item>>,
}

/// The product of the sequences of `iters`, none of them asked for a value
/// yet.
pub fn multi_cartesian_product_ref<I: IntoBuffer>(iters: Vec<I>) -> (p: MultiProductRef<I>)
    ensures
        p.wf(),
        p.wheels().len() == iters@.len(),
        p.current() is None,
        forall|d: int|
            0 <= d < iters@.len() ==> (#[trigger] p.wheels()[d]).cursor == 0 && call_ensures(
                <I::Into as Buffer<I>>::from_source,
                (iters@[d],),
                p.wheels()[d].pool,
            ),
{
    let mut wheels: Vec<MultiProductIter<I>> = Vec::new();
    for source in all: iters
        invariant
            wheels@.len() == all.index(),
            forall|e: int|
                0 <= e < wheels@.len() ==> (#[trigger] wheels@[e]).cursor == 0
                    && wheels@[e].pool.wf() && call_ensures(
                    <I::Into as Buffer<I>>::from_source,
                    (iters@[e],),
                    wheels@[e].pool,
                ),
    {
        let pool = <I::Into as Buffer<I>>::from_source(source);
        wheels.push(MultiProductIter { pool, cursor: 0 });
    }
    MultiProductRef { iters: wheels, cur: None }
}

impl<I: IntoBuffer> MultiProductRef<I> {
    /// The places of the product, first to last.
    pub closed spec fn wheels(&self) -> Seq<MultiProductIter<I>> {
        self.iters@
    }

    /// The tuple that the product shows, where it shows one.
    pub closed spec fn current(&self) -> Option<Seq<<I::Into as Buffer<I>>::Item>> {
        match self.cur {
            Some(tuple) => Some(tuple@),
            None => None,
        }
    }

    /// The places are valid, and a tuple that is shown holds what its places
    /// show.
    pub open spec fn wf(&self) -> bool {
        &&& wheels_wf(self.wheels())
        &&& self.current() matches Some(tuple) ==> aligned(
            self.wheels(),
            tuple,
            self.wheels().len(),
        )
    }

    /// The first value of each place, or `None` if a place has none. The
    /// places are asked in order, and none after the first that has no value.
    pub fn initial_iteration(multi_iters: &mut Vec<MultiProductIter<I>>) -> (r: Option<
        Vec<<I::Into as Buffer<I>>::Item>,
    >)
        requires
            wheels_wf(old(multi_iters)@),
        ensures
            wheels_wf(final(multi_iters)@),
            grown(old(multi_iters)@, final(multi_iters)@),
            sparing(old(multi_iters)@, final(multi_iters)@),
            forall|d: int|
                #![trigger final(multi_iters)@[d]]
                0 <= d < old(multi_iters)@.len() ==> ({
                    let before = old(multi_iters)@[d].pool;
                    let after = final(multi_iters)@[d].pool;
                    &&& after.feed().obeys_prophetic_iter_laws()
                        == before.feed().obeys_prophetic_iter_laws()
                    &&& before.pulls() <= after.pulls()
                    &&& before.feed().obeys_prophetic_iter_laws() && (before.exhausted()
                        ==> before.feed().remaining().len() == 0) ==> {
                        &&& after.cached() + after.feed().remaining() == before.cached()
                            + before.feed().remaining()
                        &&& after.exhausted() ==> after.feed().remaining().len() == 0
                    }
                }),
            ({
                let before = old(multi_iters)@;
                let after = final(multi_iters)@;
                let at = stall(lens_of(after), places_of(before), before.len());
                &&& places_of(after) == begun(places_of(before), at)
                &&& r is Some <==> at == before.len()
                &&& r is Some ==> aligned(after, r->0@, after.len())
                &&& at < before.len() ==> after[at].pool.exhausted()
                &&& forall|d: int| at < d < before.len() ==> after[d] == before[d]
            }),
    {
        MultiProduct::initial_iteration(multi_iters)
    }

    /// Turns the last of the first `m` places that has a value left, and sets
    /// each place behind it back to its first value: the next tuple. Where
    /// none of these places has a value left, nothing is changed, and the
    /// answer is `false`.
    pub fn iterate_last(
        multi_iters: &mut Vec<MultiProductIter<I>>,
        curs: &mut Vec<<I::Into as Buffer<I>>::Item>,
        m: usize,
    ) -> (ok: bool)
        requires
            wheels_wf(old(multi_iters)@),
            aligned(old(multi_iters)@, old(curs)@, m as nat),
        ensures
            wheels_wf(final(multi_iters)@),
            grown(old(multi_iters)@, final(multi_iters)@),
            sparing(old(multi_iters)@, final(multi_iters)@),
            forall|d: int|
                #![trigger final(multi_iters)@[d]]
                0 <= d < old(multi_iters)@.len() ==> ({
                    let before = old(multi_iters)@[d].pool;
                    let after = final(multi_iters)@[d].pool;
                    &&& after.feed().obeys_prophetic_iter_laws()
                        == before.feed().obeys_prophetic_iter_laws()
                    &&& before.pulls() <= after.pulls()
                    &&& before.feed().obeys_prophetic_iter_laws() && (before.exhausted()
                        ==> before.feed().remaining().len() == 0) ==> {
                        &&& after.cached() + after.feed().remaining() == before.cached()
                            + before.feed().remaining()
                        &&& after.exhausted() ==> after.feed().remaining().len() == 0
                    }
                }),
            aligned(final(multi_iters)@, final(curs)@, m as nat),
            ({
                let before = old(multi_iters)@;
                let after = final(multi_iters)@;
                let at = pivot(lens_of(after), places_of(before), m as nat);
                &&& ok == (at >= 0)
                &&& ok ==> places_of(after) == turned(places_of(before), at, m as nat)
                &&& !ok ==> places_of(after) == places_of(before) && final(curs)@ == old(curs)@
                &&& forall|d: int| at < d < m ==> (#[trigger] after[d]).pool.exhausted()
                &&& forall|d: int|
                    0 <= d < at || m <= d < before.len() ==> #[trigger] after[d] == before[d]
                &&& forall|d: int|
                    0 <= d < at || m <= d < before.len() ==> #[trigger] final(curs)@[d] == old(
                        curs,
                    )@[d]
            }),
        decreases m,
    {
        if m == 0 {
            return false;
        }
        let d: usize = m - 1;
        let ghost before = multi_iters@;
        let pulled = pull(multi_iters, d);
        let ghost ended = multi_iters@;
        proof {
            lemma_grown_on(before, before, ended, d as int);
            lemma_fed_on(before, before, ended, d as int);
        }
        match pulled {
            Some(value) => {
                curs[d] = value;
                proof {
                    lemma_pivot_is(lens_of(ended), places_of(before), m as nat, d as int);
                    assert(places_of(ended) =~= turned(places_of(before), d as int, m as nat));
                    assert forall|e: int| 0 <= e < m implies 1 <= (#[trigger] ended[e]).cursor
                        <= ended[e].pool.cached().len() && cloned(
                        ended[e].pool.cached()[ended[e].cursor - 1],
                        curs@[e],
                    ) by {
                        if e != d {
                            assert(ended[e] == before[e]);
                        }
                    }
                }
                true
            },
            None => {
                proof {
                    assert forall|e: int| 0 <= e < d implies 1 <= (#[trigger] ended[e]).cursor
                        <= ended[e].pool.cached().len() && cloned(
                        ended[e].pool.cached()[ended[e].cursor - 1],
                        curs@[e],
                    ) by {
                        assert(ended[e] == before[e]);
                    }
                }
                let carried = Self::iterate_last(multi_iters, curs, d);
                let ghost inner = multi_iters@;
                let ghost inner_shown = curs@;
                proof {
                    lemma_grown_twice(before, ended, inner);
                    lemma_fed_twice(before, ended, inner);
                    lemma_pivot(lens_of(inner), places_of(ended), d as nat);
                    assert(inner[d as int] == ended[d as int]);
                    assert(before[d as int].pool.cached().len() >= 1);
                    assert forall|e: int| 0 <= e < before.len() && e != d implies #[trigger] places_of(
                        ended,
                    )[e] == places_of(before)[e] by {
                        assert(ended[e] == before[e]);
                    }
                }
                if !carried {
                    proof {
                        assert forall|e: int| -1 < e < m implies #[trigger] places_of(before)[e]
                            >= lens_of(inner)[e] by {
                            if e < d {
                                assert(places_of(ended)[e] >= lens_of(inner)[e]);
                            }
                        }
                        lemma_pivot_is(lens_of(inner), places_of(before), m as nat, -1);
                        assert(places_of(inner) =~= places_of(before));
                        assert forall|e: int| 0 <= e < m implies 1 <= (#[trigger] inner[e]).cursor
                            <= inner[e].pool.cached().len() && cloned(
                            inner[e].pool.cached()[inner[e].cursor - 1],
                            curs@[e],
                        ) by {
                            assert(places_of(inner)[e] == places_of(before)[e]);
                            assert(1 <= before[e].cursor <= before[e].pool.cached().len());
                        }
                    }
                    return false;
                }
                multi_iters[d].cursor = 0;
                let ghost reset = multi_iters@;
                proof {
                    assert forall|e: int| 0 <= e < reset.len() implies (#[trigger] reset[e]).pool
                        == inner[e].pool && (e != d ==> reset[e] == inner[e]) by {}
                }
                let value = pull(multi_iters, d).unwrap();
                curs[d] = value;
                proof {
                    let after = multi_iters@;
                    let at = pivot(lens_of(inner), places_of(ended), d as nat);
                    lemma_grown_on(before, inner, reset, d as int);
                    lemma_grown_on(before, reset, after, d as int);
                    lemma_fed_on(before, inner, reset, d as int);
                    lemma_fed_on(before, reset, after, d as int);
                    assert forall|e: int| 0 <= e < before.len() && e != d implies #[trigger] after[e]
                        == inner[e] by {
                        assert(after[e] == reset[e]);
                    }
                    assert(places_of(before)[at] == places_of(ended)[at]);
                    assert(lens_of(after)[at] == lens_of(inner)[at]);
                    assert forall|e: int| at < e < m implies #[trigger] places_of(before)[e]
                        >= lens_of(after)[e] && after[e].pool.exhausted() by {
                        if e < d {
                            assert(places_of(ended)[e] >= lens_of(inner)[e]);
                            assert(after[e] == inner[e]);
                        } else {
                            assert(reset[e].pool == inner[e].pool);
                        }
                    }
                    lemma_pivot_is(lens_of(after), places_of(before), m as nat, at);
                    assert(places_of(after) =~= turned(places_of(before), at, m as nat)) by {
                        assert forall|e: int| 0 <= e < before.len() implies places_of(after)[e]
                            == turned(places_of(before), at, m as nat)[e] by {
                            if e != d {
                                assert(after[e] == inner[e]);
                                assert(places_of(inner)[e] == turned(
                                    places_of(ended),
                                    at,
                                    d as nat,
                                )[e]);
                            }
                        }
                    }
                    assert forall|e: int| 0 <= e < m implies 1 <= (#[trigger] after[e]).cursor
                        <= after[e].pool.cached().len() && cloned(
                        after[e].pool.cached()[after[e].cursor - 1],
                        curs@[e],
                    ) by {
                        if e != d {
                            assert(after[e] == inner[e]);
                            assert(curs@[e] == inner_shown[e]);
                        }
                    }
                    assert forall|e: int| 0 <= e < at || m <= e < before.len() implies #[trigger] after[e]
                        == before[e] by {
                        assert(after[e] == inner[e]);
                    }
                }
                true
            },
        }
    }

    /// A step from this product gives a tuple: the first one where nothing is
    /// shown and every place has a value, the one after the tuple shown where
    /// that is not the last. `next` is the product after the step.
    pub open spec fn gives(&self, next: &Self) -> bool {
        let lens = lens_of(next.wheels());
        let pos = places_of(self.wheels());
        let n = self.wheels().len();
        if self.current() is None {
            stall(lens, pos, n) == n
        } else {
            pivot(lens, pos, n) >= 0
        }
    }

    /// `next` is what one step makes of this product: from no tuple the first
    /// one, from a tuple the one after it, and from the last tuple nothing
    /// new: the product stays at it.
    pub open spec fn steps_to(&self, next: &Self) -> bool {
        let lens = lens_of(next.wheels());
        let pos = places_of(self.wheels());
        let n = self.wheels().len();
        &&& next.wf()
        &&& grown(self.wheels(), next.wheels())
        &&& sparing(self.wheels(), next.wheels())
        &&& if self.current() is None {
            let at = stall(lens, pos, n);
            &&& places_of(next.wheels()) == begun(pos, at)
            &&& next.current() is Some <==> at == n
            &&& at < n ==> next.wheels()[at].pool.exhausted()
            &&& forall|d: int| at < d < n ==> next.wheels()[d] == self.wheels()[d]
        } else {
            let at = pivot(lens, pos, n);
            &&& next.current() is Some
            &&& at >= 0 ==> places_of(next.wheels()) == turned(pos, at, n)
            &&& at < 0 ==> places_of(next.wheels()) == pos && next.current() == self.current()
            &&& forall|d: int| at < d < n ==> (#[trigger] next.wheels()[d]).pool.exhausted()
            &&& forall|d: int| 0 <= d < at ==> #[trigger] next.wheels()[d] == self.wheels()[d]
        }
    }

    /// What the buffers know fits sequences of the lengths `lens`.
    pub open spec fn fits(&self, lens: Seq<nat>) -> bool {
        &&& lens.len() == self.wheels().len()
        &&& forall|d: int|
            0 <= d < lens.len() ==> (#[trigger] self.wheels()[d]).pool.cached().len() <= lens[d]
                && (self.wheels()[d].pool.exhausted() ==> self.wheels()[d].pool.cached().len()
                == lens[d])
    }

    /// Buffers that each hold a beginning of one of `wholes`, their iterators
    /// holding the rest, and that hold all of it once they have seen the end,
    /// fit the lengths of `wholes`.
    pub proof fn lemma_fits_wholes(&self, wholes: Seq<Seq<<I::Into as Buffer<I>>::Item>>)
        requires
            wholes.len() == self.wheels().len(),
            forall|d: int|
                0 <= d < wholes.len() ==> (#[trigger] self.wheels()[d]).pool.cached()
                    + self.wheels()[d].pool.feed().remaining() == wholes[d] && (
                self.wheels()[d].pool.exhausted() ==> self.wheels()[d].pool.feed().remaining().len()
                    == 0),
        ensures
            self.fits(Seq::new(wholes.len(), |d: int| wholes[d].len())),
            forall|d: int|
                0 <= d < wholes.len() ==> (#[trigger] self.wheels()[d]).pool.cached().is_prefix_of(
                    wholes[d],
                ),
    {
        let lens = Seq::new(wholes.len(), |d: int| wholes[d].len());
        assert forall|d: int| 0 <= d < lens.len() implies (#[trigger] self.wheels()[d]).pool.cached().len()
            <= lens[d] && (self.wheels()[d].pool.exhausted()
            ==> self.wheels()[d].pool.cached().len() == lens[d])
            && self.wheels()[d].pool.cached().is_prefix_of(wholes[d]) by {
            let held = self.wheels()[d].pool.cached();
            let rest = self.wheels()[d].pool.feed().remaining();
            assert((held + rest).len() == held.len() + rest.len());
            assert(held.is_prefix_of(held + rest));
        }
    }

    /// No tuple is shown and every place is before its first value.
    pub open spec fn fresh(&self) -> bool {
        &&& self.current() is None
        &&& forall|d: int| 0 <= d < self.wheels().len() ==> (#[trigger] self.wheels()[d]).cursor == 0
    }

    /// The number of the tuple shown, counting from 0 and with the last place
    /// as the fastest digit.
    pub open spec fn index(&self, lens: Seq<nat>) -> int {
        number(lens, shown(places_of(self.wheels())))
    }

    /// The product of sequences of the lengths `lens` gives as many tuples as
    /// the product of the lengths, in the order of a counter whose last digit
    /// turns fastest: a step from a fresh product gives tuple 0 where no
    /// sequence is empty and nothing where one is; a step from tuple `j` gives
    /// tuple `j + 1`, and a step from the last tuple gives nothing and leaves
    /// the product at it.
    pub proof fn lemma_step(&self, next: &Self, lens: Seq<nat>)
        requires
            self.wf(),
            self.steps_to(next),
            self.fits(lens),
            next.fits(lens),
        ensures
            self.fresh() && product(lens) > 0 ==> self.gives(next) && next.index(lens) == 0,
            self.fresh() && product(lens) == 0 ==> !self.gives(next),
            self.current() is Some ==> 0 <= self.index(lens) < product(lens),
            self.current() is Some && self.index(lens) + 1 < product(lens) ==> self.gives(next)
                && next.index(lens) == self.index(lens) + 1,
            self.current() is Some && self.index(lens) + 1 == product(lens) ==> !self.gives(next)
                && next.index(lens) == self.index(lens) && next.current() == self.current(),
    {
        let n = self.wheels().len();
        let known = lens_of(next.wheels());
        let pos = places_of(self.wheels());
        if self.current() is None {
            if self.fresh() {
                let at = stall(known, pos, n);
                lemma_stall(known, pos, n);
                if at < n {
                    assert(pos[at] == self.wheels()[at].cursor);
                    assert(known[at] == next.wheels()[at].pool.cached().len());
                    lemma_product_zero(lens, n, at);
                } else {
                    assert forall|d: int| 0 <= d < n implies #[trigger] lens[d] >= 1 by {
                        assert(pos[d] < known[d]);
                        assert(next.wheels()[d].pool.cached().len() <= lens[d]);
                    }
                    lemma_product_positive(lens, n);
                    assert forall|d: int| 0 <= d < n implies #[trigger] shown(
                        places_of(next.wheels()),
                    )[d] == 0 by {
                        assert(pos[d] == self.wheels()[d].cursor);
                    }
                    lemma_number_first(lens, shown(places_of(next.wheels())));
                }
            }
        } else {
            assert(showing(lens, pos)) by {
                assert forall|d: int| 0 <= d < pos.len() implies 1 <= #[trigger] pos[d] <= lens[d] by {
                    assert(1 <= self.wheels()[d].cursor <= self.wheels()[d].pool.cached().len());
                }
            }
            lemma_step_counts(lens, pos);
            let at = pivot(known, pos, n);
            lemma_pivot(known, pos, n);
            assert forall|d: int| at < d < n implies #[trigger] pos[d] >= lens[d] by {
                assert(pos[d] >= known[d]);
                assert(next.wheels()[d].pool.exhausted());
            }
            if at >= 0 {
                assert(known[at] == next.wheels()[at].pool.cached().len());
            }
            lemma_pivot_is(lens, pos, n, at);
            if at >= 0 {
                lemma_step_counts(lens, turned(pos, at, n));
            }
        }
    }

    /// A run of a fresh product of sequences of the lengths `lens` gives as many
    /// tuples as the product of the lengths, numbered in order, and then none:
    /// step `j + 1` of the run gives tuple `j` for every `j` below the product,
    /// and nothing for `j` equal to it.
    pub proof fn lemma_run(run: Seq<Self>, lens: Seq<nat>, j: nat)
        requires
            j + 1 < run.len(),
            j <= product(lens),
            run[0].wf(),
            run[0].fresh(),
            forall|i: int| 0 <= i < run.len() ==> (#[trigger] run[i]).fits(lens),
            forall|i: int| 0 <= i < run.len() - 1 ==> (#[trigger] run[i]).steps_to(&run[i + 1]),
        ensures
            run[j as int + 1].wf(),
            j < product(lens) ==> run[j as int].gives(&run[j as int + 1]) && run[j as int
                + 1].current() is Some && run[j as int + 1].index(lens) == j,
            j == product(lens) ==> !run[j as int].gives(&run[j as int + 1]),
            j == product(lens) && j > 0 ==> run[j as int + 1].current() is Some && run[j as int
                + 1].index(lens) == j - 1,
        decreases j,
    {
        if j == 0 {
            assert(run[0].steps_to(&run[1]));
            run[0].lemma_step(&run[1], lens);
        } else {
            Self::lemma_run(run, lens, (j - 1) as nat);
            assert(run[j as int].steps_to(&run[j as int + 1]));
            run[j as int].lemma_step(&run[j as int + 1], lens);
        }
    }

    /// The next tuple, lent out, or `None` when there is none.
    ///
    /// No source is asked for more than the value at its place's cursor. Where
    /// an iterator that keeps the laws of iterators feeds a place's buffer, what
    /// the buffer holds and what the iterator has still to give are together
    /// the same sequence before and after, and a buffer that has seen the end
    /// leaves nothing to give.
    pub fn next(&mut self) -> (r: Option<&[<I::Into as Buffer<I>>::Item]>)
        requires
            old(self).wf(),
        ensures
            old(self).steps_to(final(self)),
            r is Some <==> old(self).gives(final(self)),
            r is Some ==> final(self).current() == Some(r->0@),
            forall|d: int|
                #![trigger final(self).wheels()[d]]
                0 <= d < old(self).wheels().len() ==> ({
                    let before = old(self).wheels()[d].pool;
                    let after = final(self).wheels()[d].pool;
                    &&& after.feed().obeys_prophetic_iter_laws()
                        == before.feed().obeys_prophetic_iter_laws()
                    &&& before.pulls() <= after.pulls()
                    &&& before.feed().obeys_prophetic_iter_laws() && (before.exhausted()
                        ==> before.feed().remaining().len() == 0) ==> {
                        &&& after.cached() + after.feed().remaining() == before.cached()
                            + before.feed().remaining()
                        &&& after.exhausted() ==> after.feed().remaining().len() == 0
                    }
                }),
    {
        let n: usize = self.iters.len();
        let mut shown: Option<Vec<<I::Into as Buffer<I>>::Item>> = None;
        core::mem::swap(&mut self.cur, &mut shown);
        match shown {
            None => {
                self.cur = Self::initial_iteration(&mut self.iters);
            },
            Some(tuple) => {
                let mut tuple = tuple;
                let ok = Self::iterate_last(&mut self.iters, &mut tuple, n);
                self.cur = Some(tuple);
                if !ok {
                    return None;
                }
            },
        }
        match &self.cur {
            Some(tuple) => Some(tuple.as_slice()),
            None => None,
        }
    }
}

} // verus!
