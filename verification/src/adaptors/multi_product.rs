//! Tuples that take one value from each of several sequences.

use vstd::prelude::*;
use vstd::std_specs::iter::IteratorSpec;
use core::marker::PhantomData;
use crate::buffer::{Buffer, IntoBuffer};
use crate::size_hint::{
    exactly, fitting, lemma_product_of_exact, lemma_sum_of_exact, product_of, sum_of, SizeHint,
};
use crate::odometer::{
    begun, digits_at, digits_fit, lemma_number_digits_at, lemma_number_first,
    lemma_number_prefix, lemma_number_unshown, lemma_pivot, lemma_pivot_is, lemma_product_grows,
    lemma_product_positive, lemma_product_zero, lemma_stall, lemma_stall_is, lemma_step_counts,
    number, pivot, product, product_upto, rewound, shown, showing, stall, turned, unshown,
    unshown_counts,
};

verus! {

/// One place of a product: the values it runs through, and how far it is.
pub struct MultiProductIter<I: IntoBuffer> {
    /// The values of this place, as far as they are known.
    pub pool: I::Into,
    /// The index of the value that the next turn of this place shows.
    pub cursor: usize,
}

/// The lengths known of the sequences of `wheels`.
pub open spec fn lens_of<I: IntoBuffer>(wheels: Seq<MultiProductIter<I>>) -> Seq<nat> {
    Seq::new(wheels.len(), |d: int| wheels[d].pool.cached().len())
}

/// The cursors of `wheels`.
pub open spec fn places_of<I: IntoBuffer>(wheels: Seq<MultiProductIter<I>>) -> Seq<int> {
    Seq::new(wheels.len(), |d: int| wheels[d].cursor as int)
}

/// Every buffer is valid and no cursor is beyond what its buffer knows.
pub open spec fn wheels_wf<I: IntoBuffer>(wheels: Seq<MultiProductIter<I>>) -> bool {
    forall|d: int|
        0 <= d < wheels.len() ==> (#[trigger] wheels[d]).pool.wf() && wheels[d].cursor
            <= wheels[d].pool.cached().len()
}

/// The buffer of `after` is the one of `before` with more known, if anything:
/// what it knew it still knows; it has learnt no more than the value at the
/// cursor of `before`, and its source has been asked for no more; and where
/// it knew that value, or had seen the end, it is unchanged.
pub open spec fn learnt<I: IntoBuffer>(
    before: MultiProductIter<I>,
    after: MultiProductIter<I>,
) -> bool {
    &&& before.pool.cached().is_prefix_of(after.pool.cached())
    &&& before.pool.exhausted() ==> after.pool.exhausted()
    &&& before.cursor < before.pool.cached().len() || before.pool.exhausted() ==> after.pool
        == before.pool
    &&& after.pool.cached().len() <= before.pool.cached().len() || after.pool.cached().len()
        <= before.cursor + 1
    &&& after.pool.pulls() <= before.pool.pulls() || after.pool.pulls() <= before.cursor + 1
}

/// A step has asked no source for more than the value at the cursor that its
/// place had before the step.
pub open spec fn sparing<I: IntoBuffer>(
    before: Seq<MultiProductIter<I>>,
    after: Seq<MultiProductIter<I>>,
) -> bool {
    &&& after.len() == before.len()
    &&& forall|d: int| 0 <= d < before.len() ==> learnt(before[d], #[trigger] after[d])
}

/// Each buffer of `after` knows what the one of `before` at its place knew,
/// and no more where that one had seen the end.
pub open spec fn grown<I: IntoBuffer>(
    before: Seq<MultiProductIter<I>>,
    after: Seq<MultiProductIter<I>>,
) -> bool {
    &&& after.len() == before.len()
    &&& forall|d: int|
        0 <= d < before.len() ==> (#[trigger] before[d]).pool.cached().is_prefix_of(
            after[d].pool.cached(),
        ) && (before[d].pool.exhausted() ==> after[d].pool.exhausted() && after[d].pool.cached()
            == before[d].pool.cached())
}

/// Growing goes on: where `held` is grown from `before`, and `after` is
/// `held` with more known at the place `d` alone, `after` is grown from
/// `before`.
pub proof fn lemma_grown_on<I: IntoBuffer>(
    before: Seq<MultiProductIter<I>>,
    held: Seq<MultiProductIter<I>>,
    after: Seq<MultiProductIter<I>>,
    d: int,
)
    requires
        grown(before, held),
        after.len() == held.len(),
        0 <= d < held.len(),
        forall|e: int| 0 <= e < held.len() && e != d ==> (#[trigger] after[e]).pool == held[e].pool,
        held[d].pool.cached().is_prefix_of(after[d].pool.cached()),
        held[d].pool.exhausted() ==> after[d].pool.exhausted() && after[d].pool.cached()
            == held[d].pool.cached(),
    ensures
        grown(before, after),
{
    assert forall|e: int| 0 <= e < before.len() implies (#[trigger] before[e]).pool.cached().is_prefix_of(
        after[e].pool.cached(),
    ) && (before[e].pool.exhausted() ==> after[e].pool.exhausted() && after[e].pool.cached()
        == before[e].pool.cached()) by {
        assert(before[e].pool.cached().is_prefix_of(held[e].pool.cached()));
        if e != d {
            assert(after[e].pool == held[e].pool);
        }
    }
}

/// What is grown from something grown from `before` is grown from `before`.
pub proof fn lemma_grown_twice<I: IntoBuffer>(
    before: Seq<MultiProductIter<I>>,
    held: Seq<MultiProductIter<I>>,
    after: Seq<MultiProductIter<I>>,
)
    requires
        grown(before, held),
        grown(held, after),
    ensures
        grown(before, after),
{
    assert forall|e: int| 0 <= e < before.len() implies (#[trigger] before[e]).pool.cached().is_prefix_of(
        after[e].pool.cached(),
    ) && (before[e].pool.exhausted() ==> after[e].pool.exhausted() && after[e].pool.cached()
        == before[e].pool.cached()) by {
        assert(before[e].pool.cached().is_prefix_of(held[e].pool.cached()));
        assert(held[e].pool.cached().is_prefix_of(after[e].pool.cached()));
    }
}

/// Feeding goes on. Each buffer of `held` is the one of `before` at its place
/// after its iterator gave it some values; `after` is `held` with the buffer
/// at the place `d` fed further. Then each buffer of `after` is the one of
/// `before` fed: its iterator keeps the laws if it kept them, it has been asked
/// no less often, and for a lawful iterator what the buffer holds and what the
/// iterator has still to give are together the same sequence, with nothing to
/// give once the buffer has seen the end.
pub proof fn lemma_fed_on<I: IntoBuffer>(
    before: Seq<MultiProductIter<I>>,
    held: Seq<MultiProductIter<I>>,
    after: Seq<MultiProductIter<I>>,
    d: int,
)
    requires
        before.len() == held.len(),
        after.len() == held.len(),
        0 <= d < held.len(),
        forall|d: int|
            #![trigger held[d]]
            0 <= d < before.len() ==> ({
                let before = before[d].pool;
                let after = held[d].pool;
                &&& after.feed().obeys_prophetic_iter_laws()
                    == before.feed().obeys_prophetic_iter_laws()
                &&& before.pulls() <= after.pulls()
                &&& before.feed().obeys_prophetic_iter_laws() && (before.exhausted()
                    ==> before.feed().remaining().len() == 0) ==> {
                    &&& after.cached() + after.feed().remaining() == before.cached()
                        + before.feed().remaining()
                    &&& after.exhausted() ==> after.feed().remaining().len() == 0
                }
            }),
        forall|e: int| 0 <= e < held.len() && e != d ==> (#[trigger] after[e]).pool == held[e].pool,
        after[d].pool.feed().obeys_prophetic_iter_laws()
            == held[d].pool.feed().obeys_prophetic_iter_laws(),
        held[d].pool.pulls() <= after[d].pool.pulls(),
        held[d].pool.feed().obeys_prophetic_iter_laws() && (held[d].pool.exhausted()
            ==> held[d].pool.feed().remaining().len() == 0) ==> {
            &&& after[d].pool.cached() + after[d].pool.feed().remaining() == held[d].pool.cached()
                + held[d].pool.feed().remaining()
            &&& after[d].pool.exhausted() ==> after[d].pool.feed().remaining().len() == 0
        },
    ensures
        forall|d: int|
            #![trigger after[d]]
            0 <= d < before.len() ==> ({
                let before = before[d].pool;
                let after = after[d].pool;
                &&& after.feed().obeys_prophetic_iter_laws()
                    == before.feed().obeys_prophetic_iter_laws()
                &&& before.pulls() <= after.pulls()
                &&& before.feed().obeys_prophetic_iter_laws() && (before.exhausted()
                    ==> before.feed().remaining().len() == 0) ==> {
                    &&& after.cached() + after.feed().remaining() == before.cached()
                        + before.feed().remaining()
                    &&& after.exhausted() ==> after.feed().remaining().len() == 0
                }
            }),
{
    assert forall|e: int| #![trigger after[e]] 0 <= e < before.len() implies {
        &&& after[e].pool.feed().obeys_prophetic_iter_laws()
            == before[e].pool.feed().obeys_prophetic_iter_laws()
        &&& before[e].pool.pulls() <= after[e].pool.pulls()
        &&& before[e].pool.feed().obeys_prophetic_iter_laws() && (before[e].pool.exhausted()
            ==> before[e].pool.feed().remaining().len() == 0) ==> {
            &&& after[e].pool.cached() + after[e].pool.feed().remaining()
                == before[e].pool.cached() + before[e].pool.feed().remaining()
            &&& after[e].pool.exhausted() ==> after[e].pool.feed().remaining().len() == 0
        }
    } by {
        let through = held[e];
        if e != d {
            assert(after[e].pool == through.pool);
        }
    }
}

/// What is fed from something fed from `before` is fed from `before`.
pub proof fn lemma_fed_twice<I: IntoBuffer>(
    before: Seq<MultiProductIter<I>>,
    held: Seq<MultiProductIter<I>>,
    after: Seq<MultiProductIter<I>>,
)
    requires
        before.len() == held.len(),
        after.len() == held.len(),
        forall|d: int|
            #![trigger held[d]]
            0 <= d < before.len() ==> ({
                let before = before[d].pool;
                let after = held[d].pool;
                &&& after.feed().obeys_prophetic_iter_laws()
                    == before.feed().obeys_prophetic_iter_laws()
                &&& before.pulls() <= after.pulls()
                &&& before.feed().obeys_prophetic_iter_laws() && (before.exhausted()
                    ==> before.feed().remaining().len() == 0) ==> {
                    &&& after.cached() + after.feed().remaining() == before.cached()
                        + before.feed().remaining()
                    &&& after.exhausted() ==> after.feed().remaining().len() == 0
                }
            }),
        forall|d: int|
            #![trigger after[d]]
            0 <= d < held.len() ==> ({
                let before = held[d].pool;
                let after = after[d].pool;
                &&& after.feed().obeys_prophetic_iter_laws()
                    == before.feed().obeys_prophetic_iter_laws()
                &&& before.pulls() <= after.pulls()
                &&& before.feed().obeys_prophetic_iter_laws() && (before.exhausted()
                    ==> before.feed().remaining().len() == 0) ==> {
                    &&& after.cached() + after.feed().remaining() == before.cached()
                        + before.feed().remaining()
                    &&& after.exhausted() ==> after.feed().remaining().len() == 0
                }
            }),
    ensures
        forall|d: int|
            #![trigger after[d]]
            0 <= d < before.len() ==> ({
                let before = before[d].pool;
                let after = after[d].pool;
                &&& after.feed().obeys_prophetic_iter_laws()
                    == before.feed().obeys_prophetic_iter_laws()
                &&& before.pulls() <= after.pulls()
                &&& before.feed().obeys_prophetic_iter_laws() && (before.exhausted()
                    ==> before.feed().remaining().len() == 0) ==> {
                    &&& after.cached() + after.feed().remaining() == before.cached()
                        + before.feed().remaining()
                    &&& after.exhausted() ==> after.feed().remaining().len() == 0
                }
            }),
{
    assert forall|e: int| #![trigger after[e]] 0 <= e < before.len() implies {
        &&& after[e].pool.feed().obeys_prophetic_iter_laws()
            == before[e].pool.feed().obeys_prophetic_iter_laws()
        &&& before[e].pool.pulls() <= after[e].pool.pulls()
        &&& before[e].pool.feed().obeys_prophetic_iter_laws() && (before[e].pool.exhausted()
            ==> before[e].pool.feed().remaining().len() == 0) ==> {
            &&& after[e].pool.cached() + after[e].pool.feed().remaining()
                == before[e].pool.cached() + before[e].pool.feed().remaining()
            &&& after[e].pool.exhausted() ==> after[e].pool.feed().remaining().len() == 0
        }
    } by {
        let through = held[e];
    }
}

/// `cur` holds, for each of the first `m` places, a clone of the value before
/// the cursor: the value that the place shows.
pub open spec fn aligned<I: IntoBuffer>(
    wheels: Seq<MultiProductIter<I>>,
    cur: Seq<<I::Into as Buffer<I>>::Item>,
    m: nat,
) -> bool {
    &&& cur.len() == wheels.len()
    &&& m <= wheels.len()
    &&& forall|d: int|
        0 <= d < m ==> 1 <= (#[trigger] wheels[d]).cursor <= wheels[d].pool.cached().len()
            && cloned(wheels[d].pool.cached()[wheels[d].cursor - 1], cur[d])
}

/// Bounds on how many values the place has still to show.
pub open spec fn live_hint<I: IntoBuffer>(wheel: MultiProductIter<I>) -> SizeHint {
    let left = (wheel.pool.cached().len() - wheel.cursor) as usize;
    (
        left,
        if wheel.pool.exhausted() {
            Some(left)
        } else {
            None
        },
    )
}

/// Bounds on how many values the place has in all.
pub open spec fn total_hint<I: IntoBuffer>(wheel: MultiProductIter<I>) -> SizeHint {
    let all = wheel.pool.cached().len() as usize;
    (
        all,
        if wheel.pool.exhausted() {
            Some(all)
        } else {
            None
        },
    )
}

/// Bounds on the product of what the first `m` places have still to show.
pub open spec fn product_hint<I: IntoBuffer>(wheels: Seq<MultiProductIter<I>>, m: nat) -> SizeHint
    decreases m,
{
    if m == 0 {
        (1usize, Some(1usize))
    } else {
        product_of(product_hint(wheels, (m - 1) as nat), live_hint(wheels[m - 1]))
    }
}

/// Bounds on the number that the first `m` places write with what they have
/// still to show as digits and what they have in all as radices.
pub open spec fn remaining_hint<I: IntoBuffer>(
    wheels: Seq<MultiProductIter<I>>,
    m: nat,
) -> SizeHint
    decreases m,
{
    if m == 0 {
        (0usize, Some(0usize))
    } else {
        sum_of(
            product_of(remaining_hint(wheels, (m - 1) as nat), total_hint(wheels[m - 1])),
            live_hint(wheels[m - 1]),
        )
    }
}

/// Where the first `m` sequences are known to their ends, the bounds on the
/// product of what they have still to show are exact.
pub proof fn lemma_product_hint_exact<I: IntoBuffer>(wheels: Seq<MultiProductIter<I>>, m: nat)
    requires
        wheels_wf(wheels),
        m <= wheels.len(),
        forall|d: int| 0 <= d < m ==> (#[trigger] wheels[d]).pool.exhausted(),
    ensures
        product_hint(wheels, m) == exactly(
            product_upto(unshown_counts(lens_of(wheels), places_of(wheels)), m) as int,
        ),
    decreases m,
{
    if m > 0 {
        let wheel = wheels[m - 1];
        lemma_product_hint_exact(wheels, (m - 1) as nat);
        wheel.pool.lemma_len();
        let counts = unshown_counts(lens_of(wheels), places_of(wheels));
        lemma_product_of_exact(product_upto(counts, (m - 1) as nat) as int, counts[m - 1] as int);
    }
}

/// Where the first `m` sequences are known to their ends, the bounds on the
/// number that they write with what they have still to show are exact.
pub proof fn lemma_remaining_hint_exact<I: IntoBuffer>(wheels: Seq<MultiProductIter<I>>, m: nat)
    requires
        wheels_wf(wheels),
        m <= wheels.len(),
        forall|d: int| 0 <= d < m ==> (#[trigger] wheels[d]).pool.exhausted(),
    ensures
        0 <= number(
            lens_of(wheels),
            unshown(lens_of(wheels), places_of(wheels)).take(m as int),
        ),
        remaining_hint(wheels, m) == exactly(
            number(lens_of(wheels), unshown(lens_of(wheels), places_of(wheels)).take(m as int)),
        ),
    decreases m,
{
    let lens = lens_of(wheels);
    let digits = unshown(lens, places_of(wheels));
    if m > 0 {
        let wheel = wheels[m - 1];
        lemma_remaining_hint_exact(wheels, (m - 1) as nat);
        wheel.pool.lemma_len();
        assert(digits.take(m as int).drop_last() =~= digits.take(m - 1));
        let before = number(lens, digits.take(m - 1));
        let all = lens[m - 1] as int;
        let live = digits[m - 1];
        assert(digits.take(m as int).last() == live);
        lemma_product_of_exact(before, all);
        assert(0 <= before * all) by (nonlinear_arith)
            requires
                0 <= before,
                0 <= all,
        ;
        lemma_sum_of_exact(before * all, live);
    }
}

/// Asks the buffer for values until it has seen the end of its sequence, and
/// gives the length.
fn drain<S, B: Buffer<S>>(pool: &mut B) -> (len: usize)
    requires
        old(pool).wf(),
    ensures
        final(pool).wf(),
        final(pool).exhausted(),
        old(pool).cached().is_prefix_of(final(pool).cached()),
        old(pool).exhausted() ==> *final(pool) == *old(pool),
        len == final(pool).cached().len(),
        final(pool).feed().obeys_prophetic_iter_laws() == old(pool).feed().obeys_prophetic_iter_laws(),
        old(pool).pulls() <= final(pool).pulls(),
        old(pool).feed().obeys_prophetic_iter_laws() && (old(pool).exhausted()
            ==> old(pool).feed().remaining().len() == 0) ==> {
            &&& final(pool).cached() + final(pool).feed().remaining() == old(pool).cached()
                + old(pool).feed().remaining()
            &&& final(pool).exhausted() ==> final(pool).feed().remaining().len() == 0
        },
{
    let mut at: usize = pool.size_hint().0;
    loop
        invariant
            pool.wf(),
            old(pool).cached().is_prefix_of(pool.cached()),
            old(pool).exhausted() ==> *pool == *old(pool),
            at == pool.cached().len(),
            pool.feed().obeys_prophetic_iter_laws() == old(pool).feed().obeys_prophetic_iter_laws(),
            old(pool).pulls() <= pool.pulls(),
            old(pool).feed().obeys_prophetic_iter_laws() && (old(pool).exhausted()
                ==> old(pool).feed().remaining().len() == 0) ==> {
                &&& pool.cached() + pool.feed().remaining() == old(pool).cached()
                    + old(pool).feed().remaining()
                &&& pool.exhausted() ==> pool.feed().remaining().len() == 0
            }
        decreases usize::MAX - at,
    {
        match pool.get(at) {
            Some(_) => {
                at += 1;
            },
            None => {
                return at;
            },
        }
    }
}

/// Asks the place `d` for its next value and moves its cursor past it.
pub(crate) fn pull<I: IntoBuffer>(iters: &mut Vec<MultiProductIter<I>>, d: usize) -> (r: Option<
    <I::Into as Buffer<I>>::Item,
>)
    requires
        wheels_wf(old(iters)@),
        d < old(iters)@.len(),
    ensures
        wheels_wf(final(iters)@),
        final(iters)@.len() == old(iters)@.len(),
        forall|e: int| 0 <= e < old(iters)@.len() && e != d ==> final(iters)@[e] == old(iters)@[e],
        forall|d: int|
            #![trigger final(iters)@[d]]
            0 <= d < old(iters)@.len() ==> ({
                let before = old(iters)@[d].pool;
                let after = final(iters)@[d].pool;
                &&& after.feed().obeys_prophetic_iter_laws()
                    == before.feed().obeys_prophetic_iter_laws()
                &&& before.pulls() <= after.pulls()
                &&& before.feed().obeys_prophetic_iter_laws() && (before.exhausted()
                    ==> before.feed().remaining().len() == 0) ==> {
                    &&& after.cached() + after.feed().remaining() == before.cached()
                        + before.feed().remaining()
                    &&& after.exhausted() ==> after.feed().remaining().len() == 0
                }
            }),
        ({
            let before = old(iters)@[d as int];
            let after = final(iters)@[d as int];
            &&& learnt(before, after)
            &&& r is Some <==> before.cursor < after.pool.cached().len()
            &&& r is Some ==> after.cursor == before.cursor + 1 && cloned(
                after.pool.cached()[before.cursor as int],
                r->0,
            )
            &&& r is None ==> after.cursor == before.cursor && after.pool.exhausted()
        }),
{
    let at: usize = iters[d].cursor;
    let r = iters[d].pool.get(at);
    if r.is_some() {
        iters[d].cursor = at + 1;
    }
    r
}

/// The cartesian product of several sequences: every tuple that takes one
/// value from each, the last place changing fastest.
pub struct MultiProduct<I: IntoBuffer> {
    iters: Vec<MultiProductIter<I>>,
    cur: Option<Vec<<I::Into as Buffer<I>>::Item>>,
}

/// The product of the sequences of `iters`, none of them asked for a value
/// yet.
pub fn multi_cartesian_product<I: IntoBuffer>(iters: Vec<I>) -> (p: MultiProduct<I>)
    ensures
        p.wf(),
        p.wheels().len() == iters@.len(),
        p.current() is None,
        forall|d: int|
            0 <= d < iters@.len() ==> (#[trigger] p.wheels()[d]).cursor == 0 && call_ensures(
                <I::Into as Buffer<I>>::from_source,
                (iters@[d],),
                p.wheels()[d].pool,
            ),
{
    let mut wheels: Vec<MultiProductIter<I>> = Vec::new();
    for source in all: iters
        invariant
            wheels@.len() == all.index(),
            forall|e: int|
                0 <= e < wheels@.len() ==> (#[trigger] wheels@[e]).cursor == 0
                    && wheels@[e].pool.wf() && call_ensures(
                    <I::Into as Buffer<I>>::from_source,
                    (iters@[e],),
                    wheels@[e].pool,
                ),
    {
        let pool = <I::Into as Buffer<I>>::from_source(source);
        wheels.push(MultiProductIter { pool, cursor: 0 });
    }
    MultiProduct { iters: wheels, cur: None }
}

impl<I: IntoBuffer> MultiProduct<I> {
    /// The places of the product, first to last.
    pub closed spec fn wheels(&self) -> Seq<MultiProductIter<I>> {
        self.iters@
    }

    /// The tuple that the product shows, where it shows one.
    pub closed spec fn current(&self) -> Option<Seq<<I::Into as Buffer<I>>::Item>> {
        match self.cur {
            Some(tuple) => Some(tuple@),
            None => None,
        }
    }

    /// The places are valid, and a tuple that is shown holds what its places
    /// show.
    pub open spec fn wf(&self) -> bool {
        &&& wheels_wf(self.wheels())
        &&& self.current() matches Some(tuple) ==> aligned(
            self.wheels(),
            tuple,
            self.wheels().len(),
        )
    }

    /// The first value of each place, or `None` if a place has none. The
    /// places are asked in order, and none after the first that has no value.
    pub fn initial_iteration(multi_iters: &mut Vec<MultiProductIter<I>>) -> (r: Option<
        Vec<<I::Into as Buffer<I>>::Item>,
    >)
        requires
            wheels_wf(old(multi_iters)@),
        ensures
            wheels_wf(final(multi_iters)@),
            grown(old(multi_iters)@, final(multi_iters)@),
            sparing(old(multi_iters)@, final(multi_iters)@),
            forall|d: int|
                #![trigger final(multi_iters)@[d]]
                0 <= d < old(multi_iters)@.len() ==> ({
                    let before = old(multi_iters)@[d].pool;
                    let after = final(multi_iters)@[d].pool;
                    &&& after.feed().obeys_prophetic_iter_laws()
                        == before.feed().obeys_prophetic_iter_laws()
                    &&& before.pulls() <= after.pulls()
                    &&& before.feed().obeys_prophetic_iter_laws() && (before.exhausted()
                        ==> before.feed().remaining().len() == 0) ==> {
                        &&& after.cached() + after.feed().remaining() == before.cached()
                            + before.feed().remaining()
                        &&& after.exhausted() ==> after.feed().remaining().len() == 0
                    }
                }),
            ({
                let before = old(multi_iters)@;
                let after = final(multi_iters)@;
                let at = stall(lens_of(after), places_of(before), before.len());
                &&& places_of(after) == begun(places_of(before), at)
                &&& r is Some <==> at == before.len()
                &&& r is Some ==> aligned(after, r->0@, after.len())
                &&& at < before.len() ==> after[at].pool.exhausted()
                &&& forall|d: int| at < d < before.len() ==> after[d] == before[d]
            }),
    {
        let iter_count: usize = multi_iters.len();
        let mut initial: Vec<<I::Into as Buffer<I>>::Item> = Vec::new();
        let mut d: usize = 0;
        while d < iter_count
            invariant
                d <= iter_count,
                iter_count == multi_iters@.len(),
                multi_iters@.len() == old(multi_iters)@.len(),
                wheels_wf(multi_iters@),
                grown(old(multi_iters)@, multi_iters@),
                sparing(old(multi_iters)@, multi_iters@),
                forall|d: int|
                    #![trigger multi_iters@[d]]
                    0 <= d < old(multi_iters)@.len() ==> ({
                        let before = old(multi_iters)@[d].pool;
                        let after = multi_iters@[d].pool;
                        &&& after.feed().obeys_prophetic_iter_laws()
                            == before.feed().obeys_prophetic_iter_laws()
                        &&& before.pulls() <= after.pulls()
                        &&& before.feed().obeys_prophetic_iter_laws() && (before.exhausted()
                            ==> before.feed().remaining().len() == 0) ==> {
                            &&& after.cached() + after.feed().remaining() == before.cached()
                                + before.feed().remaining()
                            &&& after.exhausted() ==> after.feed().remaining().len() == 0
                        }
                    }),
                initial@.len() == d,
                forall|e: int|
                    0 <= e < d ==> (#[trigger] multi_iters@[e]).cursor == old(multi_iters)@[e].cursor
                        + 1 && old(multi_iters)@[e].cursor < multi_iters@[e].pool.cached().len()
                        && cloned(
                        multi_iters@[e].pool.cached()[multi_iters@[e].cursor - 1],
                        initial@[e],
                    ),
                forall|e: int| d <= e < iter_count ==> multi_iters@[e] == old(multi_iters)@[e],
            decreases iter_count - d,
        {
            let ghost held = multi_iters@;
            let pulled = pull(multi_iters, d);
            proof {
                lemma_grown_on(old(multi_iters)@, held, multi_iters@, d as int);
                lemma_fed_on(old(multi_iters)@, held, multi_iters@, d as int);
            }
            match pulled {
                Some(value) => {
                    initial.push(value);
                },
                None => {
                    proof {
                        let before = old(multi_iters)@;
                        let after = multi_iters@;
                        lemma_stall_is(lens_of(after), places_of(before), before.len(), d as int);
                        assert(places_of(after) =~= begun(places_of(before), d as int));
                    }
                    return None;
                },
            }
            d += 1;
        }
        proof {
            let before = old(multi_iters)@;
            let after = multi_iters@;
            lemma_stall_is(lens_of(after), places_of(before), before.len(), iter_count as int);
            assert(places_of(after) =~= begun(places_of(before), iter_count as int));
        }
        Some(initial)
    }

    /// Turns the last of the first `m` places that has a value left, and sets
    /// each place behind it back to its first value: the next tuple. Where
    /// none of these places has a value left, they are all set back before
    /// their first value, and the answer is `false`.
    pub fn iterate_last(
        multi_iters: &mut Vec<MultiProductIter<I>>,
        curs: &mut Vec<<I::Into as Buffer<I>>::Item>,
        m: usize,
    ) -> (ok: bool)
        requires
            wheels_wf(old(multi_iters)@),
            aligned(old(multi_iters)@, old(curs)@, m as nat),
        ensures
            wheels_wf(final(multi_iters)@),
            grown(old(multi_iters)@, final(multi_iters)@),
            sparing(old(multi_iters)@, final(multi_iters)@),
            forall|d: int|
                #![trigger final(multi_iters)@[d]]
                0 <= d < old(multi_iters)@.len() ==> ({
                    let before = old(multi_iters)@[d].pool;
                    let after = final(multi_iters)@[d].pool;
                    &&& after.feed().obeys_prophetic_iter_laws()
                        == before.feed().obeys_prophetic_iter_laws()
                    &&& before.pulls() <= after.pulls()
                    &&& before.feed().obeys_prophetic_iter_laws() && (before.exhausted()
                        ==> before.feed().remaining().len() == 0) ==> {
                        &&& after.cached() + after.feed().remaining() == before.cached()
                            + before.feed().remaining()
                        &&& after.exhausted() ==> after.feed().remaining().len() == 0
                    }
                }),
            final(curs)@.len() == old(curs)@.len(),
            ({
                let before = old(multi_iters)@;
                let after = final(multi_iters)@;
                let at = pivot(lens_of(after), places_of(before), m as nat);
                &&& ok == (at >= 0)
                &&& ok ==> places_of(after) == turned(places_of(before), at, m as nat) && aligned(
                    after,
                    final(curs)@,
                    m as nat,
                )
                &&& !ok ==> places_of(after) == rewound(places_of(before), m as nat)
                &&& forall|d: int| at < d < m ==> (#[trigger] after[d]).pool.exhausted()
                &&& forall|d: int|
                    0 <= d < at || m <= d < before.len() ==> #[trigger] after[d] == before[d]
                &&& forall|d: int|
                    0 <= d < at || m <= d < before.len() ==> #[trigger] final(curs)@[d] == old(
                        curs,
                    )@[d]
            }),
        decreases m,
    {
        if m == 0 {
            proof {
                assert(places_of(multi_iters@) =~= rewound(places_of(multi_iters@), 0));
            }
            return false;
        }
        let d: usize = m - 1;
        let ghost before = multi_iters@;
        let pulled = pull(multi_iters, d);
        let ghost ended = multi_iters@;
        proof {
            lemma_grown_on(before, before, ended, d as int);
            lemma_fed_on(before, before, ended, d as int);
        }
        match pulled {
            Some(value) => {
                curs[d] = value;
                proof {
                    lemma_pivot_is(lens_of(ended), places_of(before), m as nat, d as int);
                    assert(places_of(ended) =~= turned(places_of(before), d as int, m as nat));
                    assert forall|e: int| 0 <= e < m implies 1 <= (#[trigger] ended[e]).cursor
                        <= ended[e].pool.cached().len() && cloned(
                        ended[e].pool.cached()[ended[e].cursor - 1],
                        curs@[e],
                    ) by {
                        if e != d {
                            assert(ended[e] == before[e]);
                        }
                    }
                }
                true
            },
            None => {
                multi_iters[d].cursor = 0;
                let ghost reset = multi_iters@;
                proof {
                    assert forall|e: int| 0 <= e < reset.len() implies (#[trigger] reset[e]).pool
                        == ended[e].pool && (e != d ==> reset[e] == before[e]) by {
                        if e != d {
                            assert(reset[e] == ended[e]);
                        }
                    }
                    lemma_grown_on(before, ended, reset, d as int);
                    lemma_fed_on(before, ended, reset, d as int);
                }
                let carried = Self::iterate_last(multi_iters, curs, d);
                let ghost inner = multi_iters@;
                let ghost inner_shown = curs@;
                proof {
                    lemma_grown_twice(before, reset, inner);
                    lemma_fed_twice(before, reset, inner);
                    lemma_pivot(lens_of(inner), places_of(reset), d as nat);
                    assert(inner[d as int] == reset[d as int]);
                    assert(before[d as int].pool.cached().len() >= 1);
                }
                if !carried {
                    proof {
                        assert forall|e: int| -1 < e < m implies #[trigger] places_of(before)[e]
                            >= lens_of(inner)[e] by {
                            if e < d {
                                assert(places_of(reset)[e] >= lens_of(inner)[e]);
                            }
                        }
                        lemma_pivot_is(lens_of(inner), places_of(before), m as nat, -1);
                        assert(places_of(inner) =~= rewound(places_of(before), m as nat));
                    }
                    return false;
                }
                let value = pull(multi_iters, d).unwrap();
                curs[d] = value;
                proof {
                    let after = multi_iters@;
                    let at = pivot(lens_of(inner), places_of(reset), d as nat);
                    lemma_grown_on(before, inner, after, d as int);
                    lemma_fed_on(before, inner, after, d as int);
                    assert forall|e: int| 0 <= e < m && e != d implies #[trigger] after[e]
                        == inner[e] by {}
                    assert(places_of(before)[at] == places_of(reset)[at]);
                    assert(lens_of(after)[at] == lens_of(inner)[at]);
                    assert forall|e: int| at < e < m implies #[trigger] places_of(before)[e]
                        >= lens_of(after)[e] && after[e].pool.exhausted() by {
                        if e < d {
                            assert(places_of(reset)[e] >= lens_of(inner)[e]);
                            assert(after[e] == inner[e]);
                        }
                    }
                    lemma_pivot_is(lens_of(after), places_of(before), m as nat, at);
                    assert(places_of(after) =~= turned(places_of(before), at, m as nat)) by {
                        assert forall|e: int| 0 <= e < before.len() implies places_of(after)[e]
                            == turned(places_of(before), at, m as nat)[e] by {
                            if e != d {
                                assert(after[e] == inner[e]);
                                assert(places_of(inner)[e] == turned(
                                    places_of(reset),
                                    at,
                                    d as nat,
                                )[e]);
                            }
                        }
                    }
                    assert forall|e: int| 0 <= e < m implies 1 <= (#[trigger] after[e]).cursor
                        <= after[e].pool.cached().len() && cloned(
                        after[e].pool.cached()[after[e].cursor - 1],
                        curs@[e],
                    ) by {
                        if e != d {
                            assert(after[e] == inner[e]);
                            assert(curs@[e] == inner_shown[e]);
                        }
                    }
                    assert forall|e: int| 0 <= e < at || m <= e < before.len() implies #[trigger] after[e]
                        == before[e] by {
                        assert(after[e] == inner[e]);
                    }
                }
                true
            },
        }
    }

    /// `next` is what one step makes of this product: from no tuple the first
    /// one, from a tuple the one after it, from the last tuple none.
    pub open spec fn steps_to(&self, next: &Self) -> bool {
        let lens = lens_of(next.wheels());
        let pos = places_of(self.wheels());
        let n = self.wheels().len();
        &&& next.wf()
        &&& grown(self.wheels(), next.wheels())
        &&& sparing(self.wheels(), next.wheels())
        &&& if n == 0 {
            next.wheels() == self.wheels() && next.current() == self.current()
        } else if self.current() is None {
            let at = stall(lens, pos, n);
            &&& places_of(next.wheels()) == begun(pos, at)
            &&& next.current() is Some <==> at == n
            &&& at < n ==> next.wheels()[at].pool.exhausted()
            &&& forall|d: int| at < d < n ==> next.wheels()[d] == self.wheels()[d]
        } else {
            let at = pivot(lens, pos, n);
            &&& next.current() is Some <==> at >= 0
            &&& at >= 0 ==> places_of(next.wheels()) == turned(pos, at, n)
            &&& at < 0 ==> places_of(next.wheels()) == rewound(pos, n)
            &&& forall|d: int| at < d < n ==> (#[trigger] next.wheels()[d]).pool.exhausted()
            &&& forall|d: int| 0 <= d < at ==> #[trigger] next.wheels()[d] == self.wheels()[d]
        }
    }

    /// What the buffers know fits sequences of the lengths `lens`.
    pub open spec fn fits(&self, lens: Seq<nat>) -> bool {
        &&& lens.len() == self.wheels().len()
        &&& forall|d: int|
            0 <= d < lens.len() ==> (#[trigger] self.wheels()[d]).pool.cached().len() <= lens[d]
                && (self.wheels()[d].pool.exhausted() ==> self.wheels()[d].pool.cached().len()
                == lens[d])
    }

    /// Buffers that each hold a beginning of one of `wholes`, their iterators
    /// holding the rest, and that hold all of it once they have seen the end,
    /// fit the lengths of `wholes`.
    pub proof fn lemma_fits_wholes(&self, wholes: Seq<Seq<<I::Into as Buffer<I>>::Item>>)
        requires
            wholes.len() == self.wheels().len(),
            forall|d: int|
                0 <= d < wholes.len() ==> (#[trigger] self.wheels()[d]).pool.cached()
                    + self.wheels()[d].pool.feed().remaining() == wholes[d] && (
                self.wheels()[d].pool.exhausted() ==> self.wheels()[d].pool.feed().remaining().len()
                    == 0),
        ensures
            self.fits(Seq::new(wholes.len(), |d: int| wholes[d].len())),
            forall|d: int|
                0 <= d < wholes.len() ==> (#[trigger] self.wheels()[d]).pool.cached().is_prefix_of(
                    wholes[d],
                ),
    {
        let lens = Seq::new(wholes.len(), |d: int| wholes[d].len());
        assert forall|d: int| 0 <= d < lens.len() implies (#[trigger] self.wheels()[d]).pool.cached().len()
            <= lens[d] && (self.wheels()[d].pool.exhausted()
            ==> self.wheels()[d].pool.cached().len() == lens[d])
            && self.wheels()[d].pool.cached().is_prefix_of(wholes[d]) by {
            let held = self.wheels()[d].pool.cached();
            let rest = self.wheels()[d].pool.feed().remaining();
            assert((held + rest).len() == held.len() + rest.len());
            assert(held.is_prefix_of(held + rest));
        }
    }

    /// No tuple is shown and every place is before its first value.
    pub open spec fn fresh(&self) -> bool {
        &&& self.current() is None
        &&& forall|d: int| 0 <= d < self.wheels().len() ==> (#[trigger] self.wheels()[d]).cursor == 0
    }

    /// The number of the tuple shown, counting from 0 and with the last place
    /// as the fastest digit.
    pub open spec fn index(&self, lens: Seq<nat>) -> int {
        number(lens, shown(places_of(self.wheels())))
    }

    /// The product of sequences of the lengths `lens` gives as many tuples as
    /// the product of the lengths, in the order of a counter whose last digit
    /// turns fastest, however little of the sequences the buffers held when
    /// each was given: a step from a fresh product shows tuple 0 where no
    /// sequence is empty and nothing where one is; a step from tuple `j` shows
    /// tuple `j + 1`, and from the last tuple it leaves the product fresh.
    pub proof fn lemma_step(&self, next: &Self, lens: Seq<nat>)
        requires
            self.wf(),
            self.steps_to(next),
            self.fits(lens),
            next.fits(lens),
            self.wheels().len() > 0,
        ensures
            self.fresh() && product(lens) > 0 ==> next.current() is Some && next.index(lens) == 0,
            self.fresh() && product(lens) == 0 ==> next.current() is None,
            self.current() is Some ==> 0 <= self.index(lens) < product(lens),
            self.current() is Some && self.index(lens) + 1 < product(lens)
                ==> next.current() is Some && next.index(lens) == self.index(lens) + 1,
            self.current() is Some && self.index(lens) + 1 == product(lens) ==> next.fresh(),
    {
        let n = self.wheels().len();
        let known = lens_of(next.wheels());
        let pos = places_of(self.wheels());
        if self.current() is None {
            if self.fresh() {
                let at = stall(known, pos, n);
                lemma_stall(known, pos, n);
                if at < n {
                    assert(pos[at] == self.wheels()[at].cursor);
                    assert(known[at] == next.wheels()[at].pool.cached().len());
                    lemma_product_zero(lens, n, at);
                } else {
                    assert forall|d: int| 0 <= d < n implies #[trigger] lens[d] >= 1 by {
                        assert(pos[d] < known[d]);
                        assert(next.wheels()[d].pool.cached().len() <= lens[d]);
                    }
                    lemma_product_positive(lens, n);
                    assert forall|d: int| 0 <= d < n implies #[trigger] shown(
                        places_of(next.wheels()),
                    )[d] == 0 by {
                        assert(pos[d] == self.wheels()[d].cursor);
                    }
                    lemma_number_first(lens, shown(places_of(next.wheels())));
                }
            }
        } else {
            assert(showing(lens, pos)) by {
                assert forall|d: int| 0 <= d < pos.len() implies 1 <= #[trigger] pos[d] <= lens[d] by {
                    assert(1 <= self.wheels()[d].cursor <= self.wheels()[d].pool.cached().len());
                }
            }
            lemma_step_counts(lens, pos);
            let at = pivot(known, pos, n);
            lemma_pivot(known, pos, n);
            assert forall|d: int| at < d < n implies #[trigger] pos[d] >= lens[d] by {
                assert(pos[d] >= known[d]);
                assert(next.wheels()[d].pool.exhausted());
            }
            if at >= 0 {
                assert(known[at] == next.wheels()[at].pool.cached().len());
            }
            lemma_pivot_is(lens, pos, n, at);
            if at >= 0 {
                lemma_step_counts(lens, turned(pos, at, n));
            }
            if at < 0 {
                assert forall|d: int| 0 <= d < n implies (#[trigger] next.wheels()[d]).cursor
                    == 0 by {
                    assert(places_of(next.wheels())[d] == rewound(pos, n)[d]);
                }
            }
        }
    }

    /// A run of a fresh product of sequences of the lengths `lens` gives as many
    /// tuples as the product of the lengths, numbered in order, and then none:
    /// step `j + 1` of the run shows tuple `j` for every `j` below the product,
    /// and nothing for `j` equal to it.
    pub proof fn lemma_run(run: Seq<Self>, lens: Seq<nat>, j: nat)
        requires
            lens.len() > 0,
            j + 1 < run.len(),
            j <= product(lens),
            run[0].wf(),
            run[0].fresh(),
            forall|i: int| 0 <= i < run.len() ==> (#[trigger] run[i]).fits(lens),
            forall|i: int| 0 <= i < run.len() - 1 ==> (#[trigger] run[i]).steps_to(&run[i + 1]),
        ensures
            run[j as int + 1].wf(),
            j < product(lens) ==> run[j as int + 1].current() is Some && run[j as int + 1].index(
                lens,
            ) == j,
            j == product(lens) ==> run[j as int + 1].current() is None,
        decreases j,
    {
        if j == 0 {
            assert(run[0].steps_to(&run[1]));
            run[0].lemma_step(&run[1], lens);
        } else {
            Self::lemma_run(run, lens, (j - 1) as nat);
            assert(run[j as int].steps_to(&run[j as int + 1]));
            run[j as int].lemma_step(&run[j as int + 1], lens);
        }
    }

    /// The tuple shown holds, at each place, a clone of the value that the
    /// digit of the tuple's number at that place picks from the sequence.
    pub proof fn lemma_shown(&self, lens: Seq<nat>)
        requires
            self.wf(),
            self.fits(lens),
            self.current() is Some,
        ensures
            ({
                let ds = digits_at(lens, lens.len(), self.index(lens) as nat);
                &&& ds.len() == lens.len()
                &&& digits_fit(lens, ds)
                &&& forall|d: int|
                    0 <= d < lens.len() ==> ds[d] < self.wheels()[d].pool.cached().len() && cloned(
                        self.wheels()[d].pool.cached()[#[trigger] ds[d]],
                        self.current()->0[d],
                    )
            }),
    {
        let pos = places_of(self.wheels());
        let ds = shown(pos);
        assert(digits_fit(lens, ds)) by {
            assert forall|d: int| 0 <= d < ds.len() implies 0 <= #[trigger] ds[d] < lens[d] by {
                assert(1 <= self.wheels()[d].cursor <= self.wheels()[d].pool.cached().len());
            }
        }
        lemma_number_digits_at(lens, ds);
        assert forall|d: int| 0 <= d < lens.len() implies ds[d]
            < self.wheels()[d].pool.cached().len() && cloned(
            self.wheels()[d].pool.cached()[#[trigger] ds[d]],
            self.current()->0[d],
        ) by {
            assert(1 <= self.wheels()[d].cursor <= self.wheels()[d].pool.cached().len());
        }
    }

    /// One step of the product. A product of no sequences has no step.
    ///
    /// No source is asked for more than the value at its place's cursor. Where
    /// an iterator that keeps the laws of iterators feeds a place's buffer, what
    /// the buffer holds and what the iterator has still to give are together
    /// the same sequence before and after, and a buffer that has seen the end
    /// leaves nothing to give.
    pub fn advance(&mut self)
        requires
            old(self).wf(),
        ensures
            old(self).steps_to(final(self)),
            forall|d: int|
                #![trigger final(self).wheels()[d]]
                0 <= d < old(self).wheels().len() ==> ({
                    let before = old(self).wheels()[d].pool;
                    let after = final(self).wheels()[d].pool;
                    &&& after.feed().obeys_prophetic_iter_laws()
                        == before.feed().obeys_prophetic_iter_laws()
                    &&& before.pulls() <= after.pulls()
                    &&& before.feed().obeys_prophetic_iter_laws() && (before.exhausted()
                        ==> before.feed().remaining().len() == 0) ==> {
                        &&& after.cached() + after.feed().remaining() == before.cached()
                            + before.feed().remaining()
                        &&& after.exhausted() ==> after.feed().remaining().len() == 0
                    }
                }),
    {
        if self.iters.len() == 0 {
            proof {
                assert(grown(self.wheels(), self.wheels()));
            }
            return ;
        }
        let n: usize = self.iters.len();
        let mut shown: Option<Vec<<I::Into as Buffer<I>>::Item>> = None;
        core::mem::swap(&mut self.cur, &mut shown);
        match shown {
            None => {
                self.cur = Self::initial_iteration(&mut self.iters);
            },
            Some(tuple) => {
                let mut tuple = tuple;
                if Self::iterate_last(&mut self.iters, &mut tuple, n) {
                    self.cur = Some(tuple);
                } else {
                    self.cur = None;
                }
            },
        }
    }

    /// The next tuple, or `None` when the product is through. The values are
    /// clones of those that the tuple shown holds. After the `None` that ends
    /// it, the product begins again.
    pub fn next(&mut self) -> (r: Option<Vec<<I::Into as Buffer<I>>::Item>>)
        requires
            old(self).wf(),
        ensures
            old(self).steps_to(final(self)),
            r is Some <==> final(self).current() is Some,
            r is Some ==> r->0@.len() == final(self).current()->0.len() && forall|d: int|
                0 <= d < r->0@.len() ==> cloned(final(self).current()->0[d], #[trigger] r->0@[d]),
            forall|d: int|
                #![trigger final(self).wheels()[d]]
                0 <= d < old(self).wheels().len() ==> ({
                    let before = old(self).wheels()[d].pool;
                    let after = final(self).wheels()[d].pool;
                    &&& after.feed().obeys_prophetic_iter_laws()
                        == before.feed().obeys_prophetic_iter_laws()
                    &&& before.pulls() <= after.pulls()
                    &&& before.feed().obeys_prophetic_iter_laws() && (before.exhausted()
                        ==> before.feed().remaining().len() == 0) ==> {
                        &&& after.cached() + after.feed().remaining() == before.cached()
                            + before.feed().remaining()
                        &&& after.exhausted() ==> after.feed().remaining().len() == 0
                    }
                }),
    {
        self.advance();
        match &self.cur {
            Some(tuple) => Some(tuple.clone()),
            None => None,
        }
    }

    /// Bounds on how many tuples are still to come, from what the buffers
    /// know: nothing for a product of no sequences; before the first tuple,
    /// the product of what each place has; at a tuple, the number that the
    /// places write with what they have still to show.
    pub open spec fn hint(&self) -> SizeHint {
        if self.wheels().len() == 0 {
            (0usize, Some(0usize))
        } else if self.current() is None {
            product_hint(self.wheels(), self.wheels().len())
        } else {
            remaining_hint(self.wheels(), self.wheels().len())
        }
    }

    /// Bounds on how many tuples are still to come. No buffer is asked for a
    /// value.
    pub fn _size_hint(&self) -> (r: SizeHint)
        requires
            self.wf(),
        ensures
            r == self.hint(),
    {
        let n: usize = self.iters.len();
        if n == 0 {
            return (0, Some(0));
        }
        let in_progress = self.in_progress();
        let mut acc: SizeHint = if in_progress {
            (0, Some(0))
        } else {
            (1, Some(1))
        };
        let mut d: usize = 0;
        while d < n
            invariant
                d <= n,
                n == self.iters@.len(),
                wheels_wf(self.iters@),
                acc == if in_progress {
                    remaining_hint(self.iters@, d as nat)
                } else {
                    product_hint(self.iters@, d as nat)
                },
            decreases n - d,
        {
            let total: SizeHint = self.iters[d].pool.size_hint();
            let cursor: usize = self.iters[d].cursor;
            let live: SizeHint = (
                total.0 - cursor,
                match total.1 {
                    Some(all) => Some(all - cursor),
                    None => None,
                },
            );
            acc = if in_progress {
                crate::size_hint::add(crate::size_hint::mul(acc, total), live)
            } else {
                crate::size_hint::mul(acc, live)
            };
            d += 1;
        }
        acc
    }

    /// Bounds on how many tuples are still to come.
    pub fn size_hint(&self) -> (r: SizeHint)
        requires
            self.wf(),
        ensures
            r == self.hint(),
    {
        self._size_hint()
    }

    /// How many tuples are still to come, going by the lengths that the
    /// buffers know: nothing for a product of no sequences; before the first
    /// tuple, the product of what each place has still to show; at a tuple,
    /// the number that the places write with what they have still to show as
    /// digits.
    pub open spec fn left(&self) -> int {
        let lens = lens_of(self.wheels());
        let pos = places_of(self.wheels());
        if self.wheels().len() == 0 {
            0
        } else if self.current() is None {
            product(unshown_counts(lens, pos)) as int
        } else {
            number(lens, unshown(lens, pos))
        }
    }

    /// `after` is this product with every sequence known to its end, and
    /// nothing else changed.
    pub open spec fn measured(&self, after: &Self) -> bool {
        &&& after.wf()
        &&& grown(self.wheels(), after.wheels())
        &&& places_of(after.wheels()) == places_of(self.wheels())
        &&& after.current() == self.current()
        &&& forall|d: int|
            0 <= d < after.wheels().len() ==> (#[trigger] after.wheels()[d]).pool.exhausted()
    }

    /// Has every buffer read its sequence to the end, and gives the lengths.
    fn measure(&mut self) -> (lens: Vec<usize>)
        requires
            old(self).wf(),
        ensures
            old(self).measured(final(self)),
            forall|d: int|
                #![trigger final(self).wheels()[d]]
                0 <= d < old(self).wheels().len() ==> ({
                    let before = old(self).wheels()[d].pool;
                    let after = final(self).wheels()[d].pool;
                    &&& after.feed().obeys_prophetic_iter_laws()
                        == before.feed().obeys_prophetic_iter_laws()
                    &&& before.pulls() <= after.pulls()
                    &&& before.feed().obeys_prophetic_iter_laws() && (before.exhausted()
                        ==> before.feed().remaining().len() == 0) ==> {
                        &&& after.cached() + after.feed().remaining() == before.cached()
                            + before.feed().remaining()
                        &&& after.exhausted() ==> after.feed().remaining().len() == 0
                    }
                }),
            lens@.len() == final(self).wheels().len(),
            forall|i: int|
                0 <= i < lens@.len() ==> #[trigger] lens@[i]
                    == final(self).wheels()[i].pool.cached().len(),
    {
        let n: usize = self.iters.len();
        let mut lens: Vec<usize> = Vec::new();
        let mut d: usize = 0;
        while d < n
            invariant
                d <= n,
                n == self.iters@.len(),
                self.iters@.len() == old(self).iters@.len(),
                self.cur == old(self).cur,
                wheels_wf(self.iters@),
                grown(old(self).iters@, self.iters@),
                forall|d: int|
                    #![trigger self.iters@[d]]
                    0 <= d < old(self).iters@.len() ==> ({
                        let before = old(self).iters@[d].pool;
                        let after = self.iters@[d].pool;
                        &&& after.feed().obeys_prophetic_iter_laws()
                            == before.feed().obeys_prophetic_iter_laws()
                        &&& before.pulls() <= after.pulls()
                        &&& before.feed().obeys_prophetic_iter_laws() && (before.exhausted()
                            ==> before.feed().remaining().len() == 0) ==> {
                            &&& after.cached() + after.feed().remaining() == before.cached()
                                + before.feed().remaining()
                            &&& after.exhausted() ==> after.feed().remaining().len() == 0
                        }
                    }),
                places_of(self.iters@) == places_of(old(self).iters@),
                lens@.len() == d,
                forall|e: int|
                    0 <= e < d ==> (#[trigger] self.iters@[e]).pool.exhausted() && lens@[e]
                        == self.iters@[e].pool.cached().len(),
                forall|e: int| d <= e < n ==> #[trigger] self.iters@[e] == old(self).iters@[e],
            decreases n - d,
        {
            let ghost held = self.iters@;
            let len = drain(&mut self.iters[d].pool);
            lens.push(len);
            proof {
                let before = old(self).iters@;
                let after = self.iters@;
                assert forall|e: int| 0 <= e < n && e != d implies #[trigger] after[e]
                    == held[e] by {}
                assert(after[d as int].cursor == held[d as int].cursor);
                lemma_grown_on(before, held, after, d as int);
                lemma_fed_on(before, held, after, d as int);
                assert(places_of(after) =~= places_of(before));
            }
            d += 1;
        }
        proof {
            if self.cur is Some {
                let tuple = self.cur->0;
                let before = old(self).iters@;
                let after = self.iters@;
                assert(aligned(after, tuple@, n as nat)) by {
                    assert forall|e: int| 0 <= e < n implies 1 <= (#[trigger] after[e]).cursor
                        <= after[e].pool.cached().len() && cloned(
                        after[e].pool.cached()[after[e].cursor - 1],
                        tuple@[e],
                    ) by {
                        assert(1 <= before[e].cursor <= before[e].pool.cached().len());
                        assert(places_of(after)[e] == places_of(before)[e]);
                    }
                }
            }
        }
        lens
    }

    /// How many tuples are still to come, or `None` where that is more than a
    /// `usize` holds. Every sequence is read to its end for this.
    pub fn _count(&mut self) -> (r: Option<usize>)
        requires
            old(self).wf(),
        ensures
            old(self).measured(final(self)),
            r == fitting(final(self).left()),
            forall|d: int|
                #![trigger final(self).wheels()[d]]
                0 <= d < old(self).wheels().len() ==> ({
                    let before = old(self).wheels()[d].pool;
                    let after = final(self).wheels()[d].pool;
                    &&& after.feed().obeys_prophetic_iter_laws()
                        == before.feed().obeys_prophetic_iter_laws()
                    &&& before.pulls() <= after.pulls()
                    &&& before.feed().obeys_prophetic_iter_laws() && (before.exhausted()
                        ==> before.feed().remaining().len() == 0) ==> {
                        &&& after.cached() + after.feed().remaining() == before.cached()
                            + before.feed().remaining()
                        &&& after.exhausted() ==> after.feed().remaining().len() == 0
                    }
                }),
    {
        let lens = self.measure();
        self.tally(&lens)
    }

    /// The count of `left` from the lengths in `lens`, or `None` where it is
    /// more than a `usize` holds.
    fn tally(&self, lens: &Vec<usize>) -> (r: Option<usize>)
        requires
            self.wf(),
            lens@.len() == self.iters@.len(),
            forall|i: int|
                0 <= i < lens@.len() ==> #[trigger] lens@[i] == self.iters@[i].pool.cached().len(),
        ensures
            r == fitting(self.left()),
    {
        let n: usize = self.iters.len();
        if n == 0 {
            return Some(0);
        }
        let ghost known = lens_of(self.iters@);
        let ghost pos = places_of(self.iters@);
        if self.cur.is_none() {
            let mut e: usize = 0;
            while e < n
                invariant
                    e <= n,
                    n == self.iters@.len(),
                    lens@.len() == n,
                    known == lens_of(self.iters@),
                    pos == places_of(self.iters@),
                    wheels_wf(self.iters@),
                    n > 0,
                    self.cur is None,
                    forall|i: int| 0 <= i < n ==> #[trigger] lens@[i] == known[i],
                    forall|i: int| 0 <= i < e ==> #[trigger] unshown_counts(known, pos)[i] >= 1,
                decreases n - e,
            {
                if lens[e] - self.iters[e].cursor == 0 {
                    proof {
                        lemma_product_zero(unshown_counts(known, pos), n as nat, e as int);
                    }
                    return Some(0);
                }
                e += 1;
            }
            let mut count: usize = 1;
            let mut e: usize = 0;
            while e < n
                invariant
                    e <= n,
                    n == self.iters@.len(),
                    lens@.len() == n,
                    known == lens_of(self.iters@),
                    pos == places_of(self.iters@),
                    wheels_wf(self.iters@),
                    self.left() == product(unshown_counts(known, pos)),
                    forall|i: int| 0 <= i < n ==> #[trigger] lens@[i] == known[i],
                    forall|i: int| 0 <= i < n ==> #[trigger] unshown_counts(known, pos)[i] >= 1,
                    count == product_upto(unshown_counts(known, pos), e as nat),
                decreases n - e,
            {
                let factor: usize = lens[e] - self.iters[e].cursor;
                proof {
                    assert(unshown_counts(known, pos)[e as int] == factor);
                    lemma_product_grows(unshown_counts(known, pos), (e + 1) as nat, n as nat);
                }
                match count.checked_mul(factor) {
                    Some(next) => {
                        count = next;
                    },
                    None => {
                        return None;
                    },
                }
                e += 1;
            }
            Some(count)
        } else {
            let mut count: usize = 0;
            let mut e: usize = 0;
            proof {
                assert forall|i: int| 0 <= i < n implies 0 <= #[trigger] unshown(known, pos)[i]
                    && known[i] >= 1 by {
                    assert(1 <= self.iters@[i].cursor <= self.iters@[i].pool.cached().len());
                }
            }
            while e < n
                invariant
                    e <= n,
                    n == self.iters@.len(),
                    lens@.len() == n,
                    known == lens_of(self.iters@),
                    pos == places_of(self.iters@),
                    wheels_wf(self.iters@),
                    self.left() == number(known, unshown(known, pos)),
                    forall|i: int| 0 <= i < n ==> #[trigger] lens@[i] == known[i],
                    forall|i: int| 0 <= i < n ==> 0 <= #[trigger] unshown(known, pos)[i],
                    forall|i: int| 0 <= i < n ==> #[trigger] known[i] >= 1,
                    count == number(known, unshown(known, pos).take(e as int)),
                decreases n - e,
            {
                let total: usize = lens[e];
                let live: usize = total - self.iters[e].cursor;
                proof {
                    let longer = unshown(known, pos).take(e + 1);
                    assert(longer.drop_last() =~= unshown(known, pos).take(e as int));
                    assert(longer.last() == live);
                    assert(number(known, longer) == count * total + live);
                    lemma_number_prefix(known, unshown(known, pos), (e + 1) as nat);
                }
                let scaled = match count.checked_mul(total) {
                    Some(scaled) => scaled,
                    None => {
                        return None;
                    },
                };
                count = match scaled.checked_add(live) {
                    Some(next) => next,
                    None => {
                        return None;
                    },
                };
                e += 1;
            }
            proof {
                assert(unshown(known, pos).take(n as int) =~= unshown(known, pos));
            }
            Some(count)
        }
    }

    /// At a tuple, the tuples still to come are those behind it: their number
    /// and the number of the tuple shown add up to the number of the last.
    pub proof fn lemma_left(&self)
        requires
            self.wf(),
            self.current() is Some,
        ensures
            self.left() == product(lens_of(self.wheels())) - 1 - self.index(
                lens_of(self.wheels()),
            ),
    {
        let lens = lens_of(self.wheels());
        let pos = places_of(self.wheels());
        lemma_number_unshown(lens, pos, pos.len());
        assert(shown(pos).take(pos.len() as int) =~= shown(pos));
        assert(unshown(lens, pos).take(pos.len() as int) =~= unshown(lens, pos));
    }

    /// Where every sequence is known to its end, the bounds on how many tuples
    /// are still to come are exact: both are the count, as far as a `usize`
    /// holds it.
    pub proof fn lemma_hint_exact(&self)
        requires
            self.wf(),
            forall|d: int|
                0 <= d < self.wheels().len() ==> (#[trigger] self.wheels()[d]).pool.exhausted(),
        ensures
            self.hint() == exactly(self.left()),
    {
        let n = self.wheels().len();
        let lens = lens_of(self.wheels());
        let pos = places_of(self.wheels());
        lemma_product_hint_exact(self.wheels(), n);
        lemma_remaining_hint_exact(self.wheels(), n);
        assert(unshown(lens, pos).take(n as int) =~= unshown(lens, pos));
    }

    /// How many tuples are still to come, or `None` where that is more than a
    /// `usize` holds: the count of the product with every sequence read to its
    /// end.
    pub fn count(self) -> (r: Option<usize>)
        requires
            self.wf(),
        ensures
            exists|after: Self| #[trigger]
                self.measured(&after) && r == fitting(after.left()) && (
                forall|d: int|
                    #![trigger after.wheels()[d]]
                    0 <= d < self.wheels().len() ==> ({
                        let before = self.wheels()[d].pool;
                        let after = after.wheels()[d].pool;
                        &&& after.feed().obeys_prophetic_iter_laws()
                            == before.feed().obeys_prophetic_iter_laws()
                        &&& before.pulls() <= after.pulls()
                        &&& before.feed().obeys_prophetic_iter_laws() && (before.exhausted()
                            ==> before.feed().remaining().len() == 0) ==> {
                            &&& after.cached() + after.feed().remaining() == before.cached()
                                + before.feed().remaining()
                            &&& after.exhausted() ==> after.feed().remaining().len() == 0
                        }
                    })),
    {
        let mut this = self;
        let r = this._count();
        proof {
            assert(self.measured(&this));
        }
        r
    }

    /// `tuple` holds a clone of the last value of each sequence, if every
    /// place has a value still to show, and is `None` if one has not. The
    /// sequences are taken to be known to their ends.
    pub open spec fn ends_with(&self, tuple: Option<Seq<<I::Into as Buffer<I>>::Item>>) -> bool {
        &&& tuple is Some <==> forall|d: int|
            0 <= d < self.wheels().len() ==> (#[trigger] self.wheels()[d]).cursor
                < self.wheels()[d].pool.cached().len()
        &&& tuple matches Some(values) ==> values.len() == self.wheels().len() && forall|d: int|
            0 <= d < self.wheels().len() ==> cloned(
                (#[trigger] self.wheels()[d]).pool.cached().last(),
                values[d],
            )
    }

    /// The last tuple: the last value of each sequence, or `None` if a place
    /// has no value still to show. Every sequence is read to its end for
    /// this.
    pub fn last(self) -> (r: Option<Vec<<I::Into as Buffer<I>>::Item>>)
        requires
            self.wf(),
        ensures
            exists|after: Self|
                #[trigger] self.measured(&after) && after.ends_with(
                    match r {
                        Some(values) => Some(values@),
                        None => None,
                    },
                ) && (
                forall|d: int|
                    #![trigger after.wheels()[d]]
                    0 <= d < self.wheels().len() ==> ({
                        let before = self.wheels()[d].pool;
                        let after = after.wheels()[d].pool;
                        &&& after.feed().obeys_prophetic_iter_laws()
                            == before.feed().obeys_prophetic_iter_laws()
                        &&& before.pulls() <= after.pulls()
                        &&& before.feed().obeys_prophetic_iter_laws() && (before.exhausted()
                            ==> before.feed().remaining().len() == 0) ==> {
                            &&& after.cached() + after.feed().remaining() == before.cached()
                                + before.feed().remaining()
                            &&& after.exhausted() ==> after.feed().remaining().len() == 0
                        }
                    })),
    {
        let mut this = self;
        let lens = this.measure();
        let ghost after = this;
        let n: usize = this.iters.len();
        let mut lasts: Vec<<I::Into as Buffer<I>>::Item> = Vec::new();
        let mut d: usize = 0;
        while d < n
            invariant
                d <= n,
                n == this.iters@.len(),
                lens@.len() == n,
                after.iters@.len() == n,
                self.measured(&after),
                forall|d: int|
                    #![trigger after.iters@[d]]
                    0 <= d < self.iters@.len() ==> ({
                        let before = self.iters@[d].pool;
                        let after = after.iters@[d].pool;
                        &&& after.feed().obeys_prophetic_iter_laws()
                            == before.feed().obeys_prophetic_iter_laws()
                        &&& before.pulls() <= after.pulls()
                        &&& before.feed().obeys_prophetic_iter_laws() && (before.exhausted()
                            ==> before.feed().remaining().len() == 0) ==> {
                            &&& after.cached() + after.feed().remaining() == before.cached()
                                + before.feed().remaining()
                            &&& after.exhausted() ==> after.feed().remaining().len() == 0
                        }
                    }),
                wheels_wf(this.iters@),
                forall|e: int|
                    0 <= e < n ==> (#[trigger] this.iters@[e]).pool.cached()
                        == after.iters@[e].pool.cached() && this.iters@[e].cursor
                        == after.iters@[e].cursor && lens@[e] == this.iters@[e].pool.cached().len(),
                lasts@.len() == d,
                forall|e: int|
                    0 <= e < d ==> (#[trigger] this.iters@[e]).cursor
                        < this.iters@[e].pool.cached().len() && cloned(
                        this.iters@[e].pool.cached().last(),
                        lasts@[e],
                    ),
            decreases n - d,
        {
            let len: usize = lens[d];
            if this.iters[d].cursor < len {
                let ghost held = this.iters@;
                let value = this.iters[d].pool.get(len - 1).unwrap();
                lasts.push(value);
                proof {
                    assert forall|e: int| 0 <= e < n implies (#[trigger] this.iters@[e]).pool.wf()
                        && this.iters@[e].cursor <= this.iters@[e].pool.cached().len()
                        && this.iters@[e].pool.cached() == after.iters@[e].pool.cached()
                        && this.iters@[e].cursor == after.iters@[e].cursor by {
                        if e != d {
                            assert(this.iters@[e] == held[e]);
                        } else {
                            assert(this.iters@[e].cursor == held[e].cursor);
                        }
                    }
                }
            } else {
                proof {
                    let stuck = after.iters@[d as int];
                    assert(stuck.cursor >= stuck.pool.cached().len());
                    assert(self.measured(&after));
                }
                return None;
            }
            d += 1;
        }
        proof {
            assert(self.measured(&after));
            assert(after.ends_with(Some(lasts@))) by {
                assert forall|e: int| 0 <= e < n implies (#[trigger] after.wheels()[e]).cursor
                    < after.wheels()[e].pool.cached().len() && cloned(
                    after.wheels()[e].pool.cached().last(),
                    lasts@[e],
                ) by {
                    assert(this.iters@[e].cursor < this.iters@[e].pool.cached().len());
                }
            }
        }
        Some(lasts)
    }

    /// This product, to be stepped and read in place.
    pub fn streaming(self) -> (s: MultiProductStreaming<I>)
        ensures
            s.inner() == self,
    {
        MultiProductStreaming(self)
    }

    /// This product, to give its tuples as arrays of the length of `A`.
    pub fn array<A>(self) -> (a: MultiProductArray<I, A>)
        ensures
            a.inner() == self,
    {
        MultiProductArray(self, PhantomData)
    }

    /// A tuple is shown.
    pub fn in_progress(&self) -> (r: bool)
        ensures
            r == self.current() is Some,
    {
        self.cur.is_some()
    }
}

/// A product that is stepped in place and lends out the tuple it shows.
pub struct MultiProductStreaming<I: IntoBuffer>(MultiProduct<I>);

impl<I: IntoBuffer> MultiProductStreaming<I> {
    /// The product underneath.
    pub closed spec fn inner(&self) -> MultiProduct<I> {
        self.0
    }

    /// One step of the product.
    pub fn advance(&mut self)
        requires
            old(self).inner().wf(),
        ensures
            old(self).inner().steps_to(&final(self).inner()),
            forall|d: int|
                #![trigger final(self).inner().wheels()[d]]
                0 <= d < old(self).inner().wheels().len() ==> ({
                    let before = old(self).inner().wheels()[d].pool;
                    let after = final(self).inner().wheels()[d].pool;
                    &&& after.feed().obeys_prophetic_iter_laws()
                        == before.feed().obeys_prophetic_iter_laws()
                    &&& before.pulls() <= after.pulls()
                    &&& before.feed().obeys_prophetic_iter_laws() && (before.exhausted()
                        ==> before.feed().remaining().len() == 0) ==> {
                        &&& after.cached() + after.feed().remaining() == before.cached()
                            + before.feed().remaining()
                        &&& after.exhausted() ==> after.feed().remaining().len() == 0
                    }
                }),
    {
        self.0.advance()
    }

    /// The tuple that the product shows, where it shows one.
    pub fn get(&self) -> (r: Option<&[<I::Into as Buffer<I>>::Item]>)
        ensures
            r is Some <==> self.inner().current() is Some,
            r is Some ==> r->0@ == self.inner().current()->0,
    {
        match &self.0.cur {
            Some(tuple) => Some(tuple.as_slice()),
            None => None,
        }
    }

    /// How many tuples are still to come, or `None` where that is more than a
    /// `usize` holds.
    pub fn count(self) -> (r: Option<usize>)
        requires
            self.inner().wf(),
        ensures
            exists|after: MultiProduct<I>| #[trigger]
                self.inner().measured(&after) && r == fitting(after.left()) && (
                forall|d: int|
                    #![trigger after.wheels()[d]]
                    0 <= d < self.inner().wheels().len() ==> ({
                        let before = self.inner().wheels()[d].pool;
                        let after = after.wheels()[d].pool;
                        &&& after.feed().obeys_prophetic_iter_laws()
                            == before.feed().obeys_prophetic_iter_laws()
                        &&& before.pulls() <= after.pulls()
                        &&& before.feed().obeys_prophetic_iter_laws() && (before.exhausted()
                            ==> before.feed().remaining().len() == 0) ==> {
                            &&& after.cached() + after.feed().remaining() == before.cached()
                                + before.feed().remaining()
                            &&& after.exhausted() ==> after.feed().remaining().len() == 0
                        }
                    })),
    {
        self.0.count()
    }

    /// Bounds on how many tuples are still to come.
    pub fn size_hint(&self) -> (r: SizeHint)
        requires
            self.inner().wf(),
        ensures
            r == self.inner().hint(),
    {
        self.0._size_hint()
    }
}

/// A product that gives its tuples as arrays. `A` is an array type of the
/// length wanted; its item type is not used.
pub struct MultiProductArray<I: IntoBuffer, A>(MultiProduct<I>, PhantomData<A>);

/// The values as an array, if there are exactly `N` of them. This is
/// `TryFrom<Vec<T>>` for `[T; N]` of the standard library, which hands the
/// vector back where the length is another; here that case is `None`.
#[verifier::external_body]
fn into_array<T, const N: usize>(values: Vec<T>) -> (r: Option<[T; N]>)
    ensures
        r is Some <==> values@.len() == N,
        r is Some ==> r->0@ == values@,
{
    <[T; N]>::try_from(values).ok()
}

impl<I: IntoBuffer, A> MultiProductArray<I, A> {
    /// The product underneath.
    pub closed spec fn inner(&self) -> MultiProduct<I> {
        self.0
    }
}

impl<I: IntoBuffer, X, const N: usize> MultiProductArray<I, [X; N]> {
    /// The next tuple as an array, or `None` when the product is through, or
    /// is not one of `N` sequences.
    pub fn next(&mut self) -> (r: Option<[<I::Into as Buffer<I>>::Item; N]>)
        requires
            old(self).inner().wf(),
        ensures
            old(self).inner().steps_to(&final(self).inner()),
            r is Some <==> final(self).inner().current() is Some
                && final(self).inner().wheels().len() == N,
            r is Some ==> forall|d: int|
                0 <= d < N ==> cloned(final(self).inner().current()->0[d], #[trigger] r->0@[d]),
            forall|d: int|
                #![trigger final(self).inner().wheels()[d]]
                0 <= d < old(self).inner().wheels().len() ==> ({
                    let before = old(self).inner().wheels()[d].pool;
                    let after = final(self).inner().wheels()[d].pool;
                    &&& after.feed().obeys_prophetic_iter_laws()
                        == before.feed().obeys_prophetic_iter_laws()
                    &&& before.pulls() <= after.pulls()
                    &&& before.feed().obeys_prophetic_iter_laws() && (before.exhausted()
                        ==> before.feed().remaining().len() == 0) ==> {
                        &&& after.cached() + after.feed().remaining() == before.cached()
                            + before.feed().remaining()
                        &&& after.exhausted() ==> after.feed().remaining().len() == 0
                    }
                }),
    {
        match self.0.next() {
            Some(tuple) => into_array(tuple),
            None => None,
        }
    }

    /// The last tuple as an array: the last value of each sequence. It is
    /// `None` if a place has no value still to show, or the product is not one
    /// of `N` sequences. Every sequence is read to its end for this.
    pub fn last(self) -> (r: Option<[<I::Into as Buffer<I>>::Item; N]>)
        requires
            self.inner().wf(),
        ensures
            exists|after: MultiProduct<I>, tuple: Option<Seq<<I::Into as Buffer<I>>::Item>>|
                #![trigger self.inner().measured(&after), after.ends_with(tuple)]
                {
                    &&& self.inner().measured(&after)
                    &&& after.ends_with(tuple)
                    &&& r is Some <==> tuple is Some && self.inner().wheels().len() == N
                    &&& r is Some ==> r->0@ == tuple->0
                    &&& forall|d: int|
                        #![trigger after.wheels()[d]]
                        0 <= d < self.inner().wheels().len() ==> ({
                            let before = self.inner().wheels()[d].pool;
                            let after = after.wheels()[d].pool;
                            &&& after.feed().obeys_prophetic_iter_laws()
                                == before.feed().obeys_prophetic_iter_laws()
                            &&& before.pulls() <= after.pulls()
                            &&& before.feed().obeys_prophetic_iter_laws() && (before.exhausted()
                                ==> before.feed().remaining().len() == 0) ==> {
                                &&& after.cached() + after.feed().remaining() == before.cached()
                                    + before.feed().remaining()
                                &&& after.exhausted() ==> after.feed().remaining().len() == 0
                            }
                        })
                },
    {
        let whole = self.0.last();
        let ghost tuple = if whole is Some {
            Some(whole->0@)
        } else {
            None
        };
        let ghost after = choose|after: MultiProduct<I>| #[trigger]
            self.inner().measured(&after) && after.ends_with(tuple);
        let r = match whole {
            Some(values) => into_array(values),
            None => None,
        };
        proof {
            assert(self.inner().measured(&after) && after.ends_with(tuple));
            assert(tuple is Some ==> tuple->0.len() == after.wheels().len());
        }
        r
    }

    /// How many tuples are still to come, or `None` where that is more than a
    /// `usize` holds.
    pub fn count(self) -> (r: Option<usize>)
        requires
            self.inner().wf(),
        ensures
            exists|after: MultiProduct<I>| #[trigger]
                self.inner().measured(&after) && r == fitting(after.left()) && (
                forall|d: int|
                    #![trigger after.wheels()[d]]
                    0 <= d < self.inner().wheels().len() ==> ({
                        let before = self.inner().wheels()[d].pool;
                        let after = after.wheels()[d].pool;
                        &&& after.feed().obeys_prophetic_iter_laws()
                            == before.feed().obeys_prophetic_iter_laws()
                        &&& before.pulls() <= after.pulls()
                        &&& before.feed().obeys_prophetic_iter_laws() && (before.exhausted()
                            ==> before.feed().remaining().len() == 0) ==> {
                            &&& after.cached() + after.feed().remaining() == before.cached()
                                + before.feed().remaining()
                            &&& after.exhausted() ==> after.feed().remaining().len() == 0
                        }
                    })),
    {
        self.0.count()
    }

    /// Bounds on how many tuples are still to come.
    pub fn size_hint(&self) -> (r: SizeHint)
        requires
            self.inner().wf(),
        ensures
            r == self.inner().hint(),
    {
        self.0._size_hint()
    }
}

} // verus!
