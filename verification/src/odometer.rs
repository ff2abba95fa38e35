//! Counting with one wheel per place, each wheel with a length of its own, the
//! last wheel turning fastest: as mathematics.

use vstd::prelude::*;

verus! {

/// The product of the first `m` of `lens`.
pub open spec fn product_upto(lens: Seq<nat>, m: nat) -> nat
    decreases m,
{
    if m == 0 {
        1
    } else {
        product_upto(lens, (m - 1) as nat) * lens[m - 1]
    }
}

/// The product of all of `lens`: how many tuples take one value from each of
/// sequences of these lengths.
pub open spec fn product(lens: Seq<nat>) -> nat {
    product_upto(lens, lens.len())
}

/// `ds` is a row of digits for wheels of the lengths `lens`: digit `d` is
/// below `lens[d]`.
pub open spec fn digits_fit(lens: Seq<nat>, ds: Seq<int>) -> bool {
    &&& ds.len() <= lens.len()
    &&& forall|d: int| 0 <= d < ds.len() ==> 0 <= #[trigger] ds[d] < lens[d]
}

/// The number that the row `ds` writes, digit `d` having radix `lens[d]` and
/// the first digit counting most.
pub open spec fn number(lens: Seq<nat>, ds: Seq<int>) -> int
    decreases ds.len(),
{
    if ds.len() == 0 {
        0
    } else {
        number(lens, ds.drop_last()) * lens[ds.len() - 1] + ds.last()
    }
}

/// The row of as many digits as there are wheels that writes `j`.
pub open spec fn digits_at(lens: Seq<nat>, m: nat, j: nat) -> Seq<int>
    decreases m,
{
    if m == 0 {
        Seq::empty()
    } else {
        let radix = lens[m - 1] as int;
        digits_at(lens, (m - 1) as nat, (j as int / radix) as nat).push(j as int % radix)
    }
}

/// The last of the first `m` wheels that has not reached its end: the place
/// that the next step turns. It is -1 where every wheel has.
pub open spec fn pivot(lens: Seq<nat>, pos: Seq<int>, m: nat) -> int
    decreases m,
{
    if m == 0 {
        -1
    } else if pos[m - 1] < lens[m - 1] {
        m - 1
    } else {
        pivot(lens, pos, (m - 1) as nat)
    }
}

/// The places after a step of the first `m` wheels that turns the wheel `at`:
/// that wheel is one further, and every wheel behind it is at its first value
/// again.
pub open spec fn turned(pos: Seq<int>, at: int, m: nat) -> Seq<int> {
    Seq::new(
        pos.len(),
        |d: int|
            if d < at || d >= m {
                pos[d]
            } else if d == at {
                pos[at] + 1
            } else {
                1
            },
    )
}

/// The places with the first `m` wheels back before their first value.
pub open spec fn rewound(pos: Seq<int>, m: nat) -> Seq<int> {
    Seq::new(pos.len(), |d: int| if d < m { 0 } else { pos[d] })
}

/// The first of the first `m` wheels that has no value at its place, or `m`
/// where each has one.
pub open spec fn stall(lens: Seq<nat>, pos: Seq<int>, m: nat) -> int
    decreases m,
{
    if m == 0 {
        0
    } else {
        let before = stall(lens, pos, (m - 1) as nat);
        if before < m - 1 {
            before
        } else if pos[m - 1] < lens[m - 1] {
            m as int
        } else {
            m - 1
        }
    }
}

/// The places with each of the first `upto` wheels one further.
pub open spec fn begun(pos: Seq<int>, upto: int) -> Seq<int> {
    Seq::new(pos.len(), |d: int| if d < upto { pos[d] + 1 } else { pos[d] })
}

/// The digits of the tuple that wheels at the places `pos` show: each wheel
/// shows the value before its place.
pub open spec fn shown(pos: Seq<int>) -> Seq<int> {
    Seq::new(pos.len(), |d: int| pos[d] - 1)
}

/// Every wheel shows a value: its place is at least 1 and at most its length.
pub open spec fn showing(lens: Seq<nat>, pos: Seq<int>) -> bool {
    &&& pos.len() == lens.len()
    &&& forall|d: int| 0 <= d < pos.len() ==> 1 <= #[trigger] pos[d] <= lens[d]
}

/// The pivot can turn, and no place behind it can.
pub proof fn lemma_pivot(lens: Seq<nat>, pos: Seq<int>, m: nat)
    requires
        m <= pos.len(),
        pos.len() == lens.len(),
    ensures
        -1 <= pivot(lens, pos, m) < m,
        pivot(lens, pos, m) >= 0 ==> pos[pivot(lens, pos, m)] < lens[pivot(lens, pos, m)],
        forall|d: int| pivot(lens, pos, m) < d < m ==> #[trigger] pos[d] >= lens[d],
    decreases m,
{
    if m > 0 && pos[m - 1] >= lens[m - 1] {
        lemma_pivot(lens, pos, (m - 1) as nat);
    }
}

/// The pivot is the one place that can turn and has none behind it that can.
pub proof fn lemma_pivot_is(lens: Seq<nat>, pos: Seq<int>, m: nat, at: int)
    requires
        m <= pos.len(),
        pos.len() == lens.len(),
        -1 <= at < m,
        at >= 0 ==> pos[at] < lens[at],
        forall|d: int| at < d < m ==> #[trigger] pos[d] >= lens[d],
    ensures
        pivot(lens, pos, m) == at,
    decreases m,
{
    if m > 0 && at < m - 1 {
        assert(pos[m - 1] >= lens[m - 1]);
        lemma_pivot_is(lens, pos, (m - 1) as nat, at);
    }
}

/// The stall has no value at its place, and every place before it has one.
pub proof fn lemma_stall(lens: Seq<nat>, pos: Seq<int>, m: nat)
    requires
        m <= pos.len(),
        pos.len() == lens.len(),
    ensures
        0 <= stall(lens, pos, m) <= m,
        stall(lens, pos, m) < m ==> pos[stall(lens, pos, m)] >= lens[stall(lens, pos, m)],
        forall|d: int| 0 <= d < stall(lens, pos, m) ==> #[trigger] pos[d] < lens[d],
    decreases m,
{
    if m > 0 {
        lemma_stall(lens, pos, (m - 1) as nat);
    }
}

/// The stall is the one place without a value that has none before it.
pub proof fn lemma_stall_is(lens: Seq<nat>, pos: Seq<int>, m: nat, at: int)
    requires
        m <= pos.len(),
        pos.len() == lens.len(),
        0 <= at <= m,
        at < m ==> pos[at] >= lens[at],
        forall|d: int| 0 <= d < at ==> #[trigger] pos[d] < lens[d],
    ensures
        stall(lens, pos, m) == at,
    decreases m,
{
    if m > 0 {
        if at < m {
            lemma_stall_is(lens, pos, (m - 1) as nat, at);
        } else {
            lemma_stall_is(lens, pos, (m - 1) as nat, m - 1);
        }
    }
}

/// A row of fitting digits writes a number below the product of the lengths.
pub proof fn lemma_number_bounds(lens: Seq<nat>, ds: Seq<int>)
    requires
        digits_fit(lens, ds),
    ensures
        0 <= number(lens, ds) < product_upto(lens, ds.len()),
    decreases ds.len(),
{
    if ds.len() > 0 {
        let front = ds.drop_last();
        assert(digits_fit(lens, front));
        lemma_number_bounds(lens, front);
        let r = number(lens, front);
        let f = product_upto(lens, front.len()) as int;
        let radix = lens[ds.len() - 1] as int;
        let d = ds.last();
        assert(0 <= d < radix);
        assert(0 <= r * radix + d < f * radix) by (nonlinear_arith)
            requires
                0 <= r < f,
                0 <= d < radix,
        ;
    }
}

/// The digits that write the number of a row are the row.
pub proof fn lemma_number_digits_at(lens: Seq<nat>, ds: Seq<int>)
    requires
        digits_fit(lens, ds),
    ensures
        digits_at(lens, ds.len(), number(lens, ds) as nat) == ds,
    decreases ds.len(),
{
    lemma_number_bounds(lens, ds);
    if ds.len() > 0 {
        let front = ds.drop_last();
        assert(digits_fit(lens, front));
        lemma_number_bounds(lens, front);
        lemma_number_digits_at(lens, front);
        let radix = lens[ds.len() - 1] as int;
        let r = number(lens, front);
        let d = ds.last();
        assert(0 <= d < radix);
        vstd::arithmetic::div_mod::lemma_fundamental_div_mod_converse(r * radix + d, radix, r, d);
        assert(front.push(d) =~= ds);
    } else {
        assert(ds =~= Seq::<int>::empty());
    }
}

/// Counting one up: the last digit that can grow does, and the digits behind
/// it, each the largest its wheel allows, fall back to zero.
pub proof fn lemma_number_carry(lens: Seq<nat>, before: Seq<int>, after: Seq<int>, at: int)
    requires
        before.len() == after.len() <= lens.len(),
        0 <= at < before.len(),
        forall|d: int| 0 <= d < at ==> before[d] == after[d],
        after[at] == before[at] + 1,
        forall|d: int| at < d < before.len() ==> before[d] == lens[d] - 1 && after[d] == 0,
    ensures
        number(lens, after) == number(lens, before) + 1,
    decreases before.len(),
{
    let last = before.len() - 1;
    if at == last {
        assert(before.drop_last() =~= after.drop_last());
    } else {
        lemma_number_carry(lens, before.drop_last(), after.drop_last(), at);
        let r = number(lens, before.drop_last());
        let radix = lens[last] as int;
        assert(before.last() == radix - 1);
        assert(after.last() == 0);
        assert((r + 1) * radix + 0 == r * radix + (radix - 1) + 1) by (nonlinear_arith);
    }
}

/// The row of largest digits writes the last number.
pub proof fn lemma_number_last(lens: Seq<nat>, ds: Seq<int>)
    requires
        ds.len() <= lens.len(),
        forall|d: int| 0 <= d < ds.len() ==> #[trigger] ds[d] == lens[d] - 1,
    ensures
        number(lens, ds) == product_upto(lens, ds.len()) - 1,
    decreases ds.len(),
{
    if ds.len() > 0 {
        lemma_number_last(lens, ds.drop_last());
        let f = product_upto(lens, (ds.len() - 1) as nat) as int;
        let radix = lens[ds.len() - 1] as int;
        assert(ds.last() == radix - 1);
        assert((f - 1) * radix + (radix - 1) == f * radix - 1) by (nonlinear_arith);
    }
}

/// The row of zeros writes zero.
pub proof fn lemma_number_first(lens: Seq<nat>, ds: Seq<int>)
    requires
        ds.len() <= lens.len(),
        forall|d: int| 0 <= d < ds.len() ==> #[trigger] ds[d] == 0,
    ensures
        number(lens, ds) == 0,
    decreases ds.len(),
{
    if ds.len() > 0 {
        lemma_number_first(lens, ds.drop_last());
        assert(0 * lens[ds.len() - 1] == 0);
    }
}

/// A product of factors that are not zero is not zero.
pub proof fn lemma_product_positive(lens: Seq<nat>, m: nat)
    requires
        m <= lens.len(),
        forall|d: int| 0 <= d < m ==> #[trigger] lens[d] >= 1,
    ensures
        product_upto(lens, m) >= 1,
    decreases m,
{
    if m > 0 {
        lemma_product_positive(lens, (m - 1) as nat);
        let f = product_upto(lens, (m - 1) as nat);
        let last = lens[m - 1];
        assert(f * last >= 1) by (nonlinear_arith)
            requires
                f >= 1,
                last >= 1,
        ;
    }
}

/// A product of factors that are not zero is no less than the product of
/// fewer of them.
pub proof fn lemma_product_grows(lens: Seq<nat>, m: nat, n: nat)
    requires
        m <= n <= lens.len(),
        forall|d: int| 0 <= d < n ==> #[trigger] lens[d] >= 1,
    ensures
        product_upto(lens, m) <= product_upto(lens, n),
    decreases n - m,
{
    if m < n {
        lemma_product_grows(lens, m, (n - 1) as nat);
        let f = product_upto(lens, (n - 1) as nat);
        let last = lens[n - 1];
        assert(f <= f * last) by (nonlinear_arith)
            requires
                f >= 0,
                last >= 1,
        ;
    }
}

/// With radices that are not zero, a row of digits that are not negative
/// writes no less than any of its beginnings.
pub proof fn lemma_number_prefix(lens: Seq<nat>, ds: Seq<int>, len: nat)
    requires
        len <= ds.len() <= lens.len(),
        forall|d: int| 0 <= d < ds.len() ==> 0 <= #[trigger] ds[d],
        forall|d: int| 0 <= d < ds.len() ==> #[trigger] lens[d] >= 1,
    ensures
        0 <= number(lens, ds.take(len as int)) <= number(lens, ds),
    decreases ds.len(),
{
    if len == ds.len() {
        assert(ds.take(len as int) =~= ds);
        if len > 0 {
            lemma_number_prefix(lens, ds.drop_last(), (len - 1) as nat);
            assert(ds.drop_last().take(len - 1) =~= ds.drop_last());
            let r = number(lens, ds.drop_last());
            let radix = lens[ds.len() - 1] as int;
            assert(0 <= r * radix) by (nonlinear_arith)
                requires
                    0 <= r,
                    radix >= 1,
            ;
        }
    } else {
        lemma_number_prefix(lens, ds.drop_last(), len);
        assert(ds.drop_last().take(len as int) =~= ds.take(len as int));
        let r = number(lens, ds.drop_last());
        let radix = lens[ds.len() - 1] as int;
        assert(r <= r * radix) by (nonlinear_arith)
            requires
                0 <= r,
                radix >= 1,
        ;
    }
}

/// The digits that are each what `pos` leaves of its wheel: how many values
/// each wheel has still to show.
pub open spec fn unshown(lens: Seq<nat>, pos: Seq<int>) -> Seq<int> {
    Seq::new(pos.len(), |d: int| lens[d] - pos[d])
}

/// The values still to show, as naturals.
pub open spec fn unshown_counts(lens: Seq<nat>, pos: Seq<int>) -> Seq<nat> {
    Seq::new(pos.len(), |d: int| (lens[d] - pos[d]) as nat)
}

/// The number of the tuple shown and the number that the values still to show
/// write add up to the number of the last tuple: the latter is how many
/// tuples are still to come.
pub proof fn lemma_number_unshown(lens: Seq<nat>, pos: Seq<int>, m: nat)
    requires
        m <= pos.len() == lens.len(),
    ensures
        number(lens, shown(pos).take(m as int)) + number(lens, unshown(lens, pos).take(m as int))
            == product_upto(lens, m) - 1,
    decreases m,
{
    let a = shown(pos).take(m as int);
    let b = unshown(lens, pos).take(m as int);
    if m > 0 {
        lemma_number_unshown(lens, pos, (m - 1) as nat);
        assert(a.drop_last() =~= shown(pos).take(m - 1));
        assert(b.drop_last() =~= unshown(lens, pos).take(m - 1));
        let x = number(lens, a.drop_last());
        let y = number(lens, b.drop_last());
        let f = product_upto(lens, (m - 1) as nat) as int;
        let radix = lens[m - 1] as int;
        let d = a.last();
        assert(b.last() == radix - 1 - d);
        assert(x * radix + d + (y * radix + (radix - 1 - d)) == f * radix - 1) by (nonlinear_arith)
            requires
                x + y == f - 1,
        ;
    }
}

/// A product with a factor zero is zero.
pub proof fn lemma_product_zero(lens: Seq<nat>, m: nat, at: int)
    requires
        0 <= at < m <= lens.len(),
        lens[at] == 0,
    ensures
        product_upto(lens, m) == 0,
    decreases m,
{
    if at == m - 1 {
        assert(product_upto(lens, (m - 1) as nat) * 0 == 0);
    } else {
        lemma_product_zero(lens, (m - 1) as nat, at);
        assert(0 * lens[m - 1] == 0);
    }
}

/// The odometer counts: a step from wheels that show the tuple number `j`
/// shows the tuple number `j + 1`, the last wheel turning fastest, and there
/// is no step from the last tuple, whose number is the product of the lengths
/// less one.
pub proof fn lemma_step_counts(lens: Seq<nat>, pos: Seq<int>)
    requires
        showing(lens, pos),
    ensures
        0 <= number(lens, shown(pos)) < product(lens),
        pivot(lens, pos, pos.len()) >= 0 ==> showing(
            lens,
            turned(pos, pivot(lens, pos, pos.len()), pos.len()),
        ) && number(lens, shown(turned(pos, pivot(lens, pos, pos.len()), pos.len()))) == number(
            lens,
            shown(pos),
        ) + 1,
        pivot(lens, pos, pos.len()) < 0 ==> number(lens, shown(pos)) == product(lens) - 1,
{
    let at = pivot(lens, pos, pos.len());
    lemma_pivot(lens, pos, pos.len());
    assert(digits_fit(lens, shown(pos)));
    lemma_number_bounds(lens, shown(pos));
    if at >= 0 {
        let next = turned(pos, at, pos.len());
        assert(showing(lens, next)) by {
            assert forall|d: int| 0 <= d < next.len() implies 1 <= #[trigger] next[d] <= lens[d] by {
                assert(1 <= pos[d] <= lens[d]);
            }
        }
        assert forall|d: int| at < d < pos.len() implies shown(pos)[d] == lens[d] - 1 && shown(
            next,
        )[d] == 0 by {
            assert(1 <= pos[d] <= lens[d]);
        }
        lemma_number_carry(lens, shown(pos), shown(next), at);
    } else {
        assert forall|d: int| 0 <= d < pos.len() implies #[trigger] shown(pos)[d] == lens[d] - 1 by {
            assert(1 <= pos[d] <= lens[d]);
        }
        lemma_number_last(lens, shown(pos));
    }
}

} // verus!
