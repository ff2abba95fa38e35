//! The order in which ordered selections are enumerated, as mathematics.
//!
//! An ordered selection of `k` out of the indices `0..n` is written as a row of
//! `k` digits: digit `i` says which of the `n - i` indices still unused, counted
//! in increasing order, stands at place `i`. Read as a number with the radices
//! `n, n - 1, ..`, the row is the selection's position in lexicographic order.

use vstd::prelude::*;
use vstd::arithmetic::div_mod::lemma_fundamental_div_mod_converse;

verus! {

/// The indices `0, 1, .., n - 1` in increasing order.
pub open spec fn iota(n: nat) -> Seq<int> {
    Seq::new(n, |i: int| i)
}

/// The falling factorial `n * (n - 1) * .. * (n - k + 1)`: the number of ordered
/// selections of `k` out of `n`. It is 1 for `k == 0` and 0 for `k > n`.
pub open spec fn falling(n: nat, k: nat) -> nat
    decreases k,
{
    if k == 0 {
        1
    } else if n == 0 {
        0
    } else {
        n * falling((n - 1) as nat, (k - 1) as nat)
    }
}

/// `ds` is a row of digits for selecting out of `n`: digit `i` is below `n - i`.
pub open spec fn digits_ok(n: nat, ds: Seq<int>) -> bool {
    &&& ds.len() <= n
    &&& forall|i: int| 0 <= i < ds.len() ==> 0 <= #[trigger] ds[i] < n - i
}

/// The number that the row `ds` writes, digit `i` having radix `n - i` and the
/// first digit counting most.
pub open spec fn rank(n: nat, ds: Seq<int>) -> int
    decreases ds.len(),
{
    if ds.len() == 0 {
        0
    } else {
        rank(n, ds.drop_last()) * (n - ds.len() + 1) + ds.last()
    }
}

/// The row of `k` digits that writes `j`.
pub open spec fn digits_of(n: nat, k: nat, j: nat) -> Seq<int>
    decreases k,
{
    if k == 0 {
        Seq::empty()
    } else {
        let radix = n - k + 1;
        digits_of(n, (k - 1) as nat, (j as int / radix) as nat).push(j as int % radix)
    }
}

/// The row of `len` digits that are all zero.
pub open spec fn zeros(len: nat) -> Seq<int> {
    Seq::new(len, |i: int| 0int)
}

/// The row of digits at places `from..from + len` that are each the largest
/// its place allows.
pub open spec fn nines(n: nat, from: nat, len: nat) -> Seq<int> {
    Seq::new(len, |i: int| n - 1 - from - i)
}

/// The falling factorial grows by its last factor.
pub proof fn lemma_falling_last(n: nat, m: nat)
    requires
        1 <= m <= n,
    ensures
        falling(n, m) == falling(n, (m - 1) as nat) * (n - m + 1),
    decreases m,
{
    if m == 1 {
        assert(falling((n - 1) as nat, 0) == 1);
        assert(falling(n, 1) == n * 1);
        assert(falling(n, 0) == 1);
    } else {
        lemma_falling_last((n - 1) as nat, (m - 1) as nat);
        let a = falling((n - 1) as nat, (m - 2) as nat);
        assert(falling((n - 1) as nat, (m - 1) as nat) == a * (n - m + 1));
        assert(falling(n, m) == n * falling((n - 1) as nat, (m - 1) as nat));
        assert(falling(n, (m - 1) as nat) == n * a);
        assert(n * (a * (n - m + 1)) == (n * a) * (n - m + 1)) by (nonlinear_arith);
    }
}

/// There is at least one selection of no more items than there are.
pub proof fn lemma_falling_positive(n: nat, k: nat)
    requires
        k <= n,
    ensures
        falling(n, k) >= 1,
    decreases k,
{
    if k > 0 {
        lemma_falling_positive((n - 1) as nat, (k - 1) as nat);
        let a = falling((n - 1) as nat, (k - 1) as nat);
        assert(n * a >= 1) by (nonlinear_arith)
            requires
                n >= 1,
                a >= 1,
        ;
    }
}

/// The orderings of 21 items are more than 64 bits count.
pub proof fn lemma_falling_overflows()
    ensures
        falling(21, 21) == 51090942171709440000,
        falling(21, 21) > u64::MAX,
        falling(21, 21) > usize::MAX,
{
    assert(falling(0, 0) == 1);
    assert(falling(1, 1) == 1) by {
        assert(falling(1, 1) == 1 * falling(0, 0));
    }
    assert(falling(2, 2) == 2) by {
        assert(falling(2, 2) == 2 * falling(1, 1));
    }
    assert(falling(3, 3) == 6) by {
        assert(falling(3, 3) == 3 * falling(2, 2));
    }
    assert(falling(4, 4) == 24) by {
        assert(falling(4, 4) == 4 * falling(3, 3));
    }
    assert(falling(5, 5) == 120) by {
        assert(falling(5, 5) == 5 * falling(4, 4));
    }
    assert(falling(6, 6) == 720) by {
        assert(falling(6, 6) == 6 * falling(5, 5));
    }
    assert(falling(7, 7) == 5040) by {
        assert(falling(7, 7) == 7 * falling(6, 6));
    }
    assert(falling(8, 8) == 40320) by {
        assert(falling(8, 8) == 8 * falling(7, 7));
    }
    assert(falling(9, 9) == 362880) by {
        assert(falling(9, 9) == 9 * falling(8, 8));
    }
    assert(falling(10, 10) == 3628800) by {
        assert(falling(10, 10) == 10 * falling(9, 9));
    }
    assert(falling(11, 11) == 39916800) by {
        assert(falling(11, 11) == 11 * falling(10, 10));
    }
    assert(falling(12, 12) == 479001600) by {
        assert(falling(12, 12) == 12 * falling(11, 11));
    }
    assert(falling(13, 13) == 6227020800) by {
        assert(falling(13, 13) == 13 * falling(12, 12));
    }
    assert(falling(14, 14) == 87178291200) by {
        assert(falling(14, 14) == 14 * falling(13, 13));
    }
    assert(falling(15, 15) == 1307674368000) by {
        assert(falling(15, 15) == 15 * falling(14, 14));
    }
    assert(falling(16, 16) == 20922789888000) by {
        assert(falling(16, 16) == 16 * falling(15, 15));
    }
    assert(falling(17, 17) == 355687428096000) by {
        assert(falling(17, 17) == 17 * falling(16, 16));
    }
    assert(falling(18, 18) == 6402373705728000) by {
        assert(falling(18, 18) == 18 * falling(17, 17));
    }
    assert(falling(19, 19) == 121645100408832000) by {
        assert(falling(19, 19) == 19 * falling(18, 18));
    }
    assert(falling(20, 20) == 2432902008176640000) by {
        assert(falling(20, 20) == 20 * falling(19, 19));
    }
    assert(falling(21, 21) == 51090942171709440000) by {
        assert(falling(21, 21) == 21 * falling(20, 20));
    }
}

/// There is no selection of more items than there are.
pub proof fn lemma_falling_zero(n: nat, k: nat)
    requires
        k > n,
    ensures
        falling(n, k) == 0,
    decreases k,
{
    if n > 0 {
        lemma_falling_zero((n - 1) as nat, (k - 1) as nat);
        assert(n * 0 == 0);
    }
}

/// With one more to select from and one more selected there are no fewer
/// selections.
pub proof fn lemma_falling_grows(base: nat, m: nat, k: nat)
    requires
        m <= k,
    ensures
        falling(base + m, m) <= falling(base + k, k),
    decreases k - m,
{
    if m < k {
        lemma_falling_grows(base, m + 1, k);
        let f = falling(base + m, m);
        assert(falling(base + m + 1, m + 1) == (base + m + 1) * f);
        assert(f <= (base + m + 1) * f) by (nonlinear_arith)
            requires
                f >= 0,
                base + m + 1 >= 1,
        ;
    }
}

/// A row of digits that are not negative writes no less than any of its
/// beginnings.
pub proof fn lemma_rank_prefix(n: nat, ds: Seq<int>, len: nat)
    requires
        len <= ds.len() <= n,
        forall|i: int| 0 <= i < ds.len() ==> 0 <= #[trigger] ds[i],
    ensures
        0 <= rank(n, ds.take(len as int)) <= rank(n, ds),
    decreases ds.len(),
{
    if len == ds.len() {
        assert(ds.take(len as int) =~= ds);
        if len > 0 {
            lemma_rank_prefix(n, ds.drop_last(), (len - 1) as nat);
            assert(ds.drop_last().take(len - 1) =~= ds.drop_last());
            let r = rank(n, ds.drop_last());
            let radix = n - ds.len() + 1;
            assert(0 <= r * radix) by (nonlinear_arith)
                requires
                    0 <= r,
                    radix >= 1,
            ;
        }
    } else {
        lemma_rank_prefix(n, ds.drop_last(), len);
        assert(ds.drop_last().take(len as int) =~= ds.take(len as int));
        let r = rank(n, ds.drop_last());
        let radix = n - ds.len() + 1;
        assert(r <= r * radix) by (nonlinear_arith)
            requires
                0 <= r,
                radix >= 1,
        ;
    }
}

/// A row of valid digits writes a number below the count of selections.
pub proof fn lemma_rank_bounds(n: nat, ds: Seq<int>)
    requires
        digits_ok(n, ds),
    ensures
        0 <= rank(n, ds) < falling(n, ds.len()),
    decreases ds.len(),
{
    if ds.len() > 0 {
        let m = ds.len();
        let front = ds.drop_last();
        assert(digits_ok(n, front));
        lemma_rank_bounds(n, front);
        lemma_falling_last(n, m);
        let r = rank(n, front);
        let f = falling(n, (m - 1) as nat) as int;
        let radix = n - m + 1;
        let d = ds.last();
        assert(0 <= d < radix);
        assert(0 <= r * radix + d < f * radix) by (nonlinear_arith)
            requires
                0 <= r < f,
                0 <= d < radix,
        ;
    }
}

/// Writing a number below the count of selections gives valid digits, and they
/// write that number.
pub proof fn lemma_digits_of_rank(n: nat, k: nat, j: nat)
    requires
        k <= n,
        j < falling(n, k),
    ensures
        digits_of(n, k, j).len() == k,
        digits_ok(n, digits_of(n, k, j)),
        rank(n, digits_of(n, k, j)) == j,
    decreases k,
{
    if k > 0 {
        let radix = n - k + 1;
        let q = (j as int / radix) as nat;
        let f = falling(n, (k - 1) as nat) as int;
        lemma_falling_last(n, k);
        assert(j as int == radix * (j as int / radix) + (j as int % radix) && 0 <= j as int % radix
            < radix && 0 <= j as int / radix) by (nonlinear_arith)
            requires
                radix > 0,
                j >= 0,
        ;
        assert(q < f) by (nonlinear_arith)
            requires
                j < f * radix,
                j as int == radix * q + (j as int % radix),
                0 <= j as int % radix,
                radix > 0,
        ;
        lemma_digits_of_rank(n, (k - 1) as nat, q);
        let front = digits_of(n, (k - 1) as nat, q);
        let ds = digits_of(n, k, j);
        assert(ds == front.push(j as int % radix));
        assert(ds.drop_last() =~= front);
        assert(ds.last() == j as int % radix);
        assert(forall|i: int| 0 <= i < ds.len() ==> 0 <= #[trigger] ds[i] < n - i) by {
            assert forall|i: int| 0 <= i < ds.len() implies 0 <= #[trigger] ds[i] < n - i by {
                if i < k - 1 {
                    assert(ds[i] == front[i]);
                }
            }
        }
        assert(rank(n, ds) == rank(n, front) * radix + ds.last());
        assert(q * radix == radix * q) by (nonlinear_arith);
    }
}

/// The digits that write the number of a row are the row.
pub proof fn lemma_rank_digits_of(n: nat, ds: Seq<int>)
    requires
        digits_ok(n, ds),
    ensures
        digits_of(n, ds.len(), rank(n, ds) as nat) == ds,
    decreases ds.len(),
{
    lemma_rank_bounds(n, ds);
    if ds.len() > 0 {
        let k = ds.len();
        let front = ds.drop_last();
        assert(digits_ok(n, front));
        lemma_rank_bounds(n, front);
        lemma_rank_digits_of(n, front);
        let radix = n - k + 1;
        let r = rank(n, front);
        let d = ds.last();
        lemma_fundamental_div_mod_converse(r * radix + d, radix, r, d);
        assert(digits_of(n, k, rank(n, ds) as nat) == digits_of(n, (k - 1) as nat, r as nat).push(d));
        assert(front.push(d) =~= ds);
    } else {
        assert(ds =~= Seq::<int>::empty());
    }
}

/// The row of zeros writes zero.
pub proof fn lemma_rank_zeros(n: nat, len: nat)
    ensures
        rank(n, zeros(len)) == 0,
    decreases len,
{
    if len > 0 {
        lemma_rank_zeros(n, (len - 1) as nat);
        assert(zeros(len).drop_last() =~= zeros((len - 1) as nat));
        assert(0 * (n - len + 1) == 0);
    }
}

/// The row of largest digits writes the last number.
pub proof fn lemma_rank_nines(n: nat, len: nat)
    requires
        len <= n,
    ensures
        rank(n, nines(n, 0, len)) == falling(n, len) - 1,
    decreases len,
{
    if len > 0 {
        lemma_rank_nines(n, (len - 1) as nat);
        lemma_falling_last(n, len);
        assert(nines(n, 0, len).drop_last() =~= nines(n, 0, (len - 1) as nat));
        let f = falling(n, (len - 1) as nat) as int;
        let radix = n - len + 1;
        assert((f - 1) * radix + (radix - 1) == f * radix - 1) by (nonlinear_arith);
    }
}

/// Counting one up: the last digit that can grow does, and the largest digits
/// behind it fall back to zero.
pub proof fn lemma_rank_carry(n: nat, front: Seq<int>, d: int, len: nat)
    requires
        front.len() + 1 + len <= n,
    ensures
        rank(n, front.push(d + 1) + zeros(len)) == rank(
            n,
            front.push(d) + nines(n, front.len() + 1, len),
        ) + 1,
    decreases len,
{
    let before = front.push(d) + nines(n, front.len() + 1, len);
    let after = front.push(d + 1) + zeros(len);
    if len == 0 {
        assert(before =~= front.push(d));
        assert(after =~= front.push(d + 1));
        assert(front.push(d).drop_last() =~= front);
        assert(front.push(d + 1).drop_last() =~= front);
    } else {
        lemma_rank_carry(n, front, d, (len - 1) as nat);
        assert(before.drop_last() =~= front.push(d) + nines(n, front.len() + 1, (len - 1) as nat));
        assert(after.drop_last() =~= front.push(d + 1) + zeros((len - 1) as nat));
        let radix = n - before.len() + 1;
        let r = rank(n, before.drop_last());
        assert(before.last() == radix - 1);
        assert(after.last() == 0);
        assert((r + 1) * radix + 0 == r * radix + (radix - 1) + 1) by (nonlinear_arith);
    }
}

/// The row whose digits are each what `ds` leaves of the largest digit.
pub open spec fn complement(n: nat, ds: Seq<int>) -> Seq<int> {
    Seq::new(ds.len(), |i: int| n - 1 - i - ds[i])
}

/// A row and its complement write numbers that add up to the last number.
pub proof fn lemma_rank_complement(n: nat, ds: Seq<int>)
    requires
        ds.len() <= n,
    ensures
        rank(n, ds) + rank(n, complement(n, ds)) == falling(n, ds.len()) - 1,
    decreases ds.len(),
{
    if ds.len() > 0 {
        let m = ds.len();
        lemma_rank_complement(n, ds.drop_last());
        lemma_falling_last(n, m);
        assert(complement(n, ds).drop_last() =~= complement(n, ds.drop_last()));
        let a = rank(n, ds.drop_last());
        let b = rank(n, complement(n, ds.drop_last()));
        let f = falling(n, (m - 1) as nat) as int;
        let radix = n - m + 1;
        let d = ds.last();
        assert(complement(n, ds).last() == radix - 1 - d);
        assert(a * radix + d + (b * radix + (radix - 1 - d)) == f * radix - 1) by (nonlinear_arith)
            requires
                a + b == f - 1,
        ;
    }
}

/// The items of `pool` rearranged by the row `ds`: place `i` holds the item that
/// digit `i` picks among those not yet picked, and the items never picked follow
/// in their order in `pool`.
pub open spec fn arrange<A>(pool: Seq<A>, ds: Seq<int>) -> Seq<A>
    decreases ds.len(),
{
    if ds.len() == 0 {
        pool
    } else {
        seq![pool[ds[0]]] + arrange(pool.remove(ds[0]), ds.skip(1))
    }
}

/// The selection at place `j` of the ordered selections of `k` out of the
/// indices `0..n`, in lexicographic order.
pub open spec fn nth_permutation(n: nat, k: nat, j: nat) -> Seq<int> {
    arrange(iota(n), digits_of(n, k, j)).take(k as int)
}

/// The item at `at` taken out and put at the end.
pub open spec fn rotated<A>(s: Seq<A>, at: int) -> Seq<A> {
    s.remove(at).push(s[at])
}

/// The items at `a` and `b` exchanged.
pub open spec fn swapped<A>(s: Seq<A>, a: int, b: int) -> Seq<A> {
    s.update(a, s[b]).update(b, s[a])
}

/// The digits behind the first are valid for a pool of one item less.
pub proof fn lemma_digits_ok_skip(n: nat, ds: Seq<int>)
    requires
        digits_ok(n, ds),
        ds.len() > 0,
    ensures
        digits_ok((n - 1) as nat, ds.skip(1)),
{
    let tail = ds.skip(1);
    assert forall|i: int| 0 <= i < tail.len() implies 0 <= #[trigger] tail[i] < (n - 1) - i by {
        assert(tail[i] == ds[i + 1]);
    }
}

/// Rearranging keeps the number of items.
pub proof fn lemma_arrange_len<A>(pool: Seq<A>, ds: Seq<int>)
    requires
        digits_ok(pool.len(), ds),
    ensures
        arrange(pool, ds).len() == pool.len(),
    decreases ds.len(),
{
    if ds.len() > 0 {
        lemma_digits_ok_skip(pool.len(), ds);
        assert(0 <= ds[0] < pool.len());
        lemma_arrange_len(pool.remove(ds[0]), ds.skip(1));
    }
}

/// A further digit zero changes nothing: it picks the item that follows anyway.
pub proof fn lemma_arrange_push_zero<A>(pool: Seq<A>, ds: Seq<int>)
    requires
        digits_ok(pool.len(), ds),
        ds.len() < pool.len(),
    ensures
        digits_ok(pool.len(), ds.push(0)),
        arrange(pool, ds.push(0)) == arrange(pool, ds),
    decreases ds.len(),
{
    let more = ds.push(0);
    assert forall|i: int| 0 <= i < more.len() implies 0 <= #[trigger] more[i] < pool.len() - i by {
        if i < ds.len() {
            assert(more[i] == ds[i]);
        }
    }
    if ds.len() == 0 {
        assert(more.skip(1) =~= Seq::<int>::empty());
        assert(arrange(pool.remove(0), Seq::<int>::empty()) == pool.remove(0));
        assert(more[0] == 0);
        assert(seq![pool[0]] + pool.remove(0) =~= pool);
    } else {
        lemma_digits_ok_skip(pool.len(), ds);
        assert(0 <= ds[0] < pool.len());
        lemma_arrange_push_zero(pool.remove(ds[0]), ds.skip(1));
        assert(more.skip(1) =~= ds.skip(1).push(0));
        assert(more[0] == ds[0]);
    }
}

/// Any number of further digits zero change nothing.
pub proof fn lemma_arrange_zeros<A>(pool: Seq<A>, ds: Seq<int>, len: nat)
    requires
        digits_ok(pool.len(), ds),
        ds.len() + len <= pool.len(),
    ensures
        digits_ok(pool.len(), ds + zeros(len)),
        arrange(pool, ds + zeros(len)) == arrange(pool, ds),
    decreases len,
{
    if len == 0 {
        assert(ds + zeros(0) =~= ds);
    } else {
        lemma_arrange_zeros(pool, ds, (len - 1) as nat);
        let shorter = ds + zeros((len - 1) as nat);
        lemma_arrange_push_zero(pool, shorter);
        assert(shorter.push(0) =~= ds + zeros(len));
    }
}

/// Where the last digit is the largest its place allows, putting the item at
/// that place to the end undoes the digit.
pub proof fn lemma_arrange_rotate<A>(pool: Seq<A>, ds: Seq<int>)
    requires
        digits_ok(pool.len(), ds),
        ds.len() > 0,
        ds.last() == pool.len() - ds.len(),
    ensures
        rotated(arrange(pool, ds), ds.len() - 1) == arrange(pool, ds.drop_last()),
    decreases ds.len(),
{
    let m = ds.len() - 1;
    let d = ds[0];
    assert(0 <= d < pool.len());
    let rest = pool.remove(d);
    let tail = ds.skip(1);
    lemma_digits_ok_skip(pool.len(), ds);
    lemma_arrange_len(rest, tail);
    if m == 0 {
        assert(tail =~= Seq::<int>::empty());
        assert(ds.drop_last() =~= Seq::<int>::empty());
        assert(rotated(seq![pool[d]] + rest, 0) =~= pool);
    } else {
        lemma_arrange_rotate(rest, tail);
        let inner = arrange(rest, tail);
        assert(ds.drop_last().skip(1) =~= tail.drop_last());
        assert(ds.drop_last()[0] == d);
        assert(rotated(seq![pool[d]] + inner, m) =~= seq![pool[d]] + rotated(inner, m - 1));
    }
}

/// Where the last digit can still grow, exchanging the item at its place with
/// the one the grown digit picks makes the digit one larger.
pub proof fn lemma_arrange_swap<A>(pool: Seq<A>, ds: Seq<int>)
    requires
        digits_ok(pool.len(), ds),
        ds.len() > 0,
        ds.last() + 1 < pool.len() - ds.len() + 1,
    ensures
        digits_ok(pool.len(), ds.update(ds.len() - 1, ds.last() + 1)),
        swapped(arrange(pool, ds), ds.len() - 1, ds.len() + ds.last()) == arrange(
            pool,
            ds.update(ds.len() - 1, ds.last() + 1),
        ),
    decreases ds.len(),
{
    let m = ds.len() - 1;
    let d = ds[0];
    let grown = ds.update(m, ds.last() + 1);
    assert forall|i: int| 0 <= i < grown.len() implies 0 <= #[trigger] grown[i] < pool.len() - i by {
        if i < m {
            assert(grown[i] == ds[i]);
        }
    }
    assert(0 <= d < pool.len());
    let rest = pool.remove(d);
    let tail = ds.skip(1);
    lemma_digits_ok_skip(pool.len(), ds);
    lemma_arrange_len(rest, tail);
    if m == 0 {
        assert(tail =~= Seq::<int>::empty());
        assert(grown.skip(1) =~= Seq::<int>::empty());
        assert(grown[0] == d + 1);
        assert(arrange(rest, Seq::<int>::empty()) == rest);
        assert(arrange(pool.remove(d + 1), Seq::<int>::empty()) == pool.remove(d + 1));
        assert(swapped(seq![pool[d]] + rest, 0, 1 + d) =~= seq![pool[d + 1]] + pool.remove(d + 1));
    } else {
        lemma_arrange_swap(rest, tail);
        let inner = arrange(rest, tail);
        assert(grown.skip(1) =~= tail.update(m - 1, tail.last() + 1));
        assert(grown[0] == d);
        assert(swapped(seq![pool[d]] + inner, m, m + 1 + ds.last()) =~= seq![pool[d]] + swapped(
            inner,
            m - 1,
            m + tail.last(),
        ));
    }
}

/// Rearranging neither adds nor drops an item, and repeats none that was not
/// repeated before.
pub proof fn lemma_arrange_permutes<A>(pool: Seq<A>, ds: Seq<int>)
    requires
        digits_ok(pool.len(), ds),
    ensures
        forall|x: A| arrange(pool, ds).contains(x) <==> pool.contains(x),
        pool.no_duplicates() ==> arrange(pool, ds).no_duplicates(),
    decreases ds.len(),
{
    if ds.len() > 0 {
        let d = ds[0];
        assert(0 <= d < pool.len());
        let rest = pool.remove(d);
        let tail = ds.skip(1);
        lemma_digits_ok_skip(pool.len(), ds);
        lemma_arrange_permutes(rest, tail);
        lemma_arrange_len(rest, tail);
        let inner = arrange(rest, tail);
        let whole = seq![pool[d]] + inner;
        assert forall|x: A| whole.contains(x) <==> pool.contains(x) by {
            if whole.contains(x) {
                let i = choose|i: int| 0 <= i < whole.len() && whole[i] == x;
                if i > 0 {
                    assert(inner[i - 1] == x);
                    assert(inner.contains(x));
                    assert(rest.contains(x));
                    let m = choose|m: int| 0 <= m < rest.len() && rest[m] == x;
                    if m < d {
                        assert(pool[m] == x);
                    } else {
                        assert(pool[m + 1] == x);
                    }
                }
            }
            if pool.contains(x) {
                let m = choose|m: int| 0 <= m < pool.len() && pool[m] == x;
                if m == d {
                    assert(whole[0] == x);
                } else {
                    if m < d {
                        assert(rest[m] == x);
                    } else {
                        assert(rest[m - 1] == x);
                    }
                    assert(rest.contains(x));
                    assert(inner.contains(x));
                    let i = choose|i: int| 0 <= i < inner.len() && inner[i] == x;
                    assert(whole[i + 1] == x);
                }
            }
        }
        if pool.no_duplicates() {
            assert(rest.no_duplicates()) by {
                assert forall|a: int, b: int| 0 <= a < rest.len() && 0 <= b < rest.len() && a
                    != b implies rest[a] != rest[b] by {
                    let pa = if a < d { a } else { a + 1 };
                    let pb = if b < d { b } else { b + 1 };
                    assert(rest[a] == pool[pa] && rest[b] == pool[pb]);
                }
            }
            assert(!rest.contains(pool[d])) by {
                if rest.contains(pool[d]) {
                    let m = choose|m: int| 0 <= m < rest.len() && rest[m] == pool[d];
                    let pm = if m < d { m } else { m + 1 };
                    assert(rest[m] == pool[pm]);
                }
            }
            assert forall|a: int, b: int| 0 <= a < whole.len() && 0 <= b < whole.len() && a
                != b implies whole[a] != whole[b] by {
                if a == 0 {
                    assert(inner.contains(whole[b])) by {
                        assert(inner[b - 1] == whole[b]);
                    }
                } else if b == 0 {
                    assert(inner.contains(whole[a])) by {
                        assert(inner[a - 1] == whole[a]);
                    }
                } else {
                    assert(inner[a - 1] != inner[b - 1]);
                }
            }
        }
    }
}

/// There are at least as many selections as there are candidates for the last
/// place.
pub proof fn lemma_falling_frontier(n: nat, k: nat)
    requires
        1 <= k <= n,
    ensures
        falling(n, k) >= n - k + 1,
{
    lemma_falling_last(n, k);
    lemma_falling_positive(n, (k - 1) as nat);
    let f = falling(n, (k - 1) as nat);
    assert(f * (n - k + 1) >= n - k + 1) by (nonlinear_arith)
        requires
            f >= 1,
            n - k + 1 >= 0,
    ;
}

/// The number `j` below the last radix is written with zeros and the last
/// digit `j`.
pub proof fn lemma_digits_of_frontier(n: nat, k: nat, j: nat)
    requires
        1 <= k <= n,
        j <= n - k,
    ensures
        digits_of(n, k, j) == zeros((k - 1) as nat).push(j as int),
{
    let radix = n - k + 1;
    assert(j as int / radix == 0 && j as int % radix == j) by (nonlinear_arith)
        requires
            0 <= j < radix,
    ;
    lemma_digits_of_zero(n, (k - 1) as nat);
}

/// Zero is written with zeros.
pub proof fn lemma_digits_of_zero(n: nat, k: nat)
    requires
        k <= n,
    ensures
        digits_of(n, k, 0) == zeros(k),
    decreases k,
{
    if k > 0 {
        let radix = n - k + 1;
        assert(0int / radix == 0 && 0int % radix == 0) by (nonlinear_arith)
            requires
                radix > 0,
        ;
        lemma_digits_of_zero(n, (k - 1) as nat);
        assert(zeros((k - 1) as nat).push(0) =~= zeros(k));
    } else {
        assert(zeros(0) =~= Seq::<int>::empty());
    }
}

/// With zeros and a last digit `j`, the first items stay where they are and
/// the item `j` places further on follows them.
pub proof fn lemma_arrange_frontier<A>(pool: Seq<A>, len: nat, j: nat)
    requires
        len + j < pool.len(),
    ensures
        arrange(pool, zeros(len).push(j as int)).take(len as int + 1) == pool.take(len as int).push(
            pool[len as int + j as int],
        ),
    decreases len,
{
    let ds = zeros(len).push(j as int);
    let l = len as int;
    let d = j as int;
    if len == 0 {
        assert(ds.skip(1) =~= Seq::<int>::empty());
        assert(ds[0] == d);
        assert(arrange(pool.remove(d), Seq::<int>::empty()) == pool.remove(d));
        assert((seq![pool[d]] + pool.remove(d)).take(1) =~= pool.take(0).push(pool[d]));
    } else {
        let rest = pool.remove(0);
        lemma_arrange_frontier(rest, (len - 1) as nat, j);
        assert(ds.skip(1) =~= zeros((len - 1) as nat).push(d));
        assert(ds[0] == 0);
        let inner = arrange(rest, ds.skip(1));
        assert(inner.take(l) == rest.take(l - 1).push(rest[l - 1 + d]));
        let whole = (seq![pool[0]] + inner).take(l + 1);
        let wanted = pool.take(l).push(pool[l + d]);
        assert(digits_ok(rest.len(), ds.skip(1))) by {
            assert forall|i: int| 0 <= i < ds.skip(1).len() implies 0 <= #[trigger] ds.skip(1)[i]
                < rest.len() - i by {}
        }
        lemma_arrange_len(rest, ds.skip(1));
        assert forall|i: int| 0 <= i < l + 1 implies whole[i] == wanted[i] by {
            if i > 0 {
                assert(inner.take(l)[i - 1] == inner[i - 1]);
                assert(rest[l - 1 + d] == pool[l + d]);
                if i < l {
                    assert(rest.take(l - 1)[i - 1] == pool[i]);
                }
            }
        }
        assert(whole =~= wanted);
    }
}

/// The row of digits that picks the items of `tuple` out of `pool`, one after
/// the other.
pub open spec fn digits_for<A>(pool: Seq<A>, tuple: Seq<A>) -> Seq<int>
    decreases tuple.len(),
{
    if tuple.len() == 0 {
        Seq::empty()
    } else {
        let d = choose|d: int| 0 <= d < pool.len() && pool[d] == tuple[0];
        seq![d] + digits_for(pool.remove(d), tuple.skip(1))
    }
}

/// The place in lexicographic order of `tuple` among the ordered selections of
/// `tuple.len()` out of the indices `0..n`.
pub open spec fn position_of(n: nat, tuple: Seq<int>) -> nat {
    rank(n, digits_for(iota(n), tuple)) as nat
}

/// `tuple` is an ordered selection out of the indices `0..n`: its entries are
/// indices below `n`, and no two of them are the same.
pub open spec fn is_selection(n: nat, tuple: Seq<int>) -> bool {
    &&& tuple.len() <= n
    &&& tuple.no_duplicates()
    &&& forall|i: int| 0 <= i < tuple.len() ==> 0 <= #[trigger] tuple[i] < n
}

/// Two rows that pick the same items out of a pool without repeats are the
/// same row.
pub proof fn lemma_arrange_injective<A>(pool: Seq<A>, a: Seq<int>, b: Seq<int>)
    requires
        pool.no_duplicates(),
        digits_ok(pool.len(), a),
        digits_ok(pool.len(), b),
        a.len() == b.len(),
        arrange(pool, a).take(a.len() as int) == arrange(pool, b).take(b.len() as int),
    ensures
        a == b,
    decreases a.len(),
{
    if a.len() == 0 {
        assert(a =~= b);
    } else {
        let k = a.len() as int;
        assert(0 <= a[0] < pool.len() && 0 <= b[0] < pool.len());
        let rest_a = pool.remove(a[0]);
        let rest_b = pool.remove(b[0]);
        lemma_digits_ok_skip(pool.len(), a);
        lemma_digits_ok_skip(pool.len(), b);
        lemma_arrange_len(rest_a, a.skip(1));
        lemma_arrange_len(rest_b, b.skip(1));
        let inner_a = arrange(rest_a, a.skip(1));
        let inner_b = arrange(rest_b, b.skip(1));
        let whole_a = (seq![pool[a[0]]] + inner_a).take(k);
        let whole_b = (seq![pool[b[0]]] + inner_b).take(k);
        assert(whole_a[0] == pool[a[0]]);
        assert(whole_b[0] == pool[b[0]]);
        assert(a[0] == b[0]);
        let front_a = inner_a.take(k - 1);
        let front_b = inner_b.take(k - 1);
        assert(front_a =~= front_b) by {
            assert forall|i: int| 0 <= i < k - 1 implies #[trigger] front_a[i] == front_b[i] by {
                assert(whole_a[i + 1] == inner_a[i]);
                assert(whole_b[i + 1] == inner_b[i]);
            }
        }
        assert(rest_a.no_duplicates()) by {
            assert forall|x: int, y: int| 0 <= x < rest_a.len() && 0 <= y < rest_a.len() && x
                != y implies rest_a[x] != rest_a[y] by {
                let px = if x < a[0] { x } else { x + 1 };
                let py = if y < a[0] { y } else { y + 1 };
                assert(rest_a[x] == pool[px] && rest_a[y] == pool[py]);
            }
        }
        lemma_arrange_injective(rest_a, a.skip(1), b.skip(1));
        assert(a =~= b) by {
            assert forall|i: int| 0 <= i < a.len() implies a[i] == b[i] by {
                if i > 0 {
                    assert(a.skip(1)[i - 1] == a[i]);
                    assert(b.skip(1)[i - 1] == b[i]);
                }
            }
        }
    }
}

/// For a tuple of different items of a pool without repeats there is a row of
/// digits that picks it, and `digits_for` is that row.
pub proof fn lemma_digits_for<A>(pool: Seq<A>, tuple: Seq<A>)
    requires
        pool.no_duplicates(),
        tuple.no_duplicates(),
        tuple.len() <= pool.len(),
        forall|i: int| 0 <= i < tuple.len() ==> pool.contains(#[trigger] tuple[i]),
    ensures
        digits_for(pool, tuple).len() == tuple.len(),
        digits_ok(pool.len(), digits_for(pool, tuple)),
        arrange(pool, digits_for(pool, tuple)).take(tuple.len() as int) == tuple,
    decreases tuple.len(),
{
    let ds = digits_for(pool, tuple);
    if tuple.len() == 0 {
        assert(arrange(pool, ds).take(0) =~= tuple);
    } else {
        assert(pool.contains(tuple[0]));
        let d = choose|d: int| 0 <= d < pool.len() && pool[d] == tuple[0];
        let rest = pool.remove(d);
        let tail = tuple.skip(1);
        assert(rest.no_duplicates()) by {
            assert forall|x: int, y: int| 0 <= x < rest.len() && 0 <= y < rest.len() && x
                != y implies rest[x] != rest[y] by {
                let px = if x < d { x } else { x + 1 };
                let py = if y < d { y } else { y + 1 };
                assert(rest[x] == pool[px] && rest[y] == pool[py]);
            }
        }
        assert(tail.no_duplicates());
        assert forall|i: int| 0 <= i < tail.len() implies rest.contains(#[trigger] tail[i]) by {
            assert(tail[i] == tuple[i + 1]);
            assert(pool.contains(tuple[i + 1]));
            let m = choose|m: int| 0 <= m < pool.len() && pool[m] == tuple[i + 1];
            assert(tuple[i + 1] != tuple[0]);
            if m < d {
                assert(rest[m] == tail[i]);
            } else {
                assert(rest[m - 1] == tail[i]);
            }
        }
        lemma_digits_for(rest, tail);
        let inner_ds = digits_for(rest, tail);
        assert(ds == seq![d] + inner_ds);
        assert(ds.skip(1) =~= inner_ds);
        assert(ds[0] == d);
        assert forall|i: int| 0 <= i < ds.len() implies 0 <= #[trigger] ds[i] < pool.len() - i by {
            if i > 0 {
                assert(ds[i] == inner_ds[i - 1]);
            }
        }
        lemma_arrange_len(rest, inner_ds);
        let inner = arrange(rest, inner_ds);
        assert((seq![pool[d]] + inner).take(tuple.len() as int) =~= tuple) by {
            let front = (seq![pool[d]] + inner).take(tuple.len() as int);
            assert forall|i: int| 0 <= i < tuple.len() implies #[trigger] front[i] == tuple[i] by {
                if i > 0 {
                    assert(inner.take(tail.len() as int)[i - 1] == inner[i - 1]);
                    assert(tail[i - 1] == tuple[i]);
                }
            }
        }
    }
}

/// Every place below the count holds an ordered selection of `k` out of the
/// indices `0..n`.
pub proof fn lemma_nth_permutation_is_selection(n: nat, k: nat, j: nat)
    requires
        k <= n,
        j < falling(n, k),
    ensures
        nth_permutation(n, k, j).len() == k,
        is_selection(n, nth_permutation(n, k, j)),
{
    let ds = digits_of(n, k, j);
    lemma_digits_of_rank(n, k, j);
    lemma_arrange_len(iota(n), ds);
    lemma_arrange_permutes(iota(n), ds);
    let whole = arrange(iota(n), ds);
    let tuple = nth_permutation(n, k, j);
    assert(iota(n).no_duplicates());
    assert forall|i: int| 0 <= i < tuple.len() implies 0 <= #[trigger] tuple[i] < n by {
        assert(whole.contains(whole[i]));
        assert(iota(n).contains(whole[i]));
    }
    assert forall|a: int, b: int| 0 <= a < tuple.len() && 0 <= b < tuple.len() && a
        != b implies tuple[a] != tuple[b] by {
        assert(whole[a] != whole[b]);
    }
}

/// Of no items there is one selection, the empty one, whatever there is to
/// select from.
pub proof fn lemma_zero_width(n: nat)
    ensures
        falling(n, 0) == 1,
        nth_permutation(n, 0, 0) == Seq::<int>::empty(),
{
    assert(digits_of(n, 0, 0) =~= Seq::<int>::empty());
    assert(arrange(iota(n), Seq::<int>::empty()) == iota(n));
    assert(iota(n).take(0) =~= Seq::<int>::empty());
}

/// `a` comes before `b` in lexicographic order: where they first differ, `a`
/// has the smaller entry.
pub open spec fn lex_less(a: Seq<int>, b: Seq<int>) -> bool {
    exists|p: int| 0 <= p < a.len() && p < b.len() && a.take(p) == b.take(p) && a[p] < b[p]
}

/// The items of `pool` are in increasing order.
pub open spec fn increasing(pool: Seq<int>) -> bool {
    forall|i: int, j: int| 0 <= i < j < pool.len() ==> pool[i] < pool[j]
}

/// Of two rows of valid digits, the one that writes the smaller number has the
/// smaller digit where they first differ. The place where they do is given
/// back.
pub proof fn lemma_rank_orders(n: nat, a: Seq<int>, b: Seq<int>) -> (p: int)
    requires
        digits_ok(n, a),
        digits_ok(n, b),
        a.len() == b.len(),
        rank(n, a) < rank(n, b),
    ensures
        0 <= p < a.len(),
        a.take(p) == b.take(p),
        a[p] < b[p],
    decreases a.len(),
{
    if a.len() == 0 {
        0
    } else {
        let last = a.len() - 1;
        let front_a = a.drop_last();
        let front_b = b.drop_last();
        assert(digits_ok(n, front_a));
        assert(digits_ok(n, front_b));
        lemma_rank_bounds(n, front_a);
        lemma_rank_bounds(n, front_b);
        let x = rank(n, front_a);
        let y = rank(n, front_b);
        let radix = n - a.len() + 1;
        assert(0 <= a[last] < radix && 0 <= b[last] < radix);
        if x < y {
            let p = lemma_rank_orders(n, front_a, front_b);
            assert(a.take(p) =~= front_a.take(p));
            assert(b.take(p) =~= front_b.take(p));
            p
        } else if x == y {
            lemma_rank_digits_of(n, front_a);
            lemma_rank_digits_of(n, front_b);
            assert(a.take(last) =~= front_a);
            assert(b.take(last) =~= front_b);
            last
        } else {
            assert(x * radix + a[last] >= y * radix + b[last]) by (nonlinear_arith)
                requires
                    x >= y + 1,
                    0 <= a[last],
                    b[last] < radix,
                    radix >= 1,
            ;
            0
        }
    }
}

/// Rows that first differ at `p`, the first with the smaller digit, pick from a
/// pool in increasing order the same items before `p` and at `p` the first the
/// smaller item.
pub proof fn lemma_arrange_orders(pool: Seq<int>, a: Seq<int>, b: Seq<int>, p: int)
    requires
        increasing(pool),
        digits_ok(pool.len(), a),
        digits_ok(pool.len(), b),
        a.len() == b.len(),
        0 <= p < a.len(),
        a.take(p) == b.take(p),
        a[p] < b[p],
    ensures
        arrange(pool, a).take(p) == arrange(pool, b).take(p),
        arrange(pool, a)[p] < arrange(pool, b)[p],
    decreases p,
{
    assert(0 <= a[0] < pool.len() && 0 <= b[0] < pool.len());
    lemma_digits_ok_skip(pool.len(), a);
    lemma_digits_ok_skip(pool.len(), b);
    if p == 0 {
        assert(arrange(pool, a).take(0) =~= arrange(pool, b).take(0));
    } else {
        assert(a[0] == a.take(p)[0] && b[0] == b.take(p)[0]);
        let rest = pool.remove(a[0]);
        assert(increasing(rest)) by {
            assert forall|i: int, j: int| 0 <= i < j < rest.len() implies rest[i] < rest[j] by {
                let pi = if i < a[0] { i } else { i + 1 };
                let pj = if j < a[0] { j } else { j + 1 };
                assert(rest[i] == pool[pi] && rest[j] == pool[pj]);
            }
        }
        assert(a.skip(1).take(p - 1) =~= a.take(p).skip(1));
        assert(b.skip(1).take(p - 1) =~= b.take(p).skip(1));
        lemma_arrange_orders(rest, a.skip(1), b.skip(1), p - 1);
        lemma_arrange_len(rest, a.skip(1));
        lemma_arrange_len(rest, b.skip(1));
        let inner_a = arrange(rest, a.skip(1));
        let inner_b = arrange(rest, b.skip(1));
        assert((seq![pool[a[0]]] + inner_a).take(p) =~= seq![pool[a[0]]] + inner_a.take(p - 1));
        assert((seq![pool[b[0]]] + inner_b).take(p) =~= seq![pool[b[0]]] + inner_b.take(p - 1));
    }
}

/// The selections stand in lexicographic order: one at an earlier place comes
/// before one at a later place.
pub proof fn lemma_nth_permutation_ordered(n: nat, k: nat, i: nat, j: nat)
    requires
        k <= n,
        i < j < falling(n, k),
    ensures
        lex_less(nth_permutation(n, k, i), nth_permutation(n, k, j)),
{
    let a = digits_of(n, k, i);
    let b = digits_of(n, k, j);
    lemma_digits_of_rank(n, k, i);
    lemma_digits_of_rank(n, k, j);
    let p = lemma_rank_orders(n, a, b);
    assert(increasing(iota(n)));
    lemma_arrange_orders(iota(n), a, b, p);
    lemma_arrange_len(iota(n), a);
    lemma_arrange_len(iota(n), b);
    let x = nth_permutation(n, k, i);
    let y = nth_permutation(n, k, j);
    assert(x.take(p) =~= arrange(iota(n), a).take(p));
    assert(y.take(p) =~= arrange(iota(n), b).take(p));
    assert(x[p] < y[p]);
}

/// No selection stands at two places.
pub proof fn lemma_nth_permutation_injective(n: nat, k: nat, i: nat, j: nat)
    requires
        k <= n,
        i < falling(n, k),
        j < falling(n, k),
        nth_permutation(n, k, i) == nth_permutation(n, k, j),
    ensures
        i == j,
{
    lemma_digits_of_rank(n, k, i);
    lemma_digits_of_rank(n, k, j);
    assert(iota(n).no_duplicates());
    lemma_arrange_injective(iota(n), digits_of(n, k, i), digits_of(n, k, j));
}

/// Every ordered selection of `k` out of the indices `0..n` stands at a place
/// below the count: at `position_of`.
pub proof fn lemma_nth_permutation_surjective(n: nat, tuple: Seq<int>)
    requires
        is_selection(n, tuple),
    ensures
        position_of(n, tuple) < falling(n, tuple.len()),
        nth_permutation(n, tuple.len(), position_of(n, tuple)) == tuple,
{
    assert(iota(n).no_duplicates());
    assert forall|i: int| 0 <= i < tuple.len() implies iota(n).contains(#[trigger] tuple[i]) by {
        assert(iota(n)[tuple[i]] == tuple[i]);
    }
    lemma_digits_for(iota(n), tuple);
    let ds = digits_for(iota(n), tuple);
    lemma_rank_bounds(n, ds);
    lemma_rank_digits_of(n, ds);
}

} // verus!
