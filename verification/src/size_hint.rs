//! Arithmetic on bounds of a count: a lower bound, and an upper bound where one
//! is known.

use vstd::prelude::*;

verus! {

/// A lower bound and, where one is known, an upper bound.
pub type SizeHint = (usize, Option<usize>);

/// `x`, or the largest `usize` where `x` is larger.
pub open spec fn capped(x: int) -> usize {
    if x <= usize::MAX {
        x as usize
    } else {
        usize::MAX
    }
}

/// `x`, or nothing where `x` is too large for a `usize`.
pub open spec fn fitting(x: int) -> Option<usize> {
    if x <= usize::MAX {
        Some(x as usize)
    } else {
        None
    }
}

/// The bounds of a sum: the lower bounds add up, capped; the upper bounds add
/// up where both are known and the sum fits.
pub open spec fn sum_of(a: SizeHint, b: SizeHint) -> SizeHint {
    (
        capped(a.0 + b.0),
        match (a.1, b.1) {
            (Some(x), Some(y)) => fitting(x + y),
            _ => None,
        },
    )
}

/// The bounds of a product: the lower bounds multiply, capped; the upper
/// bounds multiply where both are known and the product fits, and an upper
/// bound of zero makes the product zero whatever the other is.
pub open spec fn product_of(a: SizeHint, b: SizeHint) -> SizeHint {
    (
        capped(a.0 * b.0),
        match (a.1, b.1) {
            (Some(x), Some(y)) => fitting(x * y),
            (Some(x), None) => if x == 0 {
                Some(0usize)
            } else {
                None
            },
            (None, Some(y)) => if y == 0 {
                Some(0usize)
            } else {
                None
            },
            (None, None) => None,
        },
    )
}

/// The exact bounds of a count: the count itself as far as a `usize` holds it.
pub open spec fn exactly(x: int) -> SizeHint {
    (capped(x), fitting(x))
}

/// The product of exact bounds is exact.
pub proof fn lemma_product_of_exact(x: int, y: int)
    requires
        0 <= x,
        0 <= y <= usize::MAX,
    ensures
        product_of(exactly(x), exactly(y)) == exactly(x * y),
{
    if x <= usize::MAX {
        assert(0 <= x * y) by (nonlinear_arith)
            requires
                0 <= x,
                0 <= y,
        ;
    } else if y == 0 {
        assert(x * 0 == 0);
        assert(usize::MAX * 0 == 0);
    } else {
        assert(x * y > usize::MAX && usize::MAX * y >= usize::MAX) by (nonlinear_arith)
            requires
                x > usize::MAX,
                y >= 1,
        ;
    }
}

/// The sum of exact bounds is exact.
pub proof fn lemma_sum_of_exact(x: int, y: int)
    requires
        0 <= x,
        0 <= y <= usize::MAX,
    ensures
        sum_of(exactly(x), exactly(y)) == exactly(x + y),
{
}

/// Adds two size hints.
pub fn add(a: SizeHint, b: SizeHint) -> (r: SizeHint)
    ensures
        r == sum_of(a, b),
{
    let low = a.0.saturating_add(b.0);
    let high = match (a.1, b.1) {
        (Some(x), Some(y)) => x.checked_add(y),
        _ => None,
    };
    (low, high)
}

/// Multiplies two size hints.
pub fn mul(a: SizeHint, b: SizeHint) -> (r: SizeHint)
    ensures
        r == product_of(a, b),
{
    let low = match a.0.checked_mul(b.0) {
        Some(x) => x,
        None => usize::MAX,
    };
    let high = match (a.1, b.1) {
        (Some(x), Some(y)) => x.checked_mul(y),
        (Some(0), None) => Some(0),
        (None, Some(0)) => Some(0),
        _ => None,
    };
    (low, high)
}

} // verus!
