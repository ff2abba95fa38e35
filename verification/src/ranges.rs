//! Integer ranges as buffers: a range is indexed without ever being walked.

use vstd::prelude::*;
use vstd::std_specs::cmp::{PartialOrdIs, PartialOrdSpec};
use core::ops::{Range, RangeFrom, RangeInclusive};
use crate::buffer::{Buffer, IntoBuffer};
use crate::size_hint::capped;

verus! {

/// `core::ops::RangeFrom`, the range `start..`: a struct with the one public
/// field `start`. Nothing is claimed of it but that it is there.
#[verifier::external_type_specification]
#[verifier::reject_recursive_types(Idx)]
pub struct ExRangeFrom<Idx>(RangeFrom<Idx>);

/// An integer type whose ranges can be indexed.
pub trait RangeItem: Copy {
    /// The integer that the value is.
    spec fn value(self) -> int;

    /// The value that is the integer `v`.
    spec fn of(v: int) -> Self;

    /// The largest integer of the type.
    spec fn top() -> int;

    /// Going to the integer and back gives the value again, and no value is
    /// above the largest.
    proof fn lemma_value(self)
        ensures
            Self::of(self.value()) == self,
            self.value() <= Self::top(),
    ;

    /// This value is no larger than `other`.
    fn at_most(self, other: Self) -> (r: bool)
        ensures
            r == (self.value() <= other.value()),
    ;

    /// The range has no value: it has been walked to its end, or its bounds
    /// are the wrong way round.
    fn vacant(r: &RangeInclusive<Self>) -> (b: bool)
        ensures
            b == (r@.exhausted || r@.start.value() > r@.end.value()),
    ;

    /// The value `index` steps above this one, if that is below `end`.
    fn step_below(self, index: usize, end: Self) -> (r: Option<Self>)
        ensures
            r is Some <==> self.value() + index < end.value(),
            r is Some ==> r->0.value() == self.value() + index,
    ;

    /// The value `index` steps above this one, if the type has it.
    fn step_within(self, index: usize) -> (r: Option<Self>)
        ensures
            r is Some <==> self.value() + index <= Self::top(),
            r is Some ==> r->0.value() == self.value() + index,
    ;

    /// How many values there are from this one to below `end`, capped at the
    /// largest `usize`.
    fn span_below(self, end: Self) -> (n: usize)
        ensures
            n == span(self.value(), end.value()),
    ;

    /// How many values there are from this one to the largest of the type,
    /// capped at the largest `usize`.
    fn span_within(self) -> (n: usize)
        ensures
            n == span(self.value(), Self::top() + 1),
    ;
}

/// How many integers there are from `start` to below `end`, capped at the
/// largest `usize`.
pub open spec fn span(start: int, end: int) -> usize {
    if end <= start {
        0
    } else {
        capped(end - start)
    }
}

/// The values from `start` to below `end`, at most as many as a `usize`
/// counts: a buffer holds no more.
pub open spec fn run<T: RangeItem>(start: int, end: int) -> Seq<T> {
    Seq::new(span(start, end) as nat, |i: int| T::of(start + i))
}

impl RangeItem for u8 {
    open spec fn value(self) -> int {
        self as int
    }

    open spec fn of(v: int) -> Self {
        v as u8
    }

    open spec fn top() -> int {
        u8::MAX as int
    }

    proof fn lemma_value(self) {
    }

    fn at_most(self, other: Self) -> (r: bool) {
        self <= other
    }

    fn vacant(r: &RangeInclusive<Self>) -> (b: bool) {
        inclusive_is_empty(r)
    }

    fn step_below(self, index: usize, end: Self) -> (r: Option<Self>) {
        if self < end && (index as u128) < ((end - self) as u128) {
            Some(self + index as u8)
        } else {
            None
        }
    }

    fn step_within(self, index: usize) -> (r: Option<Self>) {
        if (index as u128) <= ((u8::MAX - self) as u128) {
            Some(self + index as u8)
        } else {
            None
        }
    }

    fn span_below(self, end: Self) -> (n: usize) {
        if self < end {
            let gap = (end - self) as u128;
            if gap < usize::MAX as u128 {
                gap as usize
            } else {
                usize::MAX
            }
        } else {
            0
        }
    }

    fn span_within(self) -> (n: usize) {
        let gap = (u8::MAX - self) as u128;
        if gap < usize::MAX as u128 {
            gap as usize + 1
        } else {
            usize::MAX
        }
    }
}

impl RangeItem for u16 {
    open spec fn value(self) -> int {
        self as int
    }

    open spec fn of(v: int) -> Self {
        v as u16
    }

    open spec fn top() -> int {
        u16::MAX as int
    }

    proof fn lemma_value(self) {
    }

    fn at_most(self, other: Self) -> (r: bool) {
        self <= other
    }

    fn vacant(r: &RangeInclusive<Self>) -> (b: bool) {
        inclusive_is_empty(r)
    }

    fn step_below(self, index: usize, end: Self) -> (r: Option<Self>) {
        if self < end && (index as u128) < ((end - self) as u128) {
            Some(self + index as u16)
        } else {
            None
        }
    }

    fn step_within(self, index: usize) -> (r: Option<Self>) {
        if (index as u128) <= ((u16::MAX - self) as u128) {
            Some(self + index as u16)
        } else {
            None
        }
    }

    fn span_below(self, end: Self) -> (n: usize) {
        if self < end {
            let gap = (end - self) as u128;
            if gap < usize::MAX as u128 {
                gap as usize
            } else {
                usize::MAX
            }
        } else {
            0
        }
    }

    fn span_within(self) -> (n: usize) {
        let gap = (u16::MAX - self) as u128;
        if gap < usize::MAX as u128 {
            gap as usize + 1
        } else {
            usize::MAX
        }
    }
}

impl RangeItem for u32 {
    open spec fn value(self) -> int {
        self as int
    }

    open spec fn of(v: int) -> Self {
        v as u32
    }

    open spec fn top() -> int {
        u32::MAX as int
    }

    proof fn lemma_value(self) {
    }

    fn at_most(self, other: Self) -> (r: bool) {
        self <= other
    }

    fn vacant(r: &RangeInclusive<Self>) -> (b: bool) {
        inclusive_is_empty(r)
    }

    fn step_below(self, index: usize, end: Self) -> (r: Option<Self>) {
        if self < end && (index as u128) < ((end - self) as u128) {
            Some(self + index as u32)
        } else {
            None
        }
    }

    fn step_within(self, index: usize) -> (r: Option<Self>) {
        if (index as u128) <= ((u32::MAX - self) as u128) {
            Some(self + index as u32)
        } else {
            None
        }
    }

    fn span_below(self, end: Self) -> (n: usize) {
        if self < end {
            let gap = (end - self) as u128;
            if gap < usize::MAX as u128 {
                gap as usize
            } else {
                usize::MAX
            }
        } else {
            0
        }
    }

    fn span_within(self) -> (n: usize) {
        let gap = (u32::MAX - self) as u128;
        if gap < usize::MAX as u128 {
            gap as usize + 1
        } else {
            usize::MAX
        }
    }
}

impl RangeItem for u64 {
    open spec fn value(self) -> int {
        self as int
    }

    open spec fn of(v: int) -> Self {
        v as u64
    }

    open spec fn top() -> int {
        u64::MAX as int
    }

    proof fn lemma_value(self) {
    }

    fn at_most(self, other: Self) -> (r: bool) {
        self <= other
    }

    fn vacant(r: &RangeInclusive<Self>) -> (b: bool) {
        inclusive_is_empty(r)
    }

    fn step_below(self, index: usize, end: Self) -> (r: Option<Self>) {
        if self < end && (index as u128) < ((end - self) as u128) {
            Some(self + index as u64)
        } else {
            None
        }
    }

    fn step_within(self, index: usize) -> (r: Option<Self>) {
        if (index as u128) <= ((u64::MAX - self) as u128) {
            Some(self + index as u64)
        } else {
            None
        }
    }

    fn span_below(self, end: Self) -> (n: usize) {
        if self < end {
            let gap = (end - self) as u128;
            if gap < usize::MAX as u128 {
                gap as usize
            } else {
                usize::MAX
            }
        } else {
            0
        }
    }

    fn span_within(self) -> (n: usize) {
        let gap = (u64::MAX - self) as u128;
        if gap < usize::MAX as u128 {
            gap as usize + 1
        } else {
            usize::MAX
        }
    }
}

impl RangeItem for usize {
    open spec fn value(self) -> int {
        self as int
    }

    open spec fn of(v: int) -> Self {
        v as usize
    }

    open spec fn top() -> int {
        usize::MAX as int
    }

    proof fn lemma_value(self) {
    }

    fn at_most(self, other: Self) -> (r: bool) {
        self <= other
    }

    fn vacant(r: &RangeInclusive<Self>) -> (b: bool) {
        inclusive_is_empty(r)
    }

    fn step_below(self, index: usize, end: Self) -> (r: Option<Self>) {
        if self < end && (index as u128) < ((end - self) as u128) {
            Some(self + index as usize)
        } else {
            None
        }
    }

    fn step_within(self, index: usize) -> (r: Option<Self>) {
        if (index as u128) <= ((usize::MAX - self) as u128) {
            Some(self + index as usize)
        } else {
            None
        }
    }

    fn span_below(self, end: Self) -> (n: usize) {
        if self < end {
            let gap = (end - self) as u128;
            if gap < usize::MAX as u128 {
                gap as usize
            } else {
                usize::MAX
            }
        } else {
            0
        }
    }

    fn span_within(self) -> (n: usize) {
        let gap = (usize::MAX - self) as u128;
        if gap < usize::MAX as u128 {
            gap as usize + 1
        } else {
            usize::MAX
        }
    }
}

impl RangeItem for u128 {
    open spec fn value(self) -> int {
        self as int
    }

    open spec fn of(v: int) -> Self {
        v as u128
    }

    open spec fn top() -> int {
        u128::MAX as int
    }

    proof fn lemma_value(self) {
    }

    fn at_most(self, other: Self) -> (r: bool) {
        self <= other
    }

    fn vacant(r: &RangeInclusive<Self>) -> (b: bool) {
        inclusive_is_empty(r)
    }

    fn step_below(self, index: usize, end: Self) -> (r: Option<Self>) {
        if self < end && (index as u128) < end - self {
            Some(self + index as u128)
        } else {
            None
        }
    }

    fn step_within(self, index: usize) -> (r: Option<Self>) {
        if (index as u128) <= u128::MAX - self {
            Some(self + index as u128)
        } else {
            None
        }
    }

    fn span_below(self, end: Self) -> (n: usize) {
        if self < end {
            let gap = end - self;
            if gap < usize::MAX as u128 {
                gap as usize
            } else {
                usize::MAX
            }
        } else {
            0
        }
    }

    fn span_within(self) -> (n: usize) {
        let gap = u128::MAX - self;
        if gap < usize::MAX as u128 {
            gap as usize + 1
        } else {
            usize::MAX
        }
    }
}

impl RangeItem for i8 {
    open spec fn value(self) -> int {
        self as int
    }

    open spec fn of(v: int) -> Self {
        v as i8
    }

    open spec fn top() -> int {
        i8::MAX as int
    }

    proof fn lemma_value(self) {
    }

    fn at_most(self, other: Self) -> (r: bool) {
        self <= other
    }

    fn vacant(r: &RangeInclusive<Self>) -> (b: bool) {
        inclusive_is_empty(r)
    }

    fn step_below(self, index: usize, end: Self) -> (r: Option<Self>) {
        if self < end && (index as i128) < (end as i128) - (self as i128) {
            Some(((self as i128) + (index as i128)) as i8)
        } else {
            None
        }
    }

    fn step_within(self, index: usize) -> (r: Option<Self>) {
        if (index as i128) <= (i8::MAX as i128) - (self as i128) {
            Some(((self as i128) + (index as i128)) as i8)
        } else {
            None
        }
    }

    fn span_below(self, end: Self) -> (n: usize) {
        if self < end {
            let gap = (end as i128) - (self as i128);
            if gap < usize::MAX as i128 {
                gap as usize
            } else {
                usize::MAX
            }
        } else {
            0
        }
    }

    fn span_within(self) -> (n: usize) {
        let gap = (i8::MAX as i128) - (self as i128);
        if gap < usize::MAX as i128 {
            gap as usize + 1
        } else {
            usize::MAX
        }
    }
}

impl RangeItem for i16 {
    open spec fn value(self) -> int {
        self as int
    }

    open spec fn of(v: int) -> Self {
        v as i16
    }

    open spec fn top() -> int {
        i16::MAX as int
    }

    proof fn lemma_value(self) {
    }

    fn at_most(self, other: Self) -> (r: bool) {
        self <= other
    }

    fn vacant(r: &RangeInclusive<Self>) -> (b: bool) {
        inclusive_is_empty(r)
    }

    fn step_below(self, index: usize, end: Self) -> (r: Option<Self>) {
        if self < end && (index as i128) < (end as i128) - (self as i128) {
            Some(((self as i128) + (index as i128)) as i16)
        } else {
            None
        }
    }

    fn step_within(self, index: usize) -> (r: Option<Self>) {
        if (index as i128) <= (i16::MAX as i128) - (self as i128) {
            Some(((self as i128) + (index as i128)) as i16)
        } else {
            None
        }
    }

    fn span_below(self, end: Self) -> (n: usize) {
        if self < end {
            let gap = (end as i128) - (self as i128);
            if gap < usize::MAX as i128 {
                gap as usize
            } else {
                usize::MAX
            }
        } else {
            0
        }
    }

    fn span_within(self) -> (n: usize) {
        let gap = (i16::MAX as i128) - (self as i128);
        if gap < usize::MAX as i128 {
            gap as usize + 1
        } else {
            usize::MAX
        }
    }
}

impl RangeItem for i32 {
    open spec fn value(self) -> int {
        self as int
    }

    open spec fn of(v: int) -> Self {
        v as i32
    }

    open spec fn top() -> int {
        i32::MAX as int
    }

    proof fn lemma_value(self) {
    }

    fn at_most(self, other: Self) -> (r: bool) {
        self <= other
    }

    fn vacant(r: &RangeInclusive<Self>) -> (b: bool) {
        inclusive_is_empty(r)
    }

    fn step_below(self, index: usize, end: Self) -> (r: Option<Self>) {
        if self < end && (index as i128) < (end as i128) - (self as i128) {
            Some(((self as i128) + (index as i128)) as i32)
        } else {
            None
        }
    }

    fn step_within(self, index: usize) -> (r: Option<Self>) {
        if (index as i128) <= (i32::MAX as i128) - (self as i128) {
            Some(((self as i128) + (index as i128)) as i32)
        } else {
            None
        }
    }

    fn span_below(self, end: Self) -> (n: usize) {
        if self < end {
            let gap = (end as i128) - (self as i128);
            if gap < usize::MAX as i128 {
                gap as usize
            } else {
                usize::MAX
            }
        } else {
            0
        }
    }

    fn span_within(self) -> (n: usize) {
        let gap = (i32::MAX as i128) - (self as i128);
        if gap < usize::MAX as i128 {
            gap as usize + 1
        } else {
            usize::MAX
        }
    }
}

impl RangeItem for i64 {
    open spec fn value(self) -> int {
        self as int
    }

    open spec fn of(v: int) -> Self {
        v as i64
    }

    open spec fn top() -> int {
        i64::MAX as int
    }

    proof fn lemma_value(self) {
    }

    fn at_most(self, other: Self) -> (r: bool) {
        self <= other
    }

    fn vacant(r: &RangeInclusive<Self>) -> (b: bool) {
        inclusive_is_empty(r)
    }

    fn step_below(self, index: usize, end: Self) -> (r: Option<Self>) {
        if self < end && (index as i128) < (end as i128) - (self as i128) {
            Some(((self as i128) + (index as i128)) as i64)
        } else {
            None
        }
    }

    fn step_within(self, index: usize) -> (r: Option<Self>) {
        if (index as i128) <= (i64::MAX as i128) - (self as i128) {
            Some(((self as i128) + (index as i128)) as i64)
        } else {
            None
        }
    }

    fn span_below(self, end: Self) -> (n: usize) {
        if self < end {
            let gap = (end as i128) - (self as i128);
            if gap < usize::MAX as i128 {
                gap as usize
            } else {
                usize::MAX
            }
        } else {
            0
        }
    }

    fn span_within(self) -> (n: usize) {
        let gap = (i64::MAX as i128) - (self as i128);
        if gap < usize::MAX as i128 {
            gap as usize + 1
        } else {
            usize::MAX
        }
    }
}

impl RangeItem for isize {
    open spec fn value(self) -> int {
        self as int
    }

    open spec fn of(v: int) -> Self {
        v as isize
    }

    open spec fn top() -> int {
        isize::MAX as int
    }

    proof fn lemma_value(self) {
    }

    fn at_most(self, other: Self) -> (r: bool) {
        self <= other
    }

    fn vacant(r: &RangeInclusive<Self>) -> (b: bool) {
        inclusive_is_empty(r)
    }

    fn step_below(self, index: usize, end: Self) -> (r: Option<Self>) {
        if self < end && (index as i128) < (end as i128) - (self as i128) {
            Some(((self as i128) + (index as i128)) as isize)
        } else {
            None
        }
    }

    fn step_within(self, index: usize) -> (r: Option<Self>) {
        if (index as i128) <= (isize::MAX as i128) - (self as i128) {
            Some(((self as i128) + (index as i128)) as isize)
        } else {
            None
        }
    }

    fn span_below(self, end: Self) -> (n: usize) {
        if self < end {
            let gap = (end as i128) - (self as i128);
            if gap < usize::MAX as i128 {
                gap as usize
            } else {
                usize::MAX
            }
        } else {
            0
        }
    }

    fn span_within(self) -> (n: usize) {
        let gap = (isize::MAX as i128) - (self as i128);
        if gap < usize::MAX as i128 {
            gap as usize + 1
        } else {
            usize::MAX
        }
    }
}

impl RangeItem for i128 {
    open spec fn value(self) -> int {
        self as int
    }

    open spec fn of(v: int) -> Self {
        v as i128
    }

    open spec fn top() -> int {
        i128::MAX as int
    }

    proof fn lemma_value(self) {
    }

    fn at_most(self, other: Self) -> (r: bool) {
        self <= other
    }

    fn vacant(r: &RangeInclusive<Self>) -> (b: bool) {
        inclusive_is_empty(r)
    }

    fn step_below(self, index: usize, end: Self) -> (r: Option<Self>) {
        if self < end {
            match end.checked_sub(self) {
                Some(gap) => if (index as i128) < gap {
                    Some(self + index as i128)
                } else {
                    None
                },
                None => Some(self + index as i128),
            }
        } else {
            None
        }
    }

    fn step_within(self, index: usize) -> (r: Option<Self>) {
        match i128::MAX.checked_sub(self) {
            Some(gap) => if (index as i128) <= gap {
                Some(self + index as i128)
            } else {
                None
            },
            None => Some(self + index as i128),
        }
    }

    fn span_below(self, end: Self) -> (n: usize) {
        if self < end {
            match end.checked_sub(self) {
                Some(gap) => if gap < usize::MAX as i128 {
                    gap as usize
                } else {
                    usize::MAX
                },
                None => usize::MAX,
            }
        } else {
            0
        }
    }

    fn span_within(self) -> (n: usize) {
        match i128::MAX.checked_sub(self) {
            Some(gap) => if gap < usize::MAX as i128 {
                gap as usize + 1
            } else {
                usize::MAX
            },
            None => usize::MAX,
        }
    }
}

/// The first value of the range.
pub fn range_start<Idx: Copy>(r: &Range<Idx>) -> (start: Idx)
    ensures
        start == r.start,
{
    r.start
}

/// The first value of the range.
pub fn range_from_start<Idx: Copy>(r: &RangeFrom<Idx>) -> (start: Idx)
    ensures
        start == r.start,
{
    r.start
}

/// `RangeInclusive::start` of the standard library: the lower bound of the
/// range. The library leaves the value open for a range that has been walked
/// to its end, and so does this.
pub assume_specification<Idx>[ RangeInclusive::<Idx>::start ](r: &RangeInclusive<Idx>) -> (start:
    &Idx)
    ensures
        !r@.exhausted ==> *start == r@.start,
;

/// `RangeInclusive::end` of the standard library: the upper bound of the
/// range. The library leaves the value open for a range that has been walked
/// to its end, and so does this.
pub assume_specification<Idx>[ RangeInclusive::<Idx>::end ](r: &RangeInclusive<Idx>) -> (end: &Idx)
    ensures
        !r@.exhausted ==> *end == r@.end,
;

/// `RangeInclusive::is_empty` of the standard library: the range has no value.
/// That is so where its bounds are the wrong way round, and after it has been
/// walked to its end. As vstd does for `contains`, the claim is made only for
/// a type whose order keeps the laws of orders.
#[verifier::external_body]
fn inclusive_is_empty<Idx: PartialOrd>(r: &RangeInclusive<Idx>) -> (b: bool)
    ensures
        Idx::obeys_partial_cmp_spec() ==> b == (r@.exhausted || !r@.start.is_le(&r@.end)),
{
    r.is_empty()
}

/// The first value of the range, if the range has not been walked to its end.
pub fn range_inclusive_start<Idx: Copy>(r: &RangeInclusive<Idx>) -> (start: Idx)
    ensures
        !r@.exhausted ==> start == r@.start,
{
    *r.start()
}

impl<T: RangeItem> IntoBuffer for Range<T> {
    type Into = Range<T>;
}

/// A range is its own buffer: its values are known without being walked.
impl<T: RangeItem> Buffer<Range<T>> for Range<T> {
    type Item = T;

    type Feed = std::vec::IntoIter<T>;

    open spec fn feed(&self) -> std::vec::IntoIter<T> {
        arbitrary()
    }

    open spec fn pulls(&self) -> nat {
        0
    }

    open spec fn cached(&self) -> Seq<T> {
        run::<T>(self.start.value(), self.end.value())
    }

    open spec fn exhausted(&self) -> bool {
        true
    }

    open spec fn wf(&self) -> bool {
        true
    }

    proof fn lemma_len(&self) {
    }

    fn from_source(source: Range<T>) -> (b: Self)
        ensures
            b == source,
    {
        source
    }

    fn size_hint(&self) -> (r: (usize, Option<usize>)) {
        let known = range_start(self).span_below(self.end);
        (known, Some(known))
    }

    fn get(&mut self, index: usize) -> (r: Option<T>) {
        if index == usize::MAX {
            return None;
        }
        let found = range_start(self).step_below(index, self.end);
        proof {
            if found is Some {
                found->0.lemma_value();
            }
        }
        found
    }
}

impl<T: RangeItem> IntoBuffer for RangeFrom<T> {
    type Into = RangeFrom<T>;
}

/// A range without an end is its own buffer: it runs to the largest value of
/// its type.
impl<T: RangeItem> Buffer<RangeFrom<T>> for RangeFrom<T> {
    type Item = T;

    type Feed = std::vec::IntoIter<T>;

    open spec fn feed(&self) -> std::vec::IntoIter<T> {
        arbitrary()
    }

    open spec fn pulls(&self) -> nat {
        0
    }

    open spec fn cached(&self) -> Seq<T> {
        run::<T>(self.start.value(), T::top() + 1)
    }

    open spec fn exhausted(&self) -> bool {
        true
    }

    open spec fn wf(&self) -> bool {
        true
    }

    proof fn lemma_len(&self) {
    }

    fn from_source(source: RangeFrom<T>) -> (b: Self)
        ensures
            b == source,
    {
        source
    }

    fn size_hint(&self) -> (r: (usize, Option<usize>)) {
        let known = range_from_start(self).span_within();
        (known, Some(known))
    }

    fn get(&mut self, index: usize) -> (r: Option<T>) {
        if index == usize::MAX {
            return None;
        }
        let found = range_from_start(self).step_within(index);
        proof {
            self.start.lemma_value();
            if found is Some {
                found->0.lemma_value();
            }
        }
        found
    }
}

impl<T: RangeItem> IntoBuffer for RangeInclusive<T> {
    type Into = RangeInclusive<T>;
}

/// A range with its end included is its own buffer. One that has been walked
/// to its end holds nothing.
impl<T: RangeItem> Buffer<RangeInclusive<T>> for RangeInclusive<T> {
    type Item = T;

    type Feed = std::vec::IntoIter<T>;

    open spec fn feed(&self) -> std::vec::IntoIter<T> {
        arbitrary()
    }

    open spec fn pulls(&self) -> nat {
        0
    }

    open spec fn cached(&self) -> Seq<T> {
        if self@.exhausted {
            Seq::empty()
        } else {
            run::<T>(self@.start.value(), self@.end.value() + 1)
        }
    }

    open spec fn exhausted(&self) -> bool {
        true
    }

    open spec fn wf(&self) -> bool {
        true
    }

    proof fn lemma_len(&self) {
    }

    fn from_source(source: RangeInclusive<T>) -> (b: Self)
        ensures
            b == source,
    {
        source
    }

    fn size_hint(&self) -> (r: (usize, Option<usize>)) {
        if T::vacant(self) {
            return (0, Some(0));
        }
        let below = range_inclusive_start(self).span_below(*self.end());
        let known = if below < usize::MAX {
            below + 1
        } else {
            usize::MAX
        };
        (known, Some(known))
    }

    fn get(&mut self, index: usize) -> (r: Option<T>) {
        if index == usize::MAX || T::vacant(self) {
            return None;
        }
        let last = *self.end();
        let found = match range_inclusive_start(self).step_within(index) {
            Some(value) => if value.at_most(last) {
                Some(value)
            } else {
                None
            },
            None => None,
        };
        proof {
            last.lemma_value();
            if found is Some {
                found->0.lemma_value();
            }
        }
        found
    }
}

} // verus!
