use lazy_combinatorics::adaptors::multi_product::multi_cartesian_product;
use lazy_combinatorics::buffer::Buffer;
use lazy_combinatorics::permutations::permutations;
use lazy_combinatorics::ranges::{
    range_from_start, range_inclusive_start, range_start, RangeItem,
};
use std::ops::{Range, RangeFrom, RangeInclusive};

#[test]
fn range_answers_by_index() {
    let mut r: Range<u8> = 250..255;
    assert_eq!(Buffer::size_hint(&r), (5, Some(5)));
    assert_eq!(Buffer::get(&mut r, 0), Some(250));
    assert_eq!(Buffer::get(&mut r, 4), Some(254));
    assert_eq!(Buffer::get(&mut r, 5), None);
    assert_eq!(Buffer::get(&mut r, 256), None);
    assert_eq!(Buffer::get(&mut r, usize::MAX), None);
    assert_eq!(r, 250..255);
}

#[test]
fn empty_and_backward_ranges_hold_nothing() {
    let mut r: Range<i32> = 3..3;
    assert_eq!(Buffer::size_hint(&r), (0, Some(0)));
    assert_eq!(Buffer::get(&mut r, 0), None);
    let mut back: Range<i32> = 5..-5;
    assert_eq!(Buffer::size_hint(&back), (0, Some(0)));
    assert_eq!(Buffer::get(&mut back, 0), None);
}

#[test]
fn signed_range_across_zero() {
    let mut r: Range<i8> = -128..127;
    assert_eq!(Buffer::size_hint(&r), (255, Some(255)));
    assert_eq!(Buffer::get(&mut r, 0), Some(-128));
    assert_eq!(Buffer::get(&mut r, 128), Some(0));
    assert_eq!(Buffer::get(&mut r, 254), Some(126));
    assert_eq!(Buffer::get(&mut r, 255), None);
    let mut wide: Range<i128> = i128::MIN..i128::MAX;
    assert_eq!(Buffer::size_hint(&wide), (usize::MAX, Some(usize::MAX)));
    assert_eq!(Buffer::get(&mut wide, 2), Some(i128::MIN + 2));
    assert_eq!(Buffer::get(&mut wide, usize::MAX - 1), Some(i128::MIN + (usize::MAX - 1) as i128));
    assert_eq!(Buffer::get(&mut wide, usize::MAX), None);
}

#[test]
fn range_from_runs_to_the_top() {
    let mut r: RangeFrom<u8> = 253..;
    assert_eq!(Buffer::size_hint(&r), (3, Some(3)));
    assert_eq!(Buffer::get(&mut r, 0), Some(253));
    assert_eq!(Buffer::get(&mut r, 2), Some(255));
    assert_eq!(Buffer::get(&mut r, 3), None);
    let mut all: RangeFrom<u128> = 0..;
    assert_eq!(Buffer::size_hint(&all), (usize::MAX, Some(usize::MAX)));
    assert_eq!(Buffer::get(&mut all, 77), Some(77));
    let mut low: RangeFrom<i64> = i64::MAX..;
    assert_eq!(Buffer::size_hint(&low), (1, Some(1)));
    assert_eq!(Buffer::get(&mut low, 0), Some(i64::MAX));
    assert_eq!(Buffer::get(&mut low, 1), None);
}

#[test]
fn every_integer_type_steps() {
    assert_eq!(5u8.step_below(2, 8), Some(7));
    assert_eq!(5u8.step_below(3, 8), None);
    assert_eq!(5u16.step_below(2, 8), Some(7));
    assert_eq!(5u32.step_below(2, 8), Some(7));
    assert_eq!(5u64.step_below(2, 8), Some(7));
    assert_eq!(5u128.step_below(2, 8), Some(7));
    assert_eq!(5usize.step_below(2, 8), Some(7));
    assert_eq!((-5i8).step_below(7, 3), Some(2));
    assert_eq!((-5i16).step_below(7, 3), Some(2));
    assert_eq!((-5i32).step_below(8, 3), None);
    assert_eq!((-5i64).step_below(7, 3), Some(2));
    assert_eq!((-5i128).step_below(7, 3), Some(2));
    assert_eq!((-5isize).step_below(7, 3), Some(2));
    assert_eq!(250u8.step_within(5), Some(255));
    assert_eq!(250u8.step_within(6), None);
    assert_eq!(120i8.step_within(7), Some(127));
    assert_eq!(120i8.step_within(8), None);
    assert_eq!(i128::MIN.step_within(usize::MAX), Some(i128::MIN + usize::MAX as i128));
    assert_eq!(u128::MAX.step_within(1), None);
    assert_eq!(3u16.span_below(10), 7);
    assert_eq!(10u16.span_below(3), 0);
    assert_eq!((-3i64).span_below(4), 7);
    assert_eq!(0u128.span_below(u128::MAX), usize::MAX);
    assert_eq!(65530u16.span_within(), 6);
    assert_eq!(0u128.span_within(), usize::MAX);
    assert_eq!(i128::MIN.span_within(), usize::MAX);
    assert_eq!(i16::MAX.span_within(), 1);
}

#[test]
fn range_starts() {
    assert_eq!(range_start(&(4u32..9)), 4);
    assert_eq!(range_from_start(&(4i64..)), 4);
    assert_eq!(range_inclusive_start(&(4u8..=9)), 4);
}

#[test]
fn inclusive_range_holds_its_end() {
    let mut r: RangeInclusive<u8> = 250..=255;
    assert_eq!(Buffer::size_hint(&r), (6, Some(6)));
    assert_eq!(Buffer::get(&mut r, 0), Some(250));
    assert_eq!(Buffer::get(&mut r, 5), Some(255));
    assert_eq!(Buffer::get(&mut r, 6), None);
    assert_eq!(Buffer::get(&mut r, usize::MAX), None);
    let mut one: RangeInclusive<i16> = -7..=-7;
    assert_eq!(Buffer::size_hint(&one), (1, Some(1)));
    assert_eq!(Buffer::get(&mut one, 0), Some(-7));
    assert_eq!(Buffer::get(&mut one, 1), None);
    let mut back: RangeInclusive<i16> = 3..=2;
    assert_eq!(Buffer::size_hint(&back), (0, Some(0)));
    assert_eq!(Buffer::get(&mut back, 0), None);
    let mut all: RangeInclusive<u128> = 0..=u128::MAX;
    assert_eq!(Buffer::size_hint(&all), (usize::MAX, Some(usize::MAX)));
    assert_eq!(Buffer::get(&mut all, 9), Some(9));
    let made = <RangeInclusive<u32> as Buffer<RangeInclusive<u32>>>::from_source(2..=4);
    assert_eq!(made, 2..=4);
}

#[test]
fn walked_inclusive_range_holds_nothing() {
    let mut r: RangeInclusive<u8> = 3..=5;
    for _ in r.by_ref() {}
    assert_eq!(Buffer::size_hint(&r), (0, Some(0)));
    assert_eq!(Buffer::get(&mut r, 0), None);
    let mut made = <RangeInclusive<u8> as Buffer<RangeInclusive<u8>>>::from_source(r.clone());
    assert_eq!(Buffer::get(&mut made, 0), None);
    let mut half: RangeInclusive<i32> = -1..=1;
    assert_eq!(half.next(), Some(-1));
    assert_eq!(Buffer::size_hint(&half), (2, Some(2)));
    assert_eq!(Buffer::get(&mut half, 0), Some(0));
    assert_eq!(Buffer::get(&mut half, 1), Some(1));
    assert_eq!(Buffer::get(&mut half, 2), None);
    let mut p = permutations(r, 1);
    assert_eq!(p.next(), None);
}

#[test]
fn vacant_tells_every_type() {
    assert!(!u8::vacant(&(1..=1)) && u8::vacant(&(2..=1)) && !u16::vacant(&(0..=9)));
    assert!(u32::vacant(&(9..=0)) && !u64::vacant(&(0..=0)) && !u128::vacant(&(0..=u128::MAX)));
    assert!(usize::vacant(&(1..=0)) && !i8::vacant(&(-1..=0)) && i16::vacant(&(0..=-1)));
    assert!(!i32::vacant(&(0..=0)) && i64::vacant(&(1..=0)) && !i128::vacant(&(i128::MIN..=0)));
    assert!(!isize::vacant(&(-1..=1)));
    let mut walked: RangeInclusive<i64> = 0..=1;
    for _ in walked.by_ref() {}
    assert!(i64::vacant(&walked));
}

#[test]
fn at_most_orders_every_type() {
    assert!(3u8.at_most(3) && 3u16.at_most(4) && !5u32.at_most(4) && 0u64.at_most(0));
    assert!(3u128.at_most(3) && !4usize.at_most(3));
    assert!((-3i8).at_most(3) && !(3i16).at_most(-3) && (-1i32).at_most(0));
    assert!(i64::MIN.at_most(i64::MAX) && !i128::MAX.at_most(i128::MIN) && 0isize.at_most(0));
}

#[test]
fn selections_of_a_range() {
    let mut p = permutations(1u32..4, 2);
    let mut all = Vec::new();
    while let Some(t) = p.next() {
        all.push(t);
    }
    assert_eq!(all, vec![vec![1, 2], vec![1, 3], vec![2, 1], vec![2, 3], vec![3, 1], vec![3, 2]]);
    let mut none = permutations(254u8.., 3);
    assert_eq!(none.next(), None);
    let mut q = permutations(7i8..=8, 2);
    assert_eq!(q.next(), Some(vec![7, 8]));
    assert_eq!(q.next(), Some(vec![8, 7]));
    assert_eq!(q.next(), None);
}

#[test]
fn product_of_ranges() {
    let mut p = multi_cartesian_product(vec![0u8..2, 5u8..7]);
    assert_eq!(p.size_hint(), (4, Some(4)));
    let mut all = Vec::new();
    while let Some(t) = p.next() {
        all.push(t);
    }
    assert_eq!(all, vec![vec![0, 5], vec![0, 6], vec![1, 5], vec![1, 6]]);
}
