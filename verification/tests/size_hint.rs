use lazy_combinatorics::size_hint;

#[test]
fn hints_add() {
    assert_eq!(size_hint::add((2, Some(3)), (4, Some(5))), (6, Some(8)));
    assert_eq!(size_hint::add((2, None), (4, Some(5))), (6, None));
    assert_eq!(size_hint::add((usize::MAX, Some(usize::MAX)), (1, Some(1))), (usize::MAX, None));
    assert_eq!(size_hint::add((0, Some(0)), (0, Some(0))), (0, Some(0)));
}

#[test]
fn hints_multiply() {
    assert_eq!(size_hint::mul((2, Some(3)), (4, Some(5))), (8, Some(15)));
    assert_eq!(size_hint::mul((2, None), (0, Some(0))), (0, Some(0)));
    assert_eq!(size_hint::mul((0, Some(0)), (7, None)), (0, Some(0)));
    assert_eq!(size_hint::mul((2, None), (4, Some(5))), (8, None));
    assert_eq!(size_hint::mul((usize::MAX, Some(usize::MAX)), (2, Some(2))), (usize::MAX, None));
    assert_eq!(size_hint::mul((3, None), (3, None)), (9, None));
}
