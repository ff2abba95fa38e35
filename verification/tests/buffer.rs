use lazy_combinatorics::buffer::{Buffer, Lazy, LazyBuffer};
use std::cell::Cell;
use std::rc::Rc;

struct Counted {
    values: std::vec::IntoIter<u32>,
    pulls: Rc<Cell<usize>>,
}

impl Iterator for Counted {
    type Item = u32;

    fn next(&mut self) -> Option<u32> {
        self.pulls.set(self.pulls.get() + 1);
        self.values.next()
    }
}

fn counted(values: Vec<u32>) -> (LazyBuffer<Counted>, Rc<Cell<usize>>) {
    let pulls = Rc::new(Cell::new(0));
    let source = Counted { values: values.into_iter(), pulls: pulls.clone() };
    (LazyBuffer::from_source(Lazy(source)), pulls)
}

#[test]
fn lazy_buffer_answers_as_the_whole_sequence_would() {
    let whole = vec![10u32, 11, 12, 13, 14];
    let order = [3usize, 0, 3, 1, 7, 4, 5, 2, 0, 9];
    let (mut buffer, _) = counted(whole.clone());
    for &i in order.iter() {
        assert_eq!(buffer.get(i), whole.as_slice().get(i).cloned());
    }
}

#[test]
fn lazy_buffer_pulls_no_more_than_asked() {
    let (mut buffer, pulls) = counted(vec![10, 11, 12, 13, 14]);
    assert_eq!(pulls.get(), 0);
    assert_eq!(buffer.get(2), Some(12));
    assert_eq!(pulls.get(), 3);
    assert_eq!(buffer.get(0), Some(10));
    assert_eq!(buffer.get(2), Some(12));
    assert_eq!(pulls.get(), 3);
    assert_eq!(buffer.get(3), Some(13));
    assert_eq!(pulls.get(), 4);
    assert_eq!(buffer.get(9), None);
    assert_eq!(pulls.get(), 6);
    assert_eq!(buffer.get(9), None);
    assert_eq!(buffer.get(100), None);
    assert_eq!(buffer.get(5), None);
    assert_eq!(pulls.get(), 6);
    assert_eq!(buffer.get(4), Some(14));
    assert_eq!(pulls.get(), 6);
}

#[test]
fn lazy_buffer_over_nothing() {
    let (mut buffer, pulls) = counted(Vec::new());
    assert_eq!(buffer.size_hint(), (0, None));
    assert_eq!(buffer.get(0), None);
    assert_eq!(pulls.get(), 1);
    assert_eq!(buffer.get(0), None);
    assert_eq!(pulls.get(), 1);
    assert_eq!(buffer.size_hint(), (0, Some(0)));
}

#[test]
fn lazy_buffer_size_hint_grows() {
    let (mut buffer, _) = counted(vec![1, 2]);
    assert_eq!(buffer.size_hint(), (0, None));
    assert_eq!(buffer.get(0), Some(1));
    assert_eq!(buffer.size_hint(), (1, None));
    assert_eq!(buffer.get(1), Some(2));
    assert_eq!(buffer.size_hint(), (2, None));
    assert_eq!(buffer.get(2), None);
    assert_eq!(buffer.size_hint(), (2, Some(2)));
}

#[test]
fn vector_is_its_own_buffer() {
    let mut buffer = <Vec<u32> as Buffer<Vec<u32>>>::from_source(vec![4, 5, 6]);
    assert_eq!(Buffer::<Vec<u32>>::size_hint(&buffer), (3, Some(3)));
    assert_eq!(Buffer::<Vec<u32>>::get(&mut buffer, 1), Some(5));
    assert_eq!(Buffer::<Vec<u32>>::get(&mut buffer, 3), None);
    assert_eq!(buffer, vec![4, 5, 6]);
}

#[test]
fn slice_is_its_own_buffer() {
    let values = [7u8, 8];
    let mut buffer = <&[u8] as Buffer<&[u8]>>::from_source(&values[..]);
    assert_eq!(Buffer::<&[u8]>::get(&mut buffer, 0), Some(&7));
    assert_eq!(Buffer::<&[u8]>::get(&mut buffer, 1), Some(&8));
    assert_eq!(Buffer::<&[u8]>::get(&mut buffer, 2), None);
    assert_eq!(Buffer::<&[u8]>::size_hint(&buffer), (2, Some(2)));
}
