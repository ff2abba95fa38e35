use lazy_combinatorics::adaptors::multi_product::multi_cartesian_product;
use lazy_combinatorics::adaptors::multi_product_ref::multi_cartesian_product_ref;
use lazy_combinatorics::buffer::Lazy;

fn all_tuples(factors: Vec<Vec<u32>>) -> Vec<Vec<u32>> {
    let mut p = multi_cartesian_product(factors);
    let mut all = Vec::new();
    while let Some(t) = p.next() {
        all.push(t);
    }
    all
}

fn all_tuples_lazy(factors: Vec<Vec<u32>>) -> Vec<Vec<u32>> {
    let sources: Vec<Lazy<std::vec::IntoIter<u32>>> =
        factors.into_iter().map(|f| Lazy(f.into_iter())).collect();
    let mut p = multi_cartesian_product(sources);
    let mut all = Vec::new();
    while let Some(t) = p.next() {
        all.push(t);
    }
    all
}

fn counter(lens: &[usize]) -> Vec<Vec<u32>> {
    let total: usize = lens.iter().product();
    let mut all = Vec::new();
    for j in 0..total {
        let mut rest = j;
        let mut t = vec![0u32; lens.len()];
        for d in (0..lens.len()).rev() {
            t[d] = (rest % lens[d]) as u32 + 100 * d as u32;
            rest /= lens[d];
        }
        all.push(t);
    }
    all
}

#[test]
fn two_by_three() {
    let one = 1u32;
    let two = 2u32;
    let (x, y, z) = ('x' as u32, 'y' as u32, 'z' as u32);
    let want = vec![
        vec![one, x],
        vec![one, y],
        vec![one, z],
        vec![two, x],
        vec![two, y],
        vec![two, z],
    ];
    assert_eq!(all_tuples(vec![vec![one, two], vec![x, y, z]]), want);
    assert_eq!(all_tuples_lazy(vec![vec![one, two], vec![x, y, z]]), want);
}

#[test]
fn product_counts_like_a_mixed_radix_counter() {
    let shapes: Vec<Vec<usize>> = vec![
        vec![1],
        vec![3],
        vec![2, 3],
        vec![3, 1, 2],
        vec![2, 2, 2, 2],
        vec![1, 4, 1],
    ];
    for lens in shapes {
        let factors: Vec<Vec<u32>> = lens
            .iter()
            .enumerate()
            .map(|(d, &l)| (0..l as u32).map(|v| v + 100 * d as u32).collect())
            .collect();
        let want = counter(&lens);
        assert_eq!(all_tuples(factors.clone()), want);
        assert_eq!(all_tuples_lazy(factors), want);
    }
}

#[test]
fn an_empty_factor_gives_nothing() {
    assert!(all_tuples(vec![vec![1, 2], vec![], vec![3]]).is_empty());
    assert!(all_tuples(vec![vec![]]).is_empty());
    assert!(all_tuples_lazy(vec![vec![1, 2], vec![3], vec![]]).is_empty());
    let mut p = multi_cartesian_product(vec![vec![1u32], vec![]]);
    assert_eq!(p.next(), None);
    assert_eq!(p.next(), None);
}

#[test]
fn no_factors_give_nothing() {
    let mut p = multi_cartesian_product(Vec::<Vec<u32>>::new());
    assert_eq!(p.size_hint(), (0, Some(0)));
    assert_eq!(p.next(), None);
    assert_eq!(p._count(), Some(0));
    assert_eq!(p.count(), Some(0));
}

#[test]
fn product_starts_again_after_the_last() {
    let mut p = multi_cartesian_product(vec![vec![1u32, 2], vec![7]]);
    assert_eq!(p.next(), Some(vec![1, 7]));
    assert_eq!(p.next(), Some(vec![2, 7]));
    assert_eq!(p.next(), None);
    assert_eq!(p.next(), Some(vec![1, 7]));
}

#[test]
fn count_before_and_during() {
    let mut p = multi_cartesian_product(vec![vec![1u32, 2], vec![7, 8, 9]]);
    assert_eq!(p._count(), Some(6));
    assert!(!p.in_progress());
    assert_eq!(p.next(), Some(vec![1, 7]));
    assert!(p.in_progress());
    assert_eq!(p._count(), Some(5));
    assert_eq!(p.next(), Some(vec![1, 8]));
    assert_eq!(p.next(), Some(vec![1, 9]));
    assert_eq!(p.next(), Some(vec![2, 7]));
    assert_eq!(p._count(), Some(2));
    assert_eq!(p.next(), Some(vec![2, 8]));
    assert_eq!(p.next(), Some(vec![2, 9]));
    assert_eq!(p._count(), Some(0));
    assert_eq!(p.count(), Some(0));
}

#[test]
fn count_reads_lazy_sequences_to_their_ends() {
    let sources = vec![Lazy(vec![1u32, 2, 3].into_iter()), Lazy(vec![4u32, 5].into_iter())];
    let mut p = multi_cartesian_product(sources);
    assert_eq!(p.size_hint(), (0, None));
    assert_eq!(p._count(), Some(6));
    assert_eq!(p.size_hint(), (6, Some(6)));
    assert_eq!(p.next(), Some(vec![1, 4]));
    assert_eq!(p.size_hint(), (5, Some(5)));
}

#[test]
fn count_overflows_to_none() {
    let big: Vec<u8> = vec![0; 1 << 16];
    let factors = vec![big.clone(), big.clone(), big.clone(), big.clone(), big];
    let mut p = multi_cartesian_product(factors);
    assert_eq!(p._count(), None);
    assert_eq!(p.size_hint(), (usize::MAX, None));
    assert!(p.next().is_some());
    assert_eq!(p._count(), None);
    assert_eq!(p.size_hint(), (usize::MAX, None));
    let with_nothing = vec![vec![0u8; 1 << 16]; 5].into_iter().chain(vec![Vec::new()]).collect::<Vec<_>>();
    let mut q = multi_cartesian_product(with_nothing);
    assert_eq!(q._count(), Some(0));
    assert_eq!(q.size_hint(), (0, Some(0)));
}

#[test]
fn size_hint_of_lazy_sequences() {
    let sources = vec![Lazy(vec![1u32, 2].into_iter()), Lazy(vec![4u32, 5, 6].into_iter())];
    let mut p = multi_cartesian_product(sources);
    assert_eq!(p.size_hint(), (0, None));
    assert_eq!(p.next(), Some(vec![1, 4]));
    assert_eq!(p.size_hint(), (0, None));
    assert_eq!(p.next(), Some(vec![1, 5]));
    assert_eq!(p.next(), Some(vec![1, 6]));
    assert_eq!(p.size_hint(), (0, None));
    assert_eq!(p.next(), Some(vec![2, 4]));
    assert_eq!(p.size_hint(), (2, None));
}

#[test]
fn last_tuple() {
    let p = multi_cartesian_product(vec![vec![1u32, 2], vec![7, 8, 9]]);
    assert_eq!(p.last(), Some(vec![2, 9]));
    let q = multi_cartesian_product(vec![vec![1u32, 2], vec![]]);
    assert_eq!(q.last(), None);
    let none = multi_cartesian_product(Vec::<Vec<u32>>::new());
    assert_eq!(none.last(), Some(Vec::new()));
    let mut r = multi_cartesian_product(vec![vec![1u32], vec![7, 8]]);
    assert_eq!(r.next(), Some(vec![1, 7]));
    assert_eq!(r.last(), None);
}

#[test]
fn streaming_lends_the_tuple() {
    let mut s = multi_cartesian_product(vec![vec![1u32, 2], vec![7]]).streaming();
    assert_eq!(s.get(), None);
    s.advance();
    assert_eq!(s.get(), Some(&[1u32, 7][..]));
    assert_eq!(s.size_hint(), (1, Some(1)));
    s.advance();
    assert_eq!(s.get(), Some(&[2u32, 7][..]));
    s.advance();
    assert_eq!(s.get(), None);
    assert_eq!(s.count(), Some(2));
}

#[test]
fn arrays_of_the_right_length() {
    let mut a = multi_cartesian_product(vec![vec![1u32, 2], vec![7]]).array::<[(); 2]>();
    assert_eq!(a.size_hint(), (2, Some(2)));
    assert_eq!(a.next(), Some([1, 7]));
    assert_eq!(a.next(), Some([2, 7]));
    assert_eq!(a.next(), None);
    let mut wrong = multi_cartesian_product(vec![vec![1u32, 2], vec![7]]).array::<[(); 3]>();
    assert_eq!(wrong.next(), None);
    assert_eq!(wrong.count(), Some(1));
}

#[test]
fn last_array() {
    let a = multi_cartesian_product(vec![vec![1u32, 2], vec![7, 8, 9]]).array::<[(); 2]>();
    assert_eq!(a.last(), Some([2, 9]));
    let wrong = multi_cartesian_product(vec![vec![1u32, 2], vec![7, 8, 9]]).array::<[(); 3]>();
    assert_eq!(wrong.last(), None);
    let empty = multi_cartesian_product(vec![vec![1u32, 2], vec![]]).array::<[(); 2]>();
    assert_eq!(empty.last(), None);
    let mut begun = multi_cartesian_product(vec![vec![1u32, 2], vec![7, 8]]).array::<[(); 2]>();
    assert_eq!(begun.next(), Some([1, 7]));
    assert_eq!(begun.last(), Some([2, 8]));
}

#[test]
fn lent_product_stays_at_the_last() {
    let mut p = multi_cartesian_product_ref(vec![vec![1u32, 2], vec![7, 8]]);
    let mut all: Vec<Vec<u32>> = Vec::new();
    while let Some(t) = p.next() {
        all.push(t.to_vec());
    }
    assert_eq!(all, vec![vec![1, 7], vec![1, 8], vec![2, 7], vec![2, 8]]);
    assert_eq!(p.next(), None);
    assert_eq!(p.next(), None);
}

#[test]
fn lent_product_of_nothing() {
    let mut p = multi_cartesian_product_ref(Vec::<Vec<u32>>::new());
    assert_eq!(p.next(), Some(&[][..]));
    assert_eq!(p.next(), None);
    let mut q = multi_cartesian_product_ref(vec![vec![1u32], vec![]]);
    assert_eq!(q.next(), None);
}

#[test]
fn lent_product_counts_like_a_counter() {
    let lens = [2usize, 3, 2];
    let factors: Vec<Vec<u32>> = lens
        .iter()
        .enumerate()
        .map(|(d, &l)| (0..l as u32).map(|v| v + 100 * d as u32).collect())
        .collect();
    let mut p = multi_cartesian_product_ref(factors);
    let mut all: Vec<Vec<u32>> = Vec::new();
    while let Some(t) = p.next() {
        all.push(t.to_vec());
    }
    assert_eq!(all, counter(&lens));
}
