use lazy_combinatorics::buffer::Lazy;
use lazy_combinatorics::permutations::{
    permutations, CompleteState, CompleteStateRemaining, PermutationState,
};

fn falling(n: usize, k: usize) -> usize {
    if k > n {
        return 0;
    }
    let mut f = 1;
    for i in 0..k {
        f *= n - i;
    }
    f
}

fn run_engine(n: usize, k: usize) -> Vec<Vec<usize>> {
    let mut engine = CompleteState::Start { n, k };
    let mut all = Vec::new();
    loop {
        engine.advance();
        match &engine {
            CompleteState::Ongoing { indices, cycles } => {
                all.push(indices[..cycles.len()].to_vec());
            }
            _ => return all,
        }
    }
}

fn run_lazy(values: Vec<u32>, k: usize) -> Vec<Vec<u32>> {
    let mut p = permutations(Lazy(values.into_iter()), k);
    let mut all = Vec::new();
    while let Some(t) = p.next() {
        all.push(t);
    }
    all
}

fn run_vec(values: Vec<u32>, k: usize) -> Vec<Vec<u32>> {
    let mut p = permutations(values, k);
    let mut all = Vec::new();
    while let Some(t) = p.next() {
        all.push(t);
    }
    all
}

#[test]
fn four_choose_two_in_order() {
    let mut p = permutations(Lazy(vec!['a', 'b', 'c', 'd'].into_iter()), 2);
    let mut got = Vec::new();
    while let Some(t) = p.next() {
        got.push(t);
    }
    let want: Vec<Vec<char>> = vec![
        vec!['a', 'b'],
        vec!['a', 'c'],
        vec!['a', 'd'],
        vec!['b', 'a'],
        vec!['b', 'c'],
        vec!['b', 'd'],
        vec!['c', 'a'],
        vec!['c', 'b'],
        vec!['c', 'd'],
        vec!['d', 'a'],
        vec!['d', 'b'],
        vec!['d', 'c'],
    ];
    assert_eq!(got, want);
}

#[test]
fn engine_gives_every_selection_once() {
    for n in 0..6usize {
        for k in 0..=n {
            let all = run_engine(n, k);
            assert_eq!(all.len(), falling(n, k));
            for (i, t) in all.iter().enumerate() {
                assert_eq!(t.len(), k);
                for (a, x) in t.iter().enumerate() {
                    assert!(*x < n);
                    for y in &t[a + 1..] {
                        assert_ne!(x, y);
                    }
                }
                for u in &all[i + 1..] {
                    assert_ne!(t, u);
                }
            }
            let mut sorted = all.clone();
            sorted.sort();
            assert_eq!(sorted, all);
        }
    }
}

#[test]
fn engine_three_choose_three() {
    let want: Vec<Vec<usize>> = vec![
        vec![0, 1, 2],
        vec![0, 2, 1],
        vec![1, 0, 2],
        vec![1, 2, 0],
        vec![2, 0, 1],
        vec![2, 1, 0],
    ];
    assert_eq!(run_engine(3, 3), want);
}

#[test]
fn engine_counters_after_first_step() {
    let mut engine = CompleteState::Start { n: 4, k: 2 };
    engine.advance();
    match &engine {
        CompleteState::Ongoing { indices, cycles } => {
            assert_eq!(indices, &vec![0, 1, 2, 3]);
            assert_eq!(cycles, &vec![3, 2]);
        }
        _ => panic!("the engine did not start"),
    }
    engine.advance();
    match &engine {
        CompleteState::Ongoing { indices, cycles } => {
            assert_eq!(indices, &vec![0, 2, 1, 3]);
            assert_eq!(cycles, &vec![3, 1]);
        }
        _ => panic!("the engine stopped early"),
    }
}

#[test]
fn engine_starts_again_after_the_last() {
    let mut engine = CompleteState::Start { n: 2, k: 2 };
    engine.advance();
    engine.advance();
    engine.advance();
    assert!(matches!(engine, CompleteState::Start { n: 2, k: 2 }));
    engine.advance();
    match &engine {
        CompleteState::Ongoing { indices, .. } => assert_eq!(indices, &vec![0, 1]),
        _ => panic!("the engine did not start again"),
    }
}

#[test]
fn zero_width_gives_one_empty_tuple() {
    for n in 0..4u32 {
        let values: Vec<u32> = (0..n).collect();
        let all = run_lazy(values.clone(), 0);
        assert_eq!(all, vec![Vec::<u32>::new()]);
        assert_eq!(run_vec(values, 0), vec![Vec::<u32>::new()]);
    }
    assert_eq!(run_engine(0, 0), vec![Vec::<usize>::new()]);
    assert_eq!(run_engine(5, 0), vec![Vec::<usize>::new()]);
}

#[test]
fn wider_than_the_sequence_gives_nothing() {
    assert!(run_lazy(vec![1, 2, 3], 4).is_empty());
    assert!(run_vec(vec![1, 2, 3], 4).is_empty());
    assert!(run_lazy(Vec::new(), 1).is_empty());
    let mut engine = CompleteState::Start { n: 3, k: 4 };
    assert!(matches!(engine.remaining(), CompleteStateRemaining::Known(0)));
    engine.advance();
    assert!(matches!(engine, CompleteState::Empty));
    assert!(matches!(engine.remaining(), CompleteStateRemaining::Known(0)));
    engine.advance();
    assert!(matches!(engine, CompleteState::Empty));
    let mut p = permutations(Lazy(vec![1u32, 2].into_iter()), 3);
    assert_eq!(p.size_hint(), (0, Some(0)));
    assert_eq!(p.next(), None);
    assert_eq!(p.next(), None);
}

#[test]
fn unknown_length_agrees_with_the_engine() {
    for n in 0..6usize {
        for k in 1..=n + 1 {
            let values: Vec<u32> = (0..n as u32).map(|x| 10 * x + 7).collect();
            let want: Vec<Vec<u32>> =
                run_engine_or_nothing(n, k).iter().map(|t| t.iter().map(|&i| values[i]).collect()).collect();
            assert_eq!(run_lazy(values.clone(), k), want);
            assert_eq!(run_vec(values, k), want);
        }
    }
}

fn run_engine_or_nothing(n: usize, k: usize) -> Vec<Vec<usize>> {
    if k > n {
        Vec::new()
    } else {
        run_engine(n, k)
    }
}

#[test]
fn twenty_one_factorial_overflows() {
    let engine = CompleteState::Start { n: 21, k: 21 };
    assert!(matches!(engine.remaining(), CompleteStateRemaining::Overflow));
    let mut started = CompleteState::Start { n: 21, k: 21 };
    started.advance();
    assert!(matches!(started.remaining(), CompleteStateRemaining::Overflow));
    let values: Vec<u32> = (0..21).collect();
    let mut p = permutations(values, 21);
    assert_eq!(p.size_hint(), (0, None));
    assert!(p.next().is_some());
    assert_eq!(p.size_hint(), (0, None));
    assert!(p.next().is_some());
    assert_eq!(p.size_hint(), (usize::MAX, None));
}

#[test]
fn remaining_counts_down() {
    let mut engine = CompleteState::Start { n: 4, k: 2 };
    assert!(matches!(engine.remaining(), CompleteStateRemaining::Known(12)));
    for left in (0..12).rev() {
        engine.advance();
        match engine.remaining() {
            CompleteStateRemaining::Known(c) => assert_eq!(c, left),
            CompleteStateRemaining::Overflow => panic!("twelve does not overflow"),
        }
    }
    engine.advance();
    assert!(matches!(engine.remaining(), CompleteStateRemaining::Known(12)));
    assert!(matches!(
        (CompleteState::Start { n: 20, k: 20 }).remaining(),
        CompleteStateRemaining::Known(2432902008176640000)
    ));
}

#[test]
fn size_hint_follows_the_phases() {
    let mut p = permutations(Lazy(vec![1u32, 2, 3].into_iter()), 2);
    assert_eq!(p.size_hint(), (0, None));
    assert_eq!(p.next(), Some(vec![1, 2]));
    assert_eq!(p.size_hint(), (0, None));
    assert_eq!(p.next(), Some(vec![1, 3]));
    assert_eq!(p.size_hint(), (0, None));
    assert_eq!(p.next(), Some(vec![2, 1]));
    assert_eq!(p.size_hint(), (3, Some(3)));
    assert_eq!(p.next(), Some(vec![2, 3]));
    assert_eq!(p.next(), Some(vec![3, 1]));
    assert_eq!(p.next(), Some(vec![3, 2]));
    assert_eq!(p.size_hint(), (0, Some(0)));
    assert_eq!(p.next(), None);
}

#[test]
fn enumeration_begins_again_after_the_end() {
    let mut p = permutations(vec![1u32, 2], 2);
    assert_eq!(p.next(), Some(vec![1, 2]));
    assert_eq!(p.next(), Some(vec![2, 1]));
    assert_eq!(p.next(), None);
    assert_eq!(p.size_hint(), (2, Some(2)));
    assert_eq!(p.next(), Some(vec![1, 2]));
}

#[test]
fn the_empty_selection_is_given_once() {
    let mut none = permutations(Vec::<u32>::new(), 0);
    assert_eq!(none.size_hint(), (1, Some(1)));
    assert_eq!(none.next(), Some(Vec::new()));
    assert_eq!(none.size_hint(), (0, Some(0)));
    assert_eq!(none.next(), None);
    assert_eq!(none.size_hint(), (0, Some(0)));
    assert_eq!(none.next(), None);
    let mut some = permutations(vec![1u32, 2, 3], 0);
    assert_eq!(some.next(), Some(Vec::new()));
    assert_eq!(some.next(), None);
    assert_eq!(some.next(), None);
    let mut engine = CompleteState::Start { n: 3, k: 0 };
    engine.advance();
    assert!(matches!(engine.remaining(), CompleteStateRemaining::Known(0)));
    engine.advance();
    assert!(matches!(engine, CompleteState::Empty));
}

#[test]
fn width_one_ends_with_the_sequence() {
    assert_eq!(run_lazy(vec![5, 6, 7], 1), vec![vec![5], vec![6], vec![7]]);
    assert_eq!(run_lazy(vec![5], 1), vec![vec![5]]);
}

#[test]
fn slices_lend_their_values() {
    let values = [3u8, 4, 5];
    let mut p = permutations(&values[..], 2);
    let mut all = Vec::new();
    while let Some(t) = p.next() {
        all.push(t.iter().map(|x| **x).collect::<Vec<u8>>());
    }
    assert_eq!(all, vec![vec![3, 4], vec![3, 5], vec![4, 3], vec![4, 5], vec![5, 3], vec![5, 4]]);
}

#[test]
fn selections_of_an_iterator_of_unknown_length() {
    let mut p = permutations(Lazy((1u32..4).map(|x| x)), 2);
    assert_eq!(p.size_hint(), (0, None));
    assert_eq!(p.next(), Some(vec![1, 2]));
    assert_eq!(p.next(), Some(vec![1, 3]));
    assert_eq!(p.next(), Some(vec![2, 1]));
    assert_eq!(p.size_hint(), (3, Some(3)));
    assert_eq!(p.next(), Some(vec![2, 3]));
    assert_eq!(p.next(), Some(vec![3, 1]));
    assert_eq!(p.next(), Some(vec![3, 2]));
    assert_eq!(p.next(), None);
    let mut none = permutations(Lazy(vec![1u32, 2].into_iter()), 3);
    assert_eq!(none.size_hint(), (0, Some(0)));
    assert_eq!(none.next(), None);
    assert_eq!(none.next(), None);
    let mut endless = permutations(Lazy(0u64..), 2);
    assert_eq!(endless.next(), Some(vec![0, 1]));
    assert_eq!(endless.next(), Some(vec![0, 2]));
    assert_eq!(endless.next(), Some(vec![0, 3]));
    let mut one = permutations(Lazy(vec![9u32, 8].into_iter()), 0);
    assert_eq!(one.next(), Some(Vec::new()));
    assert_eq!(one.next(), None);
    let mut stepped = permutations(Lazy(vec![9u32, 8].into_iter()), 1);
    stepped.advance();
    stepped.advance();
    assert_eq!(stepped.next(), None);
}

#[test]
fn states_step_on_what_was_found() {
    assert!(matches!(
        PermutationState::begin(0, true),
        PermutationState::Complete(CompleteState::Start { n: 0, k: 0 })
    ));
    assert!(matches!(PermutationState::begin(2, true), PermutationState::StartUnknownLen { k: 2 }));
    assert!(matches!(PermutationState::begin(2, false), PermutationState::Empty));
    let start = PermutationState::StartUnknownLen { k: 2 };
    assert_eq!(start.probe(), None);
    let first = start.step(false);
    assert!(matches!(first, PermutationState::OngoingUnknownLen { k: 2, min_n: 2 }));
    assert_eq!(first.probe(), Some(2));
    let second = first.step(true);
    assert!(matches!(second, PermutationState::OngoingUnknownLen { k: 2, min_n: 3 }));
    assert_eq!(second.probe(), Some(3));
    match second.step(false) {
        PermutationState::Complete(CompleteState::Ongoing { indices, cycles }) => {
            assert_eq!(indices, vec![1, 0, 2]);
            assert_eq!(cycles, vec![1, 1]);
        }
        _ => panic!("the engine is not where the selections given left off"),
    }
    let only = PermutationState::OngoingUnknownLen { k: 1, min_n: 3 };
    assert!(matches!(
        only.step(false),
        PermutationState::Complete(CompleteState::Start { n: 3, k: 1 })
    ));
    assert!(matches!(PermutationState::Empty.step(true), PermutationState::Empty));
    assert_eq!(PermutationState::Empty.probe(), None);
}

#[test]
fn state_names_are_public() {
    let s = PermutationState::StartUnknownLen { k: 2 };
    assert!(matches!(s, PermutationState::StartUnknownLen { k: 2 }));
}
