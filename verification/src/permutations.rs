//! Ordered selections of `k` items, enumerated one at a time.

use vstd::prelude::*;
use vstd::std_specs::iter::IteratorSpec;
use crate::buffer::{Buffer, IntoBuffer};
use crate::ranking::{
    arrange, complement, digits_of, digits_ok, falling, iota, lemma_arrange_frontier,
    lemma_arrange_len, lemma_arrange_permutes, lemma_arrange_rotate, lemma_arrange_swap,
    lemma_arrange_zeros, lemma_digits_of_frontier, lemma_falling_frontier, lemma_falling_grows,
    lemma_falling_positive, lemma_falling_zero, lemma_rank_bounds, lemma_rank_carry,
    lemma_rank_complement, lemma_rank_digits_of, lemma_rank_nines, lemma_rank_prefix,
    lemma_rank_zeros, nines, nth_permutation, rank, rotated, swapped, zeros,
};

verus! {

/// How many selections an engine has still to give.
pub enum CompleteStateRemaining {
    /// Exactly this many.
    Known(usize),
    /// More than a `usize` can hold.
    Overflow,
}

/// The engine that enumerates the ordered selections of `k` out of the indices
/// `0..n`, in lexicographic order.
pub enum CompleteState {
    /// Not started, or through: the next step begins the enumeration.
    Start { n: usize, k: usize },
    /// At a selection: the first `cycles.len()` entries of `indices`.
    /// `cycles[i]` counts how often the entry at place `i` can still change
    /// before the place to its left has to.
    Ongoing { indices: Vec<usize>, cycles: Vec<usize> },
    /// Through for good: there was no selection to give, `k` being larger than
    /// `n`, or the one selection of no indices has been given.
    Empty,
}

/// The entries of `s` as mathematical integers.
pub open spec fn as_ints(s: Seq<usize>) -> Seq<int> {
    s.map_values(|x: usize| x as int)
}

fn swap_entries(v: &mut Vec<usize>, a: usize, b: usize)
    requires
        a < old(v).len(),
        b < old(v).len(),
    ensures
        final(v)@ == swapped(old(v)@, a as int, b as int),
{
    let x = v[a];
    let y = v[b];
    v[a] = y;
    v[b] = x;
}

impl CompleteState {
    /// The number of indices selected from.
    pub open spec fn n(&self) -> nat {
        match self {
            CompleteState::Start { n, .. } => *n as nat,
            CompleteState::Ongoing { indices, .. } => indices@.len(),
            CompleteState::Empty => 0,
        }
    }

    /// The number of indices in a selection.
    pub open spec fn k(&self) -> nat {
        match self {
            CompleteState::Start { k, .. } => *k as nat,
            CompleteState::Ongoing { cycles, .. } => cycles@.len(),
            CompleteState::Empty => 0,
        }
    }

    /// The digits of the selection the engine is at.
    pub open spec fn digits(&self) -> Seq<int> {
        match self {
            CompleteState::Ongoing { cycles, .. } => complement(self.n(), as_ints(cycles@)),
            _ => Seq::empty(),
        }
    }

    /// The engine's two rows agree: every counter is in range, and `indices` is
    /// the arrangement that the counters stand for.
    pub open spec fn wf(&self) -> bool {
        match self {
            CompleteState::Ongoing { indices, .. } => {
                &&& digits_ok(self.n(), self.digits())
                &&& as_ints(indices@) == arrange(iota(self.n()), self.digits())
            },
            _ => true,
        }
    }

    /// The place in lexicographic order of the selection the engine is at.
    pub open spec fn position(&self) -> nat {
        rank(self.n(), self.digits()) as nat
    }

    /// How many selections the engine gives before it is through.
    pub open spec fn left(&self) -> nat {
        match self {
            CompleteState::Start { n, k } => falling(*n as nat, *k as nat),
            CompleteState::Ongoing { .. } => (falling(self.n(), self.k()) - 1
                - self.position()) as nat,
            CompleteState::Empty => 0,
        }
    }

    /// How many selections the engine has still to give, or that the number is
    /// too large for a `usize`.
    pub fn remaining(&self) -> (r: CompleteStateRemaining)
        requires
            self.wf(),
        ensures
            self.left() <= usize::MAX ==> r == CompleteStateRemaining::Known(self.left() as usize),
            self.left() > usize::MAX ==> r == CompleteStateRemaining::Overflow,
    {
        match self {
            CompleteState::Start { n, k } => {
                let n: usize = *n;
                let k: usize = *k;
                if n < k {
                    proof {
                        lemma_falling_zero(n as nat, k as nat);
                    }
                    return CompleteStateRemaining::Known(0);
                }
                let ghost base = (n - k) as nat;
                let mut count: usize = 1;
                let mut m: usize = 0;
                while m < k
                    invariant
                        m <= k <= n,
                        base == n - k,
                        self.left() == falling(n as nat, k as nat),
                        count == falling(base + m as nat, m as nat),
                    decreases k - m,
                {
                    let factor: usize = n - k + 1 + m;
                    proof {
                        let so_far = falling(base + m as nat, m as nat);
                        assert(falling(base + m as nat + 1, m as nat + 1) == (base + m + 1) * so_far);
                        assert((base + m + 1) * count == count * factor) by (nonlinear_arith)
                            requires
                                factor == base + m + 1,
                        ;
                    }
                    match count.checked_mul(factor) {
                        Some(next) => {
                            count = next;
                        },
                        None => {
                            proof {
                                lemma_falling_grows(base, m as nat + 1, k as nat);
                            }
                            return CompleteStateRemaining::Overflow;
                        },
                    }
                    m += 1;
                }
                CompleteStateRemaining::Known(count)
            },
            CompleteState::Ongoing { indices, cycles } => {
                let n: usize = indices.len();
                let k: usize = cycles.len();
                let ghost counters = as_ints(cycles@);
                proof {
                    lemma_rank_complement(n as nat, counters);
                    lemma_rank_bounds(n as nat, self.digits());
                    assert(self.left() == rank(n as nat, counters));
                }
                let mut count: usize = 0;
                let mut i: usize = 0;
                while i < k
                    invariant
                        i <= k <= n,
                        cycles@.len() == k,
                        counters == as_ints(cycles@),
                        self.left() == rank(n as nat, counters),
                        count == rank(n as nat, counters.take(i as int)),
                    decreases k - i,
                {
                    let radix: usize = n - i;
                    let c: usize = cycles[i];
                    proof {
                        let longer = counters.take(i + 1);
                        assert(longer.drop_last() =~= counters.take(i as int));
                        assert(longer.last() == c);
                        assert(rank(n as nat, longer) == count * radix + c);
                        lemma_rank_prefix(n as nat, counters, (i + 1) as nat);
                    }
                    let scaled = match count.checked_mul(radix) {
                        Some(scaled) => scaled,
                        None => {
                            return CompleteStateRemaining::Overflow;
                        },
                    };
                    count = match scaled.checked_add(c) {
                        Some(next) => next,
                        None => {
                            return CompleteStateRemaining::Overflow;
                        },
                    };
                    i += 1;
                }
                proof {
                    assert(counters.take(k as int) =~= counters);
                }
                CompleteStateRemaining::Known(count)
            },
            CompleteState::Empty => CompleteStateRemaining::Known(0),
        }
    }

    /// `next` is this engine at the selection of place `j`.
    pub open spec fn at(&self, next: &CompleteState, j: nat) -> bool {
        &&& *next is Ongoing
        &&& next.n() == self.n()
        &&& next.k() == self.k()
        &&& next.position() == j
    }

    /// `next` is what one step makes of this engine. From `Start` that is the
    /// first selection, or `Empty` where `k` is larger than `n`. From a
    /// selection it is the one after it; from the last selection it is `Start`
    /// again, but `Empty` where the selection is the one of no indices, which
    /// is given once only. `Empty` stays.
    pub open spec fn steps_to(&self, next: &CompleteState) -> bool {
        &&& next.wf()
        &&& match self {
            CompleteState::Start { .. } => if self.k() <= self.n() {
                self.at(next, 0)
            } else {
                *next is Empty
            },
            CompleteState::Ongoing { .. } => if self.position() + 1 < falling(self.n(), self.k()) {
                self.at(next, self.position() + 1)
            } else if self.k() == 0 {
                *next is Empty
            } else {
                *next is Start && next.n() == self.n() && next.k() == self.k()
            },
            CompleteState::Empty => *next is Empty,
        }
    }

    /// The selection the engine is at: the first `k` entries of `indices`.
    pub open spec fn selection(&self) -> Seq<int> {
        match self {
            CompleteState::Ongoing { indices, cycles } => as_ints(indices@).take(
                cycles@.len() as int,
            ),
            _ => Seq::empty(),
        }
    }

    /// An engine at a selection is at the selection that stands at its place
    /// in lexicographic order.
    pub proof fn lemma_selection(&self)
        requires
            self.wf(),
            *self is Ongoing,
        ensures
            self.k() <= self.n(),
            self.position() < falling(self.n(), self.k()),
            self.selection() == nth_permutation(self.n(), self.k(), self.position()),
    {
        lemma_rank_bounds(self.n(), self.digits());
        lemma_rank_digits_of(self.n(), self.digits());
    }

    /// A run of the engine from `Start` gives every ordered selection of `k` out
    /// of the indices `0..n` once, in lexicographic order, and is through after
    /// the last: step `j + 1` of the run is at the selection of place `j` for
    /// every `j` below the count, and for `j` equal to it at `Start` again, or
    /// at `Empty` where `k` is 0.
    pub proof fn lemma_run(n: usize, k: usize, run: Seq<CompleteState>, j: nat)
        requires
            k <= n,
            j + 1 < run.len(),
            j <= falling(n as nat, k as nat),
            run[0] == (CompleteState::Start { n, k }),
            forall|i: int| 0 <= i < run.len() - 1 ==> (#[trigger] run[i]).steps_to(&run[i + 1]),
        ensures
            j < falling(n as nat, k as nat) ==> run[0].at(&run[j as int + 1], j)
                && run[j as int + 1].selection() == nth_permutation(n as nat, k as nat, j),
            j == falling(n as nat, k as nat) ==> !(run[j as int + 1] is Ongoing),
            j == falling(n as nat, k as nat) && k > 0 ==> run[j as int + 1] == run[0],
            j == falling(n as nat, k as nat) && k == 0 ==> run[j as int + 1] is Empty,
            run[j as int + 1].wf(),
        decreases j,
    {
        if j == 0 {
            assert(run[0].steps_to(&run[1]));
            lemma_falling_positive(n as nat, k as nat);
        } else {
            Self::lemma_run(n, k, run, (j - 1) as nat);
            assert(run[j as int].steps_to(&run[j as int + 1]));
        }
        if run[j as int + 1] is Ongoing {
            run[j as int + 1].lemma_selection();
        }
    }

    /// Steps to the next selection, if there is one.
    pub fn advance(&mut self)
        requires
            old(self).wf(),
        ensures
            old(self).steps_to(final(self)),
    {
        let mut held = CompleteState::Start { n: 0, k: 0 };
        core::mem::swap(self, &mut held);
        match held {
            CompleteState::Start { n, k } => {
                if k <= n {
                    let mut indices: Vec<usize> = Vec::new();
                    let mut i: usize = 0;
                    while i < n
                        invariant
                            i <= n,
                            indices@.len() == i,
                            forall|m: int| 0 <= m < i ==> indices@[m] == m,
                        decreases n - i,
                    {
                        indices.push(i);
                        i += 1;
                    }
                    let mut cycles: Vec<usize> = Vec::new();
                    let mut j: usize = 0;
                    while j < k
                        invariant
                            j <= k <= n,
                            cycles@.len() == j,
                            forall|m: int| 0 <= m < j ==> cycles@[m] == n - 1 - m,
                        decreases k - j,
                    {
                        cycles.push(n - 1 - j);
                        j += 1;
                    }
                    proof {
                        let ds = complement(n as nat, as_ints(cycles@));
                        assert(ds =~= zeros(k as nat));
                        assert(as_ints(indices@) =~= iota(n as nat));
                        lemma_arrange_zeros(iota(n as nat), Seq::<int>::empty(), k as nat);
                        assert(Seq::<int>::empty() + zeros(k as nat) =~= zeros(k as nat));
                        lemma_rank_zeros(n as nat, k as nat);
                    }
                    *self = CompleteState::Ongoing { indices, cycles };
                } else {
                    *self = CompleteState::Empty;
                }
            },
            CompleteState::Ongoing { indices, cycles } => {
                let mut indices = indices;
                let mut cycles = cycles;
                let n: usize = indices.len();
                let k: usize = cycles.len();
                let ghost before = old(self).digits();
                let ghost counters = as_ints(cycles@);
                let ghost pool = iota(n as nat);
                let mut i: usize = k;
                proof {
                    assert(before.take(k as int) =~= before);
                }
                while i > 0
                    invariant
                        i <= k <= n,
                        indices@.len() == n,
                        cycles@.len() == k,
                        pool == iota(n as nat),
                        *old(self) is Ongoing,
                        old(self).n() == n,
                        old(self).k() == k,
                        before == old(self).digits(),
                        counters.len() == k,
                        before == complement(n as nat, counters),
                        digits_ok(n as nat, before),
                        as_ints(indices@) == arrange(pool, before.take(i as int)),
                        forall|m: int| i <= m < k ==> #[trigger] counters[m] == 0,
                        forall|m: int| i <= m < k ==> #[trigger] cycles@[m] == n - 1 - m,
                        forall|m: int| 0 <= m < i ==> #[trigger] cycles@[m] == counters[m],
                    decreases i,
                {
                    let p: usize = i - 1;
                    let ghost ds = before.take(i as int);
                    let ghost arranged = as_ints(indices@);
                    proof {
                        assert(digits_ok(n as nat, ds));
                        lemma_arrange_len(pool, ds);
                        assert(ds.last() == before[p as int]);
                        assert(before[p as int] == n - 1 - p - counters[p as int]);
                    }
                    if cycles[p] == 0 {
                        cycles[p] = n - p - 1;
                        let x = indices.remove(p);
                        indices.push(x);
                        proof {
                            lemma_arrange_rotate(pool, ds);
                            assert(ds.drop_last() =~= before.take(p as int));
                            assert(as_ints(indices@) =~= rotated(arranged, p as int));
                        }
                    } else {
                        let c: usize = cycles[p];
                        let swap_index: usize = n - c;
                        swap_entries(&mut indices, p, swap_index);
                        cycles[p] = c - 1;
                        proof {
                            let d = before[p as int];
                            let grown = ds.update(p as int, d + 1);
                            let trail = (k - i) as nat;
                            lemma_arrange_swap(pool, ds);
                            assert(as_ints(indices@) =~= swapped(
                                arranged,
                                p as int,
                                swap_index as int,
                            ));
                            lemma_arrange_zeros(pool, grown, trail);
                            let after = complement(n as nat, as_ints(cycles@));
                            assert forall|m: int| 0 <= m < k implies after[m] == (grown + zeros(
                                trail,
                            ))[m] by {
                                if m < p {
                                    assert(cycles@[m] == counters[m]);
                                    assert(grown[m] == before[m]);
                                } else if m > p {
                                    assert(cycles@[m] == n - 1 - m);
                                }
                            }
                            assert(after =~= grown + zeros(trail));
                            let front = before.take(p as int);
                            assert(grown =~= front.push(d + 1));
                            assert(before =~= front.push(d) + nines(n as nat, i as nat, trail));
                            lemma_rank_carry(n as nat, front, d, trail);
                            lemma_rank_bounds(n as nat, after);
                            lemma_rank_bounds(n as nat, before);
                        }
                        *self = CompleteState::Ongoing { indices, cycles };
                        return ;
                    }
                    i -= 1;
                }
                proof {
                    assert(before =~= nines(n as nat, 0, k as nat));
                    lemma_rank_nines(n as nat, k as nat);
                }
                if k == 0 {
                    *self = CompleteState::Empty;
                } else {
                    *self = CompleteState::Start { n, k };
                }
            },
            CompleteState::Empty => {
                *self = CompleteState::Empty;
            },
        }
    }
}

/// `tuple` holds, in order, a clone of the value of `values` at each index of
/// `picks`.
pub open spec fn drawn<T: Clone>(values: Seq<T>, picks: Seq<int>, tuple: Seq<T>) -> bool {
    &&& tuple.len() == picks.len()
    &&& forall|i: int|
        0 <= i < picks.len() ==> 0 <= #[trigger] picks[i] < values.len() && cloned(
            values[picks[i]],
            tuple[i],
        )
}

/// What is drawn from a sequence is drawn from every sequence that begins with
/// it.
pub proof fn lemma_drawn_longer<T: Clone>(held: Seq<T>, rest: Seq<T>)
    ensures
        held.is_prefix_of(held + rest),
        forall|picks: Seq<int>, tuple: Seq<T>| #[trigger]
            drawn(held, picks, tuple) ==> drawn(held + rest, picks, tuple),
{
    let whole = held + rest;
    assert(held.is_prefix_of(whole));
    assert forall|picks: Seq<int>, tuple: Seq<T>| #[trigger]
        drawn(held, picks, tuple) implies drawn(whole, picks, tuple) by {
        assert forall|i: int| 0 <= i < picks.len() implies 0 <= #[trigger] picks[i] < whole.len()
            && cloned(whole[picks[i]], tuple[i]) by {
            assert(whole[picks[i]] == held[picks[i]]);
        }
    }
}

/// Clones of the values at the first `k` indices of `picks`, all of which the
/// buffer knows: it is not changed.
fn draw<S, B: Buffer<S>>(vals: &mut B, picks: &Vec<usize>, k: usize) -> (tuple: Vec<B::Item>)
    requires
        old(vals).wf(),
        k <= picks@.len(),
        forall|i: int| 0 <= i < k ==> #[trigger] picks@[i] < old(vals).cached().len(),
    ensures
        *final(vals) == *old(vals),
        drawn(old(vals).cached(), as_ints(picks@).take(k as int), tuple@),
{
    let mut tuple: Vec<B::Item> = Vec::new();
    let mut i: usize = 0;
    while i < k
        invariant
            i <= k <= picks@.len(),
            *vals == *old(vals),
            vals.wf(),
            forall|m: int| 0 <= m < k ==> #[trigger] picks@[m] < vals.cached().len(),
            tuple@.len() == i,
            forall|m: int|
                0 <= m < i ==> cloned(vals.cached()[#[trigger] picks@[m] as int], tuple@[m]),
        decreases k - i,
    {
        let index: usize = picks[i];
        let value = vals.get(index).unwrap();
        tuple.push(value);
        i += 1;
    }
    proof {
        let taken = as_ints(picks@).take(k as int);
        assert forall|m: int| 0 <= m < taken.len() implies 0 <= #[trigger] taken[m]
            < vals.cached().len() && cloned(vals.cached()[taken[m]], tuple@[m]) by {
            assert(taken[m] == picks@[m]);
        }
    }
    tuple
}

/// Where an enumeration of selections over a buffer stands.
pub enum PermutationState {
    /// Nothing given yet; the sequence has at least `k` values.
    StartUnknownLen { k: usize },
    /// The sequence has at least `min_n` values, and the selections that end
    /// in each of the indices `k - 1..min_n` have been given.
    OngoingUnknownLen { k: usize, min_n: usize },
    /// The length of the sequence is known; the engine goes on from here.
    Complete(CompleteState),
    /// The sequence has fewer than `k` values: there is no selection.
    Empty,
}

impl PermutationState {
    /// The state's own parts agree: a selection has a value, the sequence is
    /// known to be no shorter than a selection, and the engine is valid.
    pub open spec fn valid(&self) -> bool {
        match self {
            PermutationState::StartUnknownLen { k } => 1 <= *k,
            PermutationState::OngoingUnknownLen { k, min_n } => 1 <= *k <= *min_n,
            PermutationState::Complete(engine) => engine.wf(),
            PermutationState::Empty => true,
        }
    }

    /// The index that a step from this state asks the buffer for, if it asks.
    pub open spec fn probed(&self) -> Option<usize> {
        match self {
            PermutationState::OngoingUnknownLen { min_n, .. } => Some(*min_n),
            _ => None,
        }
    }

    /// `next` is what a step makes of this state, `found` saying whether the
    /// buffer had a value at the index asked for. Before the first selection
    /// the step gives it. While the length is unknown, a value found makes the
    /// sequence one longer; none found makes its length known, and the engine
    /// for that length stands after the selections already given: at place
    /// `min_n - k + 1`, or at `Start` where there is no such place. Once the
    /// length is known the engine steps.
    pub open spec fn steps_with(&self, found: bool, next: &PermutationState) -> bool {
        match self {
            PermutationState::StartUnknownLen { k } => *next
                == (PermutationState::OngoingUnknownLen { k: *k, min_n: *k }),
            PermutationState::OngoingUnknownLen { k, min_n } => if found {
                *next == (PermutationState::OngoingUnknownLen {
                    k: *k,
                    min_n: (*min_n + 1) as usize,
                })
            } else {
                &&& *next matches PermutationState::Complete(engine)
                &&& engine.wf()
                &&& engine.n() == *min_n
                &&& engine.k() == *k
                &&& if *min_n - *k + 1 < falling(*min_n as nat, *k as nat) {
                    engine is Ongoing && engine.position() == *min_n - *k + 1
                } else {
                    engine is Start
                }
            },
            PermutationState::Complete(engine) => {
                &&& *next matches PermutationState::Complete(after)
                &&& engine.steps_to(&after)
            },
            PermutationState::Empty => *next == PermutationState::Empty,
        }
    }

    /// The state that an enumeration of selections of `k` values begins in,
    /// `found` saying whether the sequence has a value at `k - 1`: the engine
    /// for the one selection of no values, or the state before the first
    /// selection, or `Empty` where nothing was found.
    pub open spec fn begin_spec(k: usize, found: bool) -> PermutationState {
        if k == 0 {
            PermutationState::Complete(CompleteState::Start { n: 0, k: 0 })
        } else if found {
            PermutationState::StartUnknownLen { k }
        } else {
            PermutationState::Empty
        }
    }

    /// The state that an enumeration of selections of `k` values begins in,
    /// `found` saying whether the buffer had a value at `k - 1`. For `k == 0`
    /// the buffer is not asked and `found` does not count.
    pub fn begin(k: usize, found: bool) -> (state: PermutationState)
        ensures
            state.valid(),
            state == Self::begin_spec(k, found),
    {
        if k == 0 {
            PermutationState::Complete(CompleteState::Start { n: 0, k: 0 })
        } else if found {
            PermutationState::StartUnknownLen { k }
        } else {
            PermutationState::Empty
        }
    }

    /// The index to ask the buffer for before the next step, if any.
    pub fn probe(&self) -> (r: Option<usize>)
        ensures
            r == self.probed(),
    {
        match self {
            PermutationState::OngoingUnknownLen { min_n, .. } => Some(*min_n),
            _ => None,
        }
    }

    /// One step of the state, `found` saying whether the buffer had a value at
    /// the index that `probe` gave. Where the length of the sequence has
    /// become known, the engine is set to it and run forward past the
    /// selections already given.
    pub fn step(self, found: bool) -> (next: PermutationState)
        requires
            self.valid(),
            found && self.probed() is Some ==> self.probed()->0 < usize::MAX,
        ensures
            self.steps_with(found, &next),
            next.valid(),
    {
        match self {
            PermutationState::StartUnknownLen { k } => PermutationState::OngoingUnknownLen {
                k,
                min_n: k,
            },
            PermutationState::OngoingUnknownLen { k, min_n } => {
                if found {
                    PermutationState::OngoingUnknownLen { k, min_n: min_n + 1 }
                } else {
                    let n: usize = min_n;
                    let prev_iteration_count: usize = n - k + 1;
                    let mut engine = CompleteState::Start { n, k };
                    engine.advance();
                    proof {
                        lemma_falling_frontier(n as nat, k as nat);
                    }
                    let mut done: usize = 0;
                    while done < prev_iteration_count
                        invariant
                            1 <= k <= n,
                            prev_iteration_count == n - k + 1,
                            prev_iteration_count <= falling(n as nat, k as nat),
                            done <= prev_iteration_count,
                            engine.wf(),
                            engine.n() == n,
                            engine.k() == k,
                            done < falling(n as nat, k as nat) ==> engine is Ongoing
                                && engine.position() == done,
                            done >= falling(n as nat, k as nat) ==> engine is Start,
                        decreases prev_iteration_count - done,
                    {
                        engine.advance();
                        done += 1;
                    }
                    PermutationState::Complete(engine)
                }
            },
            PermutationState::Complete(engine) => {
                let mut engine = engine;
                engine.advance();
                PermutationState::Complete(engine)
            },
            PermutationState::Empty => PermutationState::Empty,
        }
    }

    /// The number of values in a selection.
    pub open spec fn width(&self) -> nat {
        match self {
            PermutationState::StartUnknownLen { k } => *k as nat,
            PermutationState::OngoingUnknownLen { k, .. } => *k as nat,
            PermutationState::Complete(engine) => engine.k(),
            PermutationState::Empty => 0,
        }
    }

    /// How many selections have been given since the enumeration began.
    pub open spec fn emitted(&self) -> nat {
        match self {
            PermutationState::StartUnknownLen { .. } => 0,
            PermutationState::OngoingUnknownLen { k, min_n } => (*min_n - *k + 1) as nat,
            PermutationState::Complete(engine) => if *engine is Ongoing {
                engine.position() + 1
            } else {
                0
            },
            PermutationState::Empty => 0,
        }
    }

    /// The indices of the selection given last, if one was.
    pub open spec fn selection(&self) -> Seq<int> {
        match self {
            PermutationState::OngoingUnknownLen { k, min_n } => iota((*k - 1) as nat).push(
                *min_n - 1,
            ),
            PermutationState::Complete(engine) => engine.selection(),
            _ => Seq::empty(),
        }
    }

    /// The selection given last is the one that stands, among the selections
    /// out of `n` indices, at the place before the number given so far: also
    /// while the state does not know `n`.
    pub proof fn lemma_selection_at(&self, n: nat)
        requires
            match self {
                PermutationState::OngoingUnknownLen { k, min_n } => 1 <= *k <= *min_n <= n,
                PermutationState::Complete(engine) => engine.wf() && *engine is Ongoing
                    && engine.n() == n,
                _ => false,
            },
        ensures
            self.emitted() >= 1,
            self.selection() == nth_permutation(n, self.width(), (self.emitted() - 1) as nat),
    {
        match self {
            PermutationState::OngoingUnknownLen { k, min_n } => {
                let j = (*min_n - *k) as nat;
                let front = (*k - 1) as nat;
                lemma_digits_of_frontier(n, *k as nat, j);
                lemma_arrange_frontier(iota(n), front, j);
                assert(iota(n).take(front as int) =~= iota(front));
            },
            PermutationState::Complete(engine) => {
                engine.lemma_selection();
            },
            _ => {},
        }
    }

    /// The enumeration is through for good.
    pub open spec fn through(&self) -> bool {
        match self {
            PermutationState::Complete(engine) => *engine is Empty,
            PermutationState::Empty => true,
            _ => false,
        }
    }

    /// A selection was given last: the state is neither a start nor an end.
    pub open spec fn at_selection(&self) -> bool {
        match self {
            PermutationState::OngoingUnknownLen { .. } => true,
            PermutationState::Complete(engine) => *engine is Ongoing,
            _ => false,
        }
    }
}

/// The ordered selections of `k` values out of a sequence, one at a time, the
/// sequence read only as far as the selections given so far need it.
pub struct Permutations<I: IntoBuffer> {
    vals: I::Into,
    state: PermutationState,
}

/// Begins the enumeration of the ordered selections of `k` values of `iter`.
/// For `k == 0` nothing is asked of the buffer; otherwise it is asked for the
/// value at `k - 1`, to see whether there is any selection. The buffer of the
/// result is the buffer made of `iter`, after that one question: its source
/// has been asked for `k` values at most, and where an iterator that keeps the
/// laws of iterators feeds it, nothing of the sequence is lost, and the state
/// is `Empty` exactly where the whole sequence has fewer than `k` values.
pub fn permutations<I: IntoBuffer>(iter: I, k: usize) -> (p: Permutations<I>)
    ensures
        p.wf(),
        k == 0 ==> p.state() == PermutationState::Complete(CompleteState::Start { n: 0, k: 0 })
            && call_ensures(<I::Into as Buffer<I>>::from_source, (iter,), p.buffer()),
        k > 0 && p.buffer().cached().len() >= k ==> p.state()
            == (PermutationState::StartUnknownLen { k }),
        k > 0 && p.buffer().cached().len() < k ==> p.state() == PermutationState::Empty
            && p.buffer().exhausted(),
        p.state() == PermutationState::begin_spec(k, k <= p.buffer().cached().len()),
        k > 0 ==> exists|fresh: I::Into| #[trigger]
            call_ensures(<I::Into as Buffer<I>>::from_source, (iter,), fresh) && {
                &&& fresh.cached().is_prefix_of(p.buffer().cached())
                &&& fresh.exhausted() || k <= fresh.cached().len() ==> p.buffer() == fresh
                &&& p.buffer().cached().len() <= fresh.cached().len() || p.buffer().cached().len()
                    <= k
                &&& fresh.pulls() <= p.buffer().pulls()
                &&& p.buffer().pulls() <= fresh.pulls() || p.buffer().pulls() <= k
                &&& p.buffer().feed().obeys_prophetic_iter_laws()
                    == fresh.feed().obeys_prophetic_iter_laws()
                &&& fresh.feed().obeys_prophetic_iter_laws() && (fresh.exhausted()
                    ==> fresh.feed().remaining().len() == 0) ==> {
                    &&& p.buffer().cached() + p.buffer().feed().remaining() == fresh.cached()
                        + fresh.feed().remaining()
                    &&& p.buffer().exhausted() ==> p.buffer().feed().remaining().len() == 0
                    &&& p.state() == PermutationState::begin_spec(
                        k,
                        k <= (fresh.cached() + fresh.feed().remaining()).len(),
                    )
                }
            },
{
    let mut vals = <I::Into as Buffer<I>>::from_source(iter);
    if k == 0 {
        let state = PermutationState::begin(0, false);
        return Permutations { vals, state };
    }
    let ghost fresh = vals;
    let found = vals.get(k - 1).is_some();
    let state = PermutationState::begin(k, found);
    proof {
        assert(call_ensures(<I::Into as Buffer<I>>::from_source, (iter,), fresh));
    }
    Permutations { vals, state }
}

impl<I: IntoBuffer> Permutations<I> {
    /// The buffer that the values are taken from.
    pub closed spec fn buffer(&self) -> I::Into {
        self.vals
    }

    /// Where the enumeration stands.
    pub closed spec fn state(&self) -> PermutationState {
        self.state
    }

    /// The state fits what the buffer knows: while the length is unknown the
    /// buffer holds every index used so far, and once the engine runs, the
    /// buffer is exhausted and holds as many values as the engine counts.
    pub open spec fn wf(&self) -> bool {
        &&& self.buffer().wf()
        &&& match self.state() {
            PermutationState::StartUnknownLen { k } => 1 <= k <= self.buffer().cached().len()
                <= usize::MAX,
            PermutationState::OngoingUnknownLen { k, min_n } => 1 <= k <= min_n
                <= self.buffer().cached().len() <= usize::MAX,
            PermutationState::Complete(engine) => {
                &&& engine.wf()
                &&& engine.k() <= engine.n()
                &&& if engine.k() == 0 {
                    engine.n() == 0
                } else {
                    self.buffer().exhausted() && engine.n() == self.buffer().cached().len()
                }
            },
            PermutationState::Empty => true,
        }
    }

    /// `next` is what one step makes of this enumeration. The buffer is asked
    /// for no more than the state's next index, and is unchanged where nothing
    /// is asked of it or it has seen the end; the state steps on what the
    /// buffer then knows.
    pub open spec fn steps_to(&self, next: &Self) -> bool {
        &&& next.wf()
        &&& self.buffer().cached().is_prefix_of(next.buffer().cached())
        &&& self.buffer().exhausted() ==> next.buffer() == self.buffer()
        &&& match self.state().probed() {
            Some(index) => {
                &&& next.buffer().cached().len() <= self.buffer().cached().len()
                    || next.buffer().cached().len() <= index + 1
                &&& index >= next.buffer().cached().len() ==> next.buffer().exhausted()
                &&& self.state().steps_with(
                    index < next.buffer().cached().len(),
                    &next.state(),
                )
            },
            None => {
                &&& next.buffer() == self.buffer()
                &&& self.state().steps_with(false, &next.state())
            },
        }
    }

    /// The next selection, or `None` when the enumeration is through. The
    /// values are clones of the buffer's, in the order of the selection.
    /// After the `None` that ends it, an enumeration of selections of one value
    /// or more begins again; one that has nothing to give, or has given the one
    /// selection of no values, stays through.
    ///
    /// Where the buffer is fed by an iterator that keeps the laws of iterators,
    /// the values are clones of those that the selection picks from the whole
    /// sequence: what the buffer held and the iterator had still to give.
    pub fn next(&mut self) -> (r: Option<Vec<<I::Into as Buffer<I>>::Item>>)
        requires
            old(self).wf(),
        ensures
            old(self).steps_to(final(self)),
            r is Some <==> final(self).state().at_selection(),
            r is Some ==> drawn(
                final(self).buffer().cached(),
                final(self).state().selection(),
                r->0@,
            ),
            old(self).buffer().pulls() <= final(self).buffer().pulls(),
            ({
                let asked = old(self).state().probed();
                let before = old(self).buffer().pulls();
                let after = final(self).buffer().pulls();
                after <= before || (asked is Some && after <= asked->0 + 1)
            }),
            ({
                let before = old(self).buffer();
                let after = final(self).buffer();
                let whole = before.cached() + before.feed().remaining();
                &&& after.feed().obeys_prophetic_iter_laws()
                    == before.feed().obeys_prophetic_iter_laws()
                &&& before.feed().obeys_prophetic_iter_laws() && (before.exhausted()
                    ==> before.feed().remaining().len() == 0) ==> {
                    &&& after.cached() + after.feed().remaining() == whole
                    &&& after.exhausted() ==> after.feed().remaining().len() == 0
                    &&& old(self).state().probed() is Some ==> (old(self).state().probed()->0
                        < after.cached().len() <==> old(self).state().probed()->0 < whole.len())
                    &&& r is Some ==> drawn(whole, final(self).state().selection(), r->0@)
                }
            }),
    {
        self.advance();
        let ghost stepped = *self;
        let r = self.emit();
        proof {
            lemma_drawn_longer(stepped.buffer().cached(), stepped.buffer().feed().remaining());
        }
        r
    }

    /// The selection that the state is at, drawn from the buffer, which knows
    /// every value of it: nothing is changed.
    fn emit(&mut self) -> (r: Option<Vec<<I::Into as Buffer<I>>::Item>>)
        requires
            old(self).wf(),
        ensures
            *final(self) == *old(self),
            r is Some <==> old(self).state().at_selection(),
            r is Some ==> drawn(old(self).buffer().cached(), old(self).state().selection(), r->0@),
    {
        match &self.state {
            PermutationState::StartUnknownLen { .. } => None,
            PermutationState::OngoingUnknownLen { k, min_n } => {
                let k: usize = *k;
                let latest_idx: usize = *min_n - 1;
                let mut picks: Vec<usize> = Vec::new();
                let mut i: usize = 0;
                while i < k - 1
                    invariant
                        1 <= k,
                        i <= k - 1,
                        picks@.len() == i,
                        forall|m: int| 0 <= m < i ==> #[trigger] picks@[m] == m,
                    decreases k - 1 - i,
                {
                    picks.push(i);
                    i += 1;
                }
                picks.push(latest_idx);
                proof {
                    assert(as_ints(picks@).take(k as int) =~= iota((k - 1) as nat).push(
                        latest_idx as int,
                    ));
                }
                Some(draw(&mut self.vals, &picks, k))
            },
            PermutationState::Complete(CompleteState::Start { .. }) => None,
            PermutationState::Complete(CompleteState::Empty) => None,
            PermutationState::Complete(CompleteState::Ongoing { indices, cycles }) => {
                let k: usize = cycles.len();
                proof {
                    let n = indices@.len();
                    let digits = complement(n, as_ints(cycles@));
                    lemma_arrange_permutes(iota(n), digits);
                    assert forall|i: int| 0 <= i < k implies #[trigger] indices@[i] < n by {
                        assert(as_ints(indices@)[i] == indices@[i]);
                        assert(arrange(iota(n), digits).contains(as_ints(indices@)[i]));
                        assert(iota(n).contains(indices@[i] as int));
                    }
                }
                Some(draw(&mut self.vals, indices, k))
            },
            PermutationState::Empty => None,
        }
    }

    /// Bounds on how many selections are still to come: none while the length
    /// of the sequence is unknown, the exact number once it is known, and for a
    /// number too large for a `usize` the lower bound `usize::MAX` and no upper
    /// one.
    pub fn size_hint(&self) -> (r: (usize, Option<usize>))
        requires
            self.wf(),
        ensures
            match self.state() {
                PermutationState::StartUnknownLen { .. } => r == (0usize, None::<usize>),
                PermutationState::OngoingUnknownLen { .. } => r == (0usize, None::<usize>),
                PermutationState::Complete(engine) => if engine.left() <= usize::MAX {
                    r == (engine.left() as usize, Some(engine.left() as usize))
                } else {
                    r == (usize::MAX, None::<usize>)
                },
                PermutationState::Empty => r == (0usize, Some(0usize)),
            },
    {
        match &self.state {
            PermutationState::StartUnknownLen { .. } => (0, None),
            PermutationState::OngoingUnknownLen { .. } => (0, None),
            PermutationState::Complete(engine) => match engine.remaining() {
                CompleteStateRemaining::Known(count) => (count, Some(count)),
                CompleteStateRemaining::Overflow => (usize::MAX, None),
            },
            PermutationState::Empty => (0, Some(0)),
        }
    }

    /// What the buffer knows fits a sequence of `n` values.
    pub open spec fn fits(&self, n: nat) -> bool {
        &&& self.buffer().cached().len() <= n
        &&& self.buffer().exhausted() ==> self.buffer().cached().len() == n
    }

    /// The enumeration over a sequence of `n` values gives the same selections,
    /// in the same order, as the engine that knows `n` from the start, however
    /// little of the sequence the buffer held when each was given: a step from
    /// a state that has given `j` selections gives the selection of place `j`
    /// where `j` is below the count, and none where it is not.
    pub proof fn lemma_step(&self, next: &Self, n: nat)
        requires
            self.wf(),
            self.fits(n),
            next.fits(n),
            self.steps_to(next),
            !self.state().through(),
        ensures
            next.state().width() == self.state().width(),
            self.state().emitted() <= falling(n, self.state().width()),
            self.state().emitted() < falling(n, self.state().width())
                ==> next.state().at_selection() && next.state().emitted() == self.state().emitted()
                + 1 && next.state().selection() == nth_permutation(
                n,
                self.state().width(),
                self.state().emitted(),
            ),
            self.state().emitted() == falling(n, self.state().width())
                ==> !next.state().at_selection() && next.state().emitted() == 0,
    {
        match self.state() {
            PermutationState::StartUnknownLen { k } => {
                lemma_falling_positive(n, k as nat);
                next.state().lemma_selection_at(n);
            },
            PermutationState::OngoingUnknownLen { k, min_n } => {
                lemma_falling_frontier(n, k as nat);
                if min_n < next.buffer().cached().len() {
                    next.state().lemma_selection_at(n);
                } else {
                    if next.state().at_selection() {
                        next.state().lemma_selection_at(n);
                    }
                }
            },
            PermutationState::Complete(engine) => {
                let after = next.state()->Complete_0;
                if engine.k() == 0 {
                    assert(falling(n, 0) == 1);
                    assert(falling(0, 0) == 1);
                    if engine is Ongoing {
                        lemma_rank_bounds(0, engine.digits());
                    } else {
                        assert(after.selection() =~= Seq::<int>::empty());
                        assert(digits_of(n, 0, 0) =~= Seq::<int>::empty());
                        assert(nth_permutation(n, 0, 0) =~= Seq::<int>::empty());
                    }
                } else {
                    if engine is Ongoing {
                        lemma_rank_bounds(n, engine.digits());
                    } else {
                        lemma_falling_positive(n, engine.k());
                    }
                    if after is Ongoing {
                        after.lemma_selection();
                    }
                }
            },
            PermutationState::Empty => {},
        }
    }

    /// A run of the enumeration over a sequence of `n` values, from before the
    /// first selection, gives the selections of the engine that knows `n`, each
    /// once and in the same order, and then none: step `j + 1` of the run is at
    /// the selection of place `j` for every `j` below the count, and at none
    /// for `j` equal to it.
    pub proof fn lemma_run(run: Seq<Self>, n: nat, j: nat)
        requires
            j + 1 < run.len(),
            run[0].wf(),
            !run[0].state().through(),
            run[0].state().emitted() == 0,
            j <= falling(n, run[0].state().width()),
            forall|i: int| 0 <= i < run.len() ==> (#[trigger] run[i]).fits(n),
            forall|i: int| 0 <= i < run.len() - 1 ==> (#[trigger] run[i]).steps_to(&run[i + 1]),
        ensures
            run[j as int + 1].wf(),
            run[j as int + 1].state().width() == run[0].state().width(),
            j < falling(n, run[0].state().width()) ==> run[j as int + 1].state().at_selection()
                && run[j as int + 1].state().emitted() == j + 1 && run[j as int
                + 1].state().selection() == nth_permutation(n, run[0].state().width(), j),
            j == falling(n, run[0].state().width()) ==> !run[j as int + 1].state().at_selection(),
        decreases j,
    {
        if j == 0 {
            assert(run[0].steps_to(&run[1]));
            run[0].lemma_step(&run[1], n);
        } else {
            Self::lemma_run(run, n, (j - 1) as nat);
            assert(run[j as int].steps_to(&run[j as int + 1]));
            run[j as int].lemma_step(&run[j as int + 1], n);
        }
    }

    /// A buffer that holds a beginning of `whole`, its iterator holding the
    /// rest, and that holds all of it once it has seen the end, fits the length
    /// of `whole`.
    pub proof fn lemma_fits_whole(&self, whole: Seq<<I::Into as Buffer<I>>::Item>)
        requires
            self.buffer().cached() + self.buffer().feed().remaining() == whole,
            self.buffer().exhausted() ==> self.buffer().feed().remaining().len() == 0,
        ensures
            self.fits(whole.len()),
            self.buffer().cached().is_prefix_of(whole),
    {
        lemma_drawn_longer(self.buffer().cached(), self.buffer().feed().remaining());
    }

    /// A run of the enumeration over a buffer fed by an iterator gives the
    /// selections of the engine that knows the length of the whole sequence,
    /// each once and in the same order, and then none. The whole sequence is
    /// what the buffer holds and the iterator has still to give, which every
    /// step of an enumeration over a lawful iterator keeps.
    pub proof fn lemma_run_fed(run: Seq<Self>, whole: Seq<<I::Into as Buffer<I>>::Item>, j: nat)
        requires
            j + 1 < run.len(),
            run[0].wf(),
            !run[0].state().through(),
            run[0].state().emitted() == 0,
            j <= falling(whole.len(), run[0].state().width()),
            forall|i: int|
                0 <= i < run.len() ==> (#[trigger] run[i]).buffer().cached()
                    + run[i].buffer().feed().remaining() == whole && (run[i].buffer().exhausted()
                    ==> run[i].buffer().feed().remaining().len() == 0),
            forall|i: int| 0 <= i < run.len() - 1 ==> (#[trigger] run[i]).steps_to(&run[i + 1]),
        ensures
            run[j as int + 1].wf(),
            run[j as int + 1].buffer().cached().is_prefix_of(whole),
            ({
                let n = whole.len();
                let k = run[0].state().width();
                &&& j < falling(n, k) ==> run[j as int + 1].state().at_selection() && run[j as int
                    + 1].state().emitted() == j + 1 && run[j as int + 1].state().selection()
                    == nth_permutation(n, k, j)
                &&& j == falling(n, k) ==> !run[j as int + 1].state().at_selection()
            }),
    {
        assert forall|i: int| 0 <= i < run.len() implies (#[trigger] run[i]).fits(whole.len()) by {
            run[i].lemma_fits_whole(whole);
        }
        run[j as int + 1].lemma_fits_whole(whole);
        Self::lemma_run(run, whole.len(), j);
    }

    /// A buffer that has seen the end stays as it is through every step of a
    /// run.
    pub proof fn lemma_known_stays(run: Seq<Self>, i: nat)
        requires
            i < run.len(),
            run[0].buffer().exhausted(),
            forall|m: int| 0 <= m < run.len() - 1 ==> (#[trigger] run[m]).steps_to(&run[m + 1]),
        ensures
            run[i as int].buffer() == run[0].buffer(),
        decreases i,
    {
        if i > 0 {
            Self::lemma_known_stays(run, (i - 1) as nat);
            assert(run[i - 1].steps_to(&run[i as int]));
        }
    }

    /// A run of the enumeration over a buffer that knows its whole sequence of
    /// `n` values from the start gives the selections of `k` out of `n`, each
    /// once and in lexicographic order, and then none: step `j + 1` of the run
    /// is at the selection of place `j` for every `j` below the count, and at
    /// none for `j` equal to it. There is no selection where `n` is below `k`.
    pub proof fn lemma_run_known(run: Seq<Self>, j: nat)
        requires
            j + 1 < run.len(),
            run[0].wf(),
            !run[0].state().through(),
            run[0].state().emitted() == 0,
            run[0].buffer().exhausted(),
            j <= falling(run[0].buffer().cached().len(), run[0].state().width()),
            forall|i: int| 0 <= i < run.len() - 1 ==> (#[trigger] run[i]).steps_to(&run[i + 1]),
        ensures
            run[j as int + 1].wf(),
            run[j as int + 1].buffer() == run[0].buffer(),
            ({
                let n = run[0].buffer().cached().len();
                let k = run[0].state().width();
                &&& j < falling(n, k) ==> run[j as int + 1].state().at_selection() && run[j as int
                    + 1].state().emitted() == j + 1 && run[j as int + 1].state().selection()
                    == nth_permutation(n, k, j)
                &&& j == falling(n, k) ==> !run[j as int + 1].state().at_selection()
            }),
    {
        let n = run[0].buffer().cached().len();
        assert forall|i: int| 0 <= i < run.len() implies (#[trigger] run[i]).fits(n) by {
            Self::lemma_known_stays(run, i as nat);
        }
        Self::lemma_known_stays(run, j + 1);
        Self::lemma_run(run, n, j);
    }

    /// One step of the enumeration. While the length is unknown, the buffer is
    /// asked for one more value; when there is none, the engine is set to the
    /// length found and run forward past the selections already given.
    ///
    /// The source is asked for a value only while the length is unknown, and
    /// then for no more than make the buffer hold the index wanted. Where the
    /// buffer is fed by an iterator that keeps the laws of iterators, what the
    /// buffer holds and what the iterator has still to give are together the
    /// same sequence before and after, and a buffer that has seen the end
    /// leaves nothing to give.
    pub fn advance(&mut self)
        requires
            old(self).wf(),
        ensures
            old(self).steps_to(final(self)),
            old(self).buffer().pulls() <= final(self).buffer().pulls(),
            ({
                let asked = old(self).state().probed();
                let before = old(self).buffer().pulls();
                let after = final(self).buffer().pulls();
                after <= before || (asked is Some && after <= asked->0 + 1)
            }),
            ({
                let before = old(self).buffer();
                let after = final(self).buffer();
                let whole = before.cached() + before.feed().remaining();
                &&& after.feed().obeys_prophetic_iter_laws()
                    == before.feed().obeys_prophetic_iter_laws()
                &&& before.feed().obeys_prophetic_iter_laws() && (before.exhausted()
                    ==> before.feed().remaining().len() == 0) ==> {
                    &&& after.cached() + after.feed().remaining() == whole
                    &&& after.exhausted() ==> after.feed().remaining().len() == 0
                    &&& old(self).state().probed() is Some ==> (old(self).state().probed()->0
                        < after.cached().len() <==> old(self).state().probed()->0 < whole.len())
                }
            }),
    {
        let found = match self.state.probe() {
            Some(index) => self.vals.get(index).is_some(),
            None => false,
        };
        let mut state = PermutationState::Empty;
        core::mem::swap(&mut self.state, &mut state);
        self.state = state.step(found);
    }
}

} // verus!
