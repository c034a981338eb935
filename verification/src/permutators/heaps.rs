//! # Heaps Permutator
//!
//! This is the naive permutator, which just returns all permutations in a non-specific ordering.
use vstd::prelude::*;
use std::marker::PhantomData;
use crate::modifier_ordering::ModifierOrdering;
use crate::permutators::lex_count::factorial;
use crate::permutators::heap_order::{is_perm, lemma_pc_injective, lemma_pc_perm, lemma_pc_step, lemma_pc_zeros, pc, step_counters, valid_below};
use crate::permutators::{clones_of, lemma_swap_multiset, lemma_sorted_from, sorted_from, swap_items, swapped, Permutator};

verus! {

/// # Heaps Permutator
///
/// The permutator will not try to find an intelligent ordering. It implements the Heaps algorithm.
/// Before the algorithm starts, the data is sorted by the given ordering.
pub struct HeapsPermutator<O, T> {
    data: Vec<T>,
    state: Vec<usize>,
    i: usize,
    len: usize,
    started: bool,
    ordering: PhantomData<O>,
}

impl<O, T> HeapsPermutator<O, T> {
    /// The data in its current order: the last permutation returned.
    pub closed spec fn data_view(&self) -> Seq<T> {
        self.data@
    }

    /// The counters of the algorithm, one per position.
    pub closed spec fn counters(&self) -> Seq<usize> {
        self.state@
    }

    /// The position at which the algorithm goes on.
    pub closed spec fn position(&self) -> int {
        self.i as int
    }

    /// Whether the first permutation was already returned.
    pub closed spec fn has_started(&self) -> bool {
        self.started
    }

    /// What the next call of `next` returns: first the data, then the data after each step of
    /// the algorithm, and `None` once every counter is through.
    pub open spec fn upcoming(&self) -> Option<Seq<T>> {
        if !self.has_started() {
            Some(self.data_view())
        } else {
            let (data, _, _, found) = heap_step(self.data_view(), self.counters(), self.position());
            if found {
                Some(data)
            } else {
                None
            }
        }
    }
}

/// One step of Heap's algorithm from position `i`: the first position `i` from there whose
/// counter is below `i` swaps its element with the first one (for an even `i`) or with the one
/// its counter names (for an odd `i`), counts up, and the algorithm goes on from position 0; the
/// positions passed over have their counters set back to 0. The result holds the data, the
/// counters, the position, and whether a step was found.
pub open spec fn heap_step<T>(data: Seq<T>, c: Seq<usize>, i: int) -> (Seq<T>, Seq<usize>, int, bool)
    decreases c.len() - i,
{
    if i < 0 || i >= c.len() {
        (data, c, i, false)
    } else if c[i] < i {
        let j = if i % 2 == 0 {
            0
        } else {
            c[i] as int
        };
        (swapped(data, j, i), c.update(i, (c[i] + 1) as usize), 0, true)
    } else {
        heap_step(data, c.update(i, 0), i + 1)
    }
}

/// Each step of Heap's algorithm that finds a position exchanges two elements of the data, so
/// the elements are kept.
pub proof fn lemma_heap_step_swaps<T>(data: Seq<T>, c: Seq<usize>, i: int)
    requires
        data.len() == c.len(),
        0 <= i,
    ensures
        heap_step(data, c, i).3 ==> exists|a: int, b: int|
            0 <= a < data.len() && 0 <= b < data.len() && heap_step(data, c, i).0 == #[trigger] swapped(data, a, b),
        heap_step(data, c, i).0.to_multiset() == data.to_multiset(),
        heap_step(data, c, i).1.len() == c.len(),
    decreases c.len() - i,
{
    if i < c.len() {
        if c[i] < i {
            let j = if i % 2 == 0 {
                0
            } else {
                c[i] as int
            };
            lemma_swap_multiset(data, j, i);
            assert(heap_step(data, c, i).0 == swapped(data, j, i));
        } else {
            lemma_heap_step_swaps(data, c.update(i, 0), i + 1);
        }
    }
}

impl<O: ModifierOrdering<T>, T: Clone> Permutator<T> for HeapsPermutator<O, T> {
    /// The data and the counters of the algorithm have one entry per element.
    closed spec fn wf(&self) -> bool {
        &&& self.data@.len() == self.len
        &&& self.state@.len() == self.len
        &&& self.i <= self.len
    }

    /// The data is the input sorted by the ordering, every counter is 0, and the algorithm starts
    /// at position 0.
    open spec fn initial(&self, input: Seq<T>) -> bool {
        &&& sorted_from::<O, T>(self.data_view(), input)
        &&& self.counters() == Seq::new(input.len(), |k: int| 0usize)
        &&& self.position() == 0
        &&& !self.has_started()
    }

    /// The call returns what `upcoming` says; after the first call, it takes the step of the
    /// algorithm.
    open spec fn transition(&self, after: Self, r: Option<Vec<T>>) -> bool {
        &&& after.has_started()
        &&& clones_of(r, self.upcoming())
        &&& if !self.has_started() {
            &&& after.data_view() == self.data_view()
            &&& after.counters() == self.counters()
            &&& after.position() == self.position()
        } else {
            let (data, c, i, _) = heap_step(self.data_view(), self.counters(), self.position());
            &&& after.data_view() == data
            &&& after.counters() == c
            &&& after.position() == i
        }
    }

    fn new(input: Vec<T>) -> (r: Self) {
        let mut input = input;
        // sort the input after the given ordering
        let ghost unsorted = input@;
        O::sort(&mut input);
        proof {
            lemma_sorted_from::<O, T>(unsorted, input@);
        }
        let input_len = input.len();
        let mut state: Vec<usize> = Vec::new();
        let mut k: usize = 0;
        while k < input_len
            invariant
                k <= input_len,
                state@ == Seq::new(k as nat, |j: int| 0usize),
            decreases input_len - k,
        {
            state.push(0);
            k += 1;
            assert(state@ =~= Seq::new(k as nat, |j: int| 0usize));
        }
        HeapsPermutator { data: input, state, i: 0, len: input_len, started: false, ordering: PhantomData }
    }

    fn next(&mut self) -> (r: Option<Vec<T>>) {
        if !self.started {
            self.started = true;
            return Some(self.data.clone());
        }
        let ghost goal = heap_step(self.data@, self.state@, self.i as int);
        while self.i < self.len
            invariant
                self.data@.len() == self.len,
                self.state@.len() == self.len,
                self.i <= self.len,
                heap_step(self.data@, self.state@, self.i as int) == goal,
                goal == heap_step(old(self).data@, old(self).state@, old(self).i as int),
                self.started,
                old(self).started,
            decreases self.len - self.i,
        {
            if self.state[self.i] < self.i {
                if self.i % 2 == 0 {
                    // i is even
                    swap_items(&mut self.data, 0, self.i);
                } else {
                    // i is odd
                    let j = self.state[self.i];
                    swap_items(&mut self.data, j, self.i);
                }
                let c = self.state[self.i];
                self.state.set(self.i, c + 1);
                self.i = 0;
                return Some(self.data.clone());
            } else {
                self.state.set(self.i, 0);
                self.i += 1;
            }
        }
        None
    }
}

/// The number that the counters of Heap's algorithm write below position `m`, the counter at
/// position `j` being the digit of weight `j!`.
pub open spec fn counter_value(c: Seq<usize>, m: int) -> int
    decreases m,
{
    if m <= 0 {
        0
    } else {
        counter_value(c, m - 1) + c[m - 1] * factorial((m - 1) as nat)
    }
}

/// No counter exceeds its position.
pub open spec fn counters_valid(c: Seq<usize>) -> bool {
    forall|j: int| 0 <= j < c.len() ==> #[trigger] c[j] <= j
}

proof fn lemma_factorial_positive(n: nat)
    ensures
        factorial(n) >= 1,
    decreases n,
{
    if n > 0 {
        lemma_factorial_positive((n - 1) as nat);
        let f = factorial((n - 1) as nat);
        assert(n * f >= 1) by (nonlinear_arith)
            requires
                n >= 1,
                f >= 1,
        ;
    }
}

proof fn lemma_counter_bound(c: Seq<usize>, m: int)
    requires
        counters_valid(c),
        0 <= m <= c.len(),
    ensures
        0 <= counter_value(c, m) < factorial(m as nat),
    decreases m,
{
    if m > 0 {
        lemma_counter_bound(c, m - 1);
        let f = factorial((m - 1) as nat);
        let d = c[m - 1] as int;
        let v = counter_value(c, m - 1);
        assert(v + d * f < m * f && d * f >= 0) by (nonlinear_arith)
            requires
                0 <= d <= m - 1,
                0 <= v < f,
        ;
    }
}

proof fn lemma_counter_zeros(c: Seq<usize>, m: int)
    requires
        0 <= m <= c.len(),
        forall|j: int| 0 <= j < m ==> #[trigger] c[j] == 0,
    ensures
        counter_value(c, m) == 0,
    decreases m,
{
    if m > 0 {
        lemma_counter_zeros(c, m - 1);
    }
}

proof fn lemma_counter_update(c: Seq<usize>, i: int, x: usize, m: int)
    requires
        0 <= i < c.len(),
        0 <= m <= c.len(),
    ensures
        counter_value(c.update(i, x), m) == counter_value(c, m) + if i < m {
            (x - c[i]) * factorial(i as nat)
        } else {
            0
        },
    decreases m,
{
    if m > 0 {
        lemma_counter_update(c, i, x, m - 1);
        if m - 1 == i {
            let f = factorial(i as nat);
            assert(x * f == c[i] * f + (x - c[i]) * f) by (nonlinear_arith);
        }
    }
}

/// A step of Heap's algorithm from position `i`, where the counters below `i` are 0, raises the
/// number that the counters write by `i!` where it finds a position; where it finds none, that
/// number plus `i!` is `n!`, every counter is 0 and the position is `n`.
proof fn lemma_heap_count<T>(data: Seq<T>, c: Seq<usize>, i: int)
    requires
        data.len() == c.len(),
        0 <= i <= c.len(),
        c.len() <= usize::MAX,
        counters_valid(c),
        forall|j: int| 0 <= j < i ==> #[trigger] c[j] == 0,
    ensures
        ({
            let (d2, c2, i2, found) = heap_step(data, c, i);
            let n = c.len() as int;
            &&& c2.len() == n
            &&& found ==> counters_valid(c2) && i2 == 0 && counter_value(c2, n) == counter_value(c, n) + factorial(
                i as nat,
            )
            &&& !found ==> counter_value(c, n) + factorial(i as nat) == factorial(n as nat) && i2 == n && forall|j: int|
                0 <= j < n ==> #[trigger] c2[j] == 0
        }),
    decreases c.len() - i,
{
    let n = c.len() as int;
    if i == n {
        lemma_counter_zeros(c, n);
    } else if c[i] < i {
        let x = (c[i] + 1) as usize;
        lemma_counter_update(c, i, x, n);
        let f = factorial(i as nat);
        let d = x - c[i];
        assert(d == 1);
        assert(d * f == f) by (nonlinear_arith)
            requires
                d == 1,
        ;
    } else {
        let c1 = c.update(i, 0);
        lemma_counter_update(c, i, 0, n);
        lemma_heap_count(data, c1, i + 1);
        let f = factorial(i as nat);
        let ci = c[i] as int;
        assert(ci == i);
        assert((0 - ci) * f == -(i * f)) by (nonlinear_arith)
            requires
                ci == i,
        ;
        assert(counter_value(c1, n) == counter_value(c, n) - i * f);
        assert(factorial((i + 1) as nat) == (i + 1) * f);
        assert((i + 1) * f == i * f + f) by (nonlinear_arith);
    }
}

/// The state after `t` calls of `next` on a run of the permutator, and what the last returned.
proof fn lemma_heaps_run_state<O: ModifierOrdering<T>, T: Clone>(
    input: Seq<T>,
    states: Seq<HeapsPermutator<O, T>>,
    outs: Seq<Option<Vec<T>>>,
    t: int,
)
    requires
        states.len() == outs.len() + 1,
        states[0].initial(input),
        states[0].wf(),
        forall|k: int| 0 <= k < outs.len() ==> states[k].transition(states[k + 1], #[trigger] outs[k]),
        1 <= t <= outs.len(),
    ensures
        states[t].has_started(),
        states[t].data_view().to_multiset() == input.to_multiset(),
        states[t].data_view().len() == input.len(),
        states[t].counters().len() == input.len(),
        t <= factorial(input.len()) ==> {
            &&& states[t].position() == 0
            &&& counters_valid(states[t].counters())
            &&& counter_value(states[t].counters(), input.len() as int) == t - 1
            &&& clones_of(outs[t - 1], Some(states[t].data_view()))
        },
        t > factorial(input.len()) ==> states[t].position() == input.len() && outs[t - 1] is None,
    decreases t,
{
    let n = input.len() as int;
    let f = factorial(n as nat);
    lemma_factorial_positive(n as nat);
    assert(states[t - 1].transition(states[t], outs[t - 1]));
    if t == 1 {
        lemma_counter_zeros(states[0].counters(), n);
    } else {
        lemma_heaps_run_state::<O, T>(input, states, outs, t - 1);
        let s = states[t - 1];
        lemma_heap_step_swaps(s.data_view(), s.counters(), s.position());
        vstd::seq_lib::to_multiset_len(s.data_view());
        vstd::seq_lib::to_multiset_len(states[t].data_view());
        if t - 1 <= f {
            lemma_heap_count(s.data_view(), s.counters(), 0);
            let (d2, c2, i2, found) = heap_step(s.data_view(), s.counters(), 0);
            if found {
                lemma_counter_bound(c2, n);
            }
        }
    }
}

/// # The number of permutations of Heap's algorithm
/// A run of the permutator: `states[0]` is what `new` made of `input`, and the call of `next` on
/// `states[i]` left `states[i + 1]` and returned `outs[i]`. Then, for `n` input elements, the
/// first `n!` calls each return an arrangement of the input (the first one the input as `new`
/// sorted it), and every later call returns `None`.
pub proof fn lemma_heaps_run<O: ModifierOrdering<T>, T: Clone>(
    input: Seq<T>,
    states: Seq<HeapsPermutator<O, T>>,
    outs: Seq<Option<Vec<T>>>,
)
    requires
        states.len() == outs.len() + 1,
        states[0].initial(input),
        states[0].wf(),
        forall|i: int| 0 <= i < outs.len() ==> states[i].transition(states[i + 1], #[trigger] outs[i]),
    ensures
        sorted_from::<O, T>(states[0].data_view(), input),
        outs.len() > 0 ==> clones_of(outs[0], Some(states[0].data_view())),
        forall|i: int|
            0 <= i < outs.len() && i < factorial(input.len()) ==> clones_of(
                #[trigger] outs[i],
                Some(states[i + 1].data_view()),
            ) && states[i + 1].data_view().to_multiset() == input.to_multiset(),
        forall|i: int| factorial(input.len()) <= i < outs.len() ==> #[trigger] outs[i] is None,
{
    assert forall|i: int| 0 <= i < outs.len() && i < factorial(input.len()) implies clones_of(
        #[trigger] outs[i],
        Some(states[i + 1].data_view()),
    ) && states[i + 1].data_view().to_multiset() == input.to_multiset() by {
        lemma_heaps_run_state::<O, T>(input, states, outs, i + 1);
    }
    assert forall|i: int| factorial(input.len()) <= i < outs.len() implies #[trigger] outs[i] is None by {
        lemma_heaps_run_state::<O, T>(input, states, outs, i + 1);
    }
    if outs.len() > 0 {
        assert(states[0].transition(states[1], outs[0]));
    }
}

/// A step of Heap's algorithm from position `p` that finds a position `i`: the counters from `p`
/// to `i` are at their bounds, and are set back to 0; the one at `i` counts up; the element at
/// `i` is exchanged with the first one (for an even `i`) or with the one its counter names.
proof fn lemma_heap_step_shape<T>(data: Seq<T>, c: Seq<usize>, p: int) -> (i: int)
    requires
        data.len() == c.len(),
        0 <= p,
        counters_valid(c),
        heap_step(data, c, p).3,
    ensures
        p <= i < c.len(),
        c[i] < i,
        forall|j: int| p <= j < i ==> #[trigger] c[j] == j,
        heap_step(data, c, p).0 == swapped(
            data,
            if i % 2 == 0 {
                0
            } else {
                c[i] as int
            },
            i,
        ),
        heap_step(data, c, p).1 == Seq::new(
            c.len(),
            |j: int|
                if p <= j < i {
                    0usize
                } else if j == i {
                    (c[i] + 1) as usize
                } else {
                    c[j]
                },
        ),
    decreases c.len() - p,
{
    if c[p] < p {
        assert(heap_step(data, c, p).1 =~= Seq::new(
            c.len(),
            |j: int|
                if p <= j < p {
                    0usize
                } else if j == p {
                    (c[p] + 1) as usize
                } else {
                    c[j]
                },
        ));
        p
    } else {
        let c1 = c.update(p, 0);
        let i = lemma_heap_step_shape(data, c1, p + 1);
        assert(c[p] == p);
        assert forall|j: int| p <= j < i implies #[trigger] c[j] == j by {
            if j > p {
                assert(c1[j] == c[j]);
            }
        }
        assert(heap_step(data, c, p).1 =~= Seq::new(
            c.len(),
            |j: int|
                if p <= j < i {
                    0usize
                } else if j == i {
                    (c[i] + 1) as usize
                } else {
                    c[j]
                },
        ));
        i
    }
}

/// Along a run, the data after `t` calls is the sorted input arranged as the counters say.
proof fn lemma_heaps_run_arrangement<O: ModifierOrdering<T>, T: Clone>(
    input: Seq<T>,
    states: Seq<HeapsPermutator<O, T>>,
    outs: Seq<Option<Vec<T>>>,
    t: int,
)
    requires
        states.len() == outs.len() + 1,
        states[0].initial(input),
        states[0].wf(),
        forall|k: int| 0 <= k < outs.len() ==> states[k].transition(states[k + 1], #[trigger] outs[k]),
        1 <= t <= outs.len(),
        t <= factorial(input.len()),
    ensures
        states[t].data_view() == Seq::new(
            input.len(),
            |x: int| states[0].data_view()[pc(input.len(), states[t].counters())[x]],
        ),
    decreases t,
{
    let n = input.len();
    let d0 = states[0].data_view();
    assert(states[t - 1].transition(states[t], outs[t - 1]));
    if t == 1 {
        lemma_pc_zeros(n, states[0].counters());
        assert(states[1].data_view() =~= Seq::new(n, |x: int| d0[pc(n, states[1].counters())[x]]));
    } else {
        lemma_heaps_run_arrangement::<O, T>(input, states, outs, t - 1);
        lemma_heaps_run_state::<O, T>(input, states, outs, t - 1);
        lemma_heaps_run_state::<O, T>(input, states, outs, t);
        let s = states[t - 1];
        let c = s.counters();
        lemma_factorial_positive(n);
        lemma_heap_count(s.data_view(), c, 0);
        assert(heap_step(s.data_view(), c, 0).3);
        let i = lemma_heap_step_shape(s.data_view(), c, 0);
        assert(states[t].counters() =~= step_counters(c, i));
        lemma_pc_step(n, c, i);
        let jj = if i % 2 == 0 {
            0
        } else {
            c[i] as int
        };
        let p1 = pc(n, c);
        lemma_pc_perm(n, c);
        assert(pc(n, states[t].counters()) == swapped(p1, jj, i));
        assert forall|x: int| 0 <= x < n implies #[trigger] states[t].data_view()[x] == d0[pc(n, states[t].counters())[x]] by {
            let y = if x == jj {
                i
            } else if x == i {
                jj
            } else {
                x
            };
            assert(states[t].data_view()[x] == s.data_view()[y]);
            assert(s.data_view()[y] == d0[p1[y]]);
            assert(pc(n, states[t].counters())[x] == p1[y]);
        }
        assert(states[t].data_view() =~= Seq::new(n, |x: int| d0[pc(n, states[t].counters())[x]]));
    }
}

/// # Every permutation once: Heap's algorithm
/// A run of the permutator: `states[0]` is what `new` made of `input`, and the call of `next` on
/// `states[i]` left `states[i + 1]` and returned `outs[i]`, which is a clone of the data of
/// `states[i + 1]` (see `lemma_heaps_run`). For `n` input elements, after each of the first `n!`
/// calls the data is the sorted input arranged by a permutation of its positions; no two of
/// these calls give the same permutation of positions; and where the input has no element twice,
/// no two of them give the same sequence. So the first `n!` calls return every arrangement of
/// the input exactly once.
pub proof fn lemma_heaps_run_distinct<O: ModifierOrdering<T>, T: Clone>(
    input: Seq<T>,
    states: Seq<HeapsPermutator<O, T>>,
    outs: Seq<Option<Vec<T>>>,
)
    requires
        states.len() == outs.len() + 1,
        states[0].initial(input),
        states[0].wf(),
        forall|i: int| 0 <= i < outs.len() ==> states[i].transition(states[i + 1], #[trigger] outs[i]),
    ensures
        forall|t: int|
            1 <= t <= outs.len() && t <= factorial(input.len()) ==> is_perm(
                pc(input.len(), (#[trigger] states[t]).counters()),
                input.len(),
            ) && states[t].data_view() == Seq::new(
                input.len(),
                |x: int| states[0].data_view()[pc(input.len(), states[t].counters())[x]],
            ),
        forall|t1: int, t2: int|
            1 <= t1 < t2 <= outs.len() && t2 <= factorial(input.len()) ==> pc(input.len(), (#[trigger] states[t1]).counters())
                != pc(input.len(), (#[trigger] states[t2]).counters()),
        input.no_duplicates() ==> forall|t1: int, t2: int|
            1 <= t1 < t2 <= outs.len() && t2 <= factorial(input.len()) ==> (#[trigger] states[t1]).data_view()
                != (#[trigger] states[t2]).data_view(),
{
    let n = input.len();
    let d0 = states[0].data_view();
    assert forall|t: int| 1 <= t <= outs.len() && t <= factorial(input.len()) implies is_perm(
        pc(input.len(), (#[trigger] states[t]).counters()),
        input.len(),
    ) && states[t].data_view() == Seq::new(
        input.len(),
        |x: int| states[0].data_view()[pc(input.len(), states[t].counters())[x]],
    ) by {
        lemma_heaps_run_state::<O, T>(input, states, outs, t);
        lemma_heaps_run_arrangement::<O, T>(input, states, outs, t);
        lemma_pc_perm(n, states[t].counters());
    }
    assert forall|t1: int, t2: int|
        1 <= t1 < t2 <= outs.len() && t2 <= factorial(input.len()) implies pc(
        input.len(),
        (#[trigger] states[t1]).counters(),
    ) != pc(input.len(), (#[trigger] states[t2]).counters()) by {
        lemma_heaps_run_state::<O, T>(input, states, outs, t1);
        lemma_heaps_run_state::<O, T>(input, states, outs, t2);
        let c1 = states[t1].counters();
        let c2 = states[t2].counters();
        if pc(n, c1) == pc(n, c2) {
            lemma_pc_injective(n, c1, c2);
            assert(c1 =~= c2);
        }
    }
    if input.no_duplicates() {
        input.lemma_multiset_has_no_duplicates();
        d0.lemma_multiset_has_no_duplicates_conv();
        assert forall|t1: int, t2: int|
            1 <= t1 < t2 <= outs.len() && t2 <= factorial(input.len()) implies (#[trigger] states[t1]).data_view()
            != (#[trigger] states[t2]).data_view() by {
            lemma_heaps_run_state::<O, T>(input, states, outs, t1);
            lemma_heaps_run_state::<O, T>(input, states, outs, t2);
            lemma_heaps_run_arrangement::<O, T>(input, states, outs, t1);
            lemma_heaps_run_arrangement::<O, T>(input, states, outs, t2);
            let c1 = states[t1].counters();
            let c2 = states[t2].counters();
            let p1 = pc(n, c1);
            let p2 = pc(n, c2);
            lemma_pc_perm(n, c1);
            lemma_pc_perm(n, c2);
            if states[t1].data_view() == states[t2].data_view() {
                assert forall|x: int| 0 <= x < n implies p1[x] == p2[x] by {
                    assert(states[t1].data_view()[x] == d0[p1[x]]);
                    assert(states[t2].data_view()[x] == d0[p2[x]]);
                }
                assert(p1 =~= p2);
                lemma_pc_injective(n, c1, c2);
                assert(c1 =~= c2);
            }
        }
    }
}

} // verus!
