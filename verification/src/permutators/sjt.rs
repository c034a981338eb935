//! # Steinhaus-Johnson-Trotter Permutator
use vstd::prelude::*;
use std::marker::PhantomData;
use crate::modifier_ordering::ModifierOrdering;
use crate::permutators::{arranged, clones_of, is_index_perm, lemma_sorted_from, sorted_from, swap_items, swapped, Permutator};

verus! {

/// Direction in which an element moves.
#[derive(Debug, PartialEq, Eq, Structural, Clone, Copy)]
pub enum Direction {
    /// Towards the start
    Left,
    /// The element does not move
    Still,
    /// Towards the end
    Right,
}

impl Direction {
    /// Returns the direction for the element at pos to move towards the current position
    pub fn towards(pos: usize, current: usize) -> (r: Direction)
        ensures
            r == direction_towards(pos as int, current as int),
    {
        if pos < current {
            Direction::Right
        } else if pos > current {
            Direction::Left
        } else {
            Direction::Still
        }
    }
}

/// # Steinhaus-Johnson-Trotter Permutator
///
/// This is an implementation of the Steinhaus-Johnson-Trotter Permutator Algorithm. It is
/// implemented using Even's speedup. Each permutation is kept as the sequence of positions of the
/// data that it takes, in `indices`; every element has a direction in which it moves.
pub struct SJTPermutator<O, T> {
    data: Vec<T>,
    indices: Vec<usize>,
    dirs: Vec<Direction>,
    len: usize,
    started: bool,
    phantom: PhantomData<O>,
}

impl<O, T> SJTPermutator<O, T> {
    /// The data, in the order given by the ordering.
    pub closed spec fn data_view(&self) -> Seq<T> {
        self.data@
    }

    /// The current permutation, as the positions in the data of its elements.
    pub closed spec fn order_view(&self) -> Seq<usize> {
        self.indices@
    }

    /// The direction of the element at each place of the current permutation.
    pub closed spec fn dirs_view(&self) -> Seq<Direction> {
        self.dirs@
    }

    /// Whether the first permutation was already returned.
    pub closed spec fn has_started(&self) -> bool {
        self.started
    }

    /// What the next call of `next` returns: first the data in its order, then the data in the
    /// order that each step of the algorithm gives, and `None` once no element can move.
    pub open spec fn upcoming(&self) -> Option<Seq<T>> {
        if !self.has_started() {
            Some(arranged(self.data_view(), self.order_view()))
        } else {
            match sjt_step(self.order_view(), self.dirs_view()) {
                Some((idx, _)) => Some(arranged(self.data_view(), idx)),
                None => None,
            }
        }
    }
}

/// The direction in which the element at `pos` moves towards `current`.
pub open spec fn direction_towards(pos: int, current: int) -> Direction {
    if pos < current {
        Direction::Right
    } else if pos > current {
        Direction::Left
    } else {
        Direction::Still
    }
}

/// Among the first `m` places, the one that holds the largest element that has a direction.
pub open spec fn mobile(idx: Seq<usize>, dirs: Seq<Direction>, m: int) -> Option<int>
    decreases m,
{
    if m <= 0 {
        None
    } else {
        let b = mobile(idx, dirs, m - 1);
        if dirs[m - 1] != Direction::Still {
            match b {
                Some(bb) => if idx[m - 1] > idx[bb] {
                    Some(m - 1)
                } else {
                    Some(bb)
                },
                None => Some(m - 1),
            }
        } else {
            b
        }
    }
}

/// One step of the algorithm on the permutation `idx` with the directions `dirs`: the largest
/// element that has a direction moves one place in it; it stops at the border or before a larger
/// element; every larger element turns towards the place it moved to. `None` where no element
/// has a direction, or where it would leave the sequence.
pub open spec fn sjt_step(idx: Seq<usize>, dirs: Seq<Direction>) -> Option<(Seq<usize>, Seq<Direction>)> {
    let n = idx.len() as int;
    match mobile(idx, dirs, n) {
        None => None,
        Some(p) => {
            let left = dirs[p] == Direction::Left;
            let v = idx[p];
            if (left && p == 0) || (!left && p + 1 >= n) {
                None
            } else {
                let t = if left {
                    p - 1
                } else {
                    p + 1
                };
                let stop = t == 0 || t + 1 == n || v < idx[if left {
                    t - 1
                } else {
                    t + 1
                }];
                let d1 = if stop {
                    dirs.update(p, Direction::Still)
                } else {
                    dirs
                };
                let i2 = swapped(idx, p, t);
                let d2 = swapped(d1, p, t);
                Some(
                    (
                        i2,
                        Seq::new(
                            n as nat,
                            |i: int|
                                if i2[i] > v {
                                    direction_towards(i, t)
                                } else {
                                    d2[i]
                                },
                        ),
                    ),
                )
            }
        },
    }
}

/// The place that `mobile` finds is below `m` and holds an element with a direction.
proof fn lemma_mobile(idx: Seq<usize>, dirs: Seq<Direction>, m: int)
    ensures
        mobile(idx, dirs, m) matches Some(p) ==> 0 <= p < m && dirs[p] != Direction::Still,
    decreases m,
{
    if m > 0 {
        lemma_mobile(idx, dirs, m - 1);
    }
}

/// Each step of the algorithm exchanges two neighbouring elements of a permutation of the
/// positions, so what comes out is again such a permutation, with a direction for each element.
pub proof fn lemma_sjt_step_adjacent(idx: Seq<usize>, dirs: Seq<Direction>)
    requires
        is_index_perm(idx, idx.len()),
        dirs.len() == idx.len(),
        sjt_step(idx, dirs) is Some,
    ensures
        ({
            let (i2, d2) = sjt_step(idx, dirs)->Some_0;
            &&& exists|p: int| 0 <= p && p + 1 < idx.len() && i2 == #[trigger] swapped(idx, p, p + 1)
            &&& is_index_perm(i2, idx.len())
            &&& d2.len() == idx.len()
        }),
{
    let n = idx.len() as int;
    lemma_mobile(idx, dirs, n);
    let p = mobile(idx, dirs, n)->Some_0;
    let left = dirs[p] == Direction::Left;
    let t = if left {
        p - 1
    } else {
        p + 1
    };
    let i2 = swapped(idx, p, t);
    if left {
        assert(i2 =~= swapped(idx, t, t + 1));
    } else {
        assert(i2 == swapped(idx, p, p + 1));
    }
    assert forall|i: int, j: int| 0 <= i < n && 0 <= j < n && i != j implies i2[i] != i2[j] by {
    }
}

/// The directions at the start: the first element stands still, every other one moves left.
pub open spec fn initial_dirs(n: nat) -> Seq<Direction> {
    Seq::new(
        n,
        |i: int|
            if i == 0 {
                Direction::Still
            } else {
                Direction::Left
            },
    )
}

impl<O: ModifierOrdering<T>, T: Clone> Permutator<T> for SJTPermutator<O, T> {
    /// The indices are a permutation of the data, and each has a direction.
    closed spec fn wf(&self) -> bool {
        &&& self.data@.len() == self.len
        &&& self.dirs@.len() == self.len
        &&& is_index_perm(self.indices@, self.len as nat)
    }

    /// The data is the input sorted by the ordering, in the order of the data, with the
    /// directions of the start.
    open spec fn initial(&self, input: Seq<T>) -> bool {
        &&& sorted_from::<O, T>(self.data_view(), input)
        &&& self.order_view() == Seq::new(input.len(), |i: int| i as usize)
        &&& self.dirs_view() == initial_dirs(input.len())
        &&& !self.has_started()
    }

    /// The call returns what `upcoming` says, and takes the step of the algorithm after the
    /// first call; where no step can be taken, the state stays as it is.
    open spec fn transition(&self, after: Self, r: Option<Vec<T>>) -> bool {
        &&& after.data_view() == self.data_view()
        &&& after.has_started()
        &&& clones_of(r, self.upcoming())
        &&& match (self.has_started(), sjt_step(self.order_view(), self.dirs_view())) {
            (true, Some((idx, dirs))) => after.order_view() == idx && after.dirs_view() == dirs,
            _ => after.order_view() == self.order_view() && after.dirs_view() == self.dirs_view(),
        }
    }

    fn new(input: Vec<T>) -> (r: Self) {
        let mut input = input;
        let ghost unsorted = input@;
        O::sort(&mut input);
        proof {
            lemma_sorted_from::<O, T>(unsorted, input@);
        }
        let len = input.len();
        let mut dirs: Vec<Direction> = Vec::new();
        let mut indices: Vec<usize> = Vec::new();
        let mut i: usize = 0;
        while i < len
            invariant
                i <= len,
                dirs@ == initial_dirs(i as nat),
                indices@ == Seq::new(i as nat, |k: int| k as usize),
            decreases len - i,
        {
            if i == 0 {
                dirs.push(Direction::Still);
            } else {
                dirs.push(Direction::Left);
            }
            indices.push(i);
            i += 1;
            assert(dirs@ =~= initial_dirs(i as nat));
            assert(indices@ =~= Seq::new(i as nat, |k: int| k as usize));
        }
        SJTPermutator { data: input, indices, dirs, len, started: false, phantom: PhantomData }
    }

    fn next(&mut self) -> (r: Option<Vec<T>>) {
        // handle the start
        if !self.started {
            self.started = true;
            let out = self.arrange();
            proof {
                assert(arranged(self.data@, self.indices@).len() == self.len);
            }
            return Some(out);
        }
        let ghost idx0 = self.indices@;
        let ghost dirs0 = self.dirs@;
        // search for the greatest (in terms of index) element with a direction
        let mut best: Option<usize> = None;
        let mut pos: usize = 0;
        while pos < self.len
            invariant
                pos <= self.len,
                self.dirs@ == dirs0,
                self.indices@ == idx0,
                self.dirs@.len() == self.len,
                self.data@.len() == self.len,
                is_index_perm(self.indices@, self.len as nat),
                best is Some == mobile(idx0, dirs0, pos as int) is Some,
                best matches Some(b) ==> b < self.len && mobile(idx0, dirs0, pos as int) == Some(b as int),
            decreases self.len - pos,
        {
            if self.dirs[pos] != Direction::Still {
                best = match best {
                    Some(b) => if self.indices[pos] > self.indices[b] {
                        Some(pos)
                    } else {
                        Some(b)
                    },
                    None => Some(pos),
                };
            }
            pos += 1;
        }
        let current_pos = match best {
            Some(p) => p,
            None => {
                return None;
            },
        };
        // get the target position
        let current_dir = self.dirs[current_pos];
        let current_idx = self.indices[current_pos];
        let target_pos = if current_dir == Direction::Left {
            if current_pos == 0 {
                return None;
            }
            current_pos - 1
        } else {
            if current_pos + 1 >= self.len {
                return None;
            }
            current_pos + 1
        };
        // the direction is reset if the target position is at the border, or if the element after
        // the target position in the same direction is greater than the current element
        if target_pos == 0 || target_pos + 1 == self.len {
            self.dirs.set(current_pos, Direction::Still);
        } else {
            let one_after_pos = if current_dir == Direction::Left {
                target_pos - 1
            } else {
                target_pos + 1
            };
            if current_idx < self.indices[one_after_pos] {
                self.dirs.set(current_pos, Direction::Still);
            }
        }
        // swap the elements
        swap_items(&mut self.indices, current_pos, target_pos);
        swap_items(&mut self.dirs, current_pos, target_pos);
        assert(is_index_perm(self.indices@, self.len as nat)) by {
            let s = self.indices@;
            assert forall|i: int, j: int| 0 <= i < self.len && 0 <= j < self.len && i != j implies s[i] != s[j] by {
            }
        }
        let ghost i2 = self.indices@;
        let ghost d2 = self.dirs@;
        // every element greater than the moved one now moves towards it
        let mut i: usize = 0;
        while i < self.len
            invariant
                i <= self.len,
                self.dirs@.len() == self.len,
                self.data@.len() == self.len,
                self.indices@ == i2,
                d2.len() == self.len,
                is_index_perm(self.indices@, self.len as nat),
                self.data@ == old(self).data@,
                self.started,
                forall|k: int|
                    0 <= k < i ==> self.dirs@[k] == (if i2[k] > current_idx {
                        direction_towards(k, target_pos as int)
                    } else {
                        d2[k]
                    }),
                forall|k: int| i <= k < self.len ==> self.dirs@[k] == d2[k],
            decreases self.len - i,
        {
            if self.indices[i] > current_idx {
                self.dirs.set(i, Direction::towards(i, target_pos));
            }
            i += 1;
        }
        proof {
            let n = self.len as int;
            assert(sjt_step(idx0, dirs0) is Some);
            let (e_idx, e_dirs) = sjt_step(idx0, dirs0)->Some_0;
            assert(e_idx =~= i2);
            assert(self.dirs@ =~= e_dirs);
        }
        // return the data in the order of the indices
        self.arrange_some()
    }
}

impl<O, T: Clone> SJTPermutator<O, T> {
    /// Clones of the data, in the order of the indices.
    fn arrange(&self) -> (out: Vec<T>)
        requires
            self.data@.len() == self.len,
            is_index_perm(self.indices@, self.len as nat),
        ensures
            clones_of(Some(out), Some(arranged(self.data@, self.indices@))),
    {
        let mut out: Vec<T> = Vec::new();
        let mut i: usize = 0;
        while i < self.len
            invariant
                i <= self.len,
                self.data@.len() == self.len,
                is_index_perm(self.indices@, self.len as nat),
                out@.len() == i,
                forall|k: int| 0 <= k < i ==> cloned::<T>(self.data@[self.indices@[k] as int], #[trigger] out@[k]),
            decreases self.len - i,
        {
            out.push(self.data[self.indices[i]].clone());
            i += 1;
        }
        out
    }

    /// `Some` of the clones of the data, in the order of the indices.
    fn arrange_some(&self) -> (r: Option<Vec<T>>)
        requires
            self.data@.len() == self.len,
            is_index_perm(self.indices@, self.len as nat),
        ensures
            clones_of(r, Some(arranged(self.data@, self.indices@))),
    {
        Some(self.arrange())
    }
}

/// The state after `t` calls of `next` on a run of the permutator, and what the last returned.
proof fn lemma_sjt_run_state<O: ModifierOrdering<T>, T: Clone>(
    input: Seq<T>,
    states: Seq<SJTPermutator<O, T>>,
    outs: Seq<Option<Vec<T>>>,
    t: int,
)
    requires
        input.len() <= usize::MAX,
        states.len() == outs.len() + 1,
        states[0].initial(input),
        forall|k: int| 0 <= k < outs.len() ==> states[k].transition(states[k + 1], #[trigger] outs[k]),
        1 <= t <= outs.len(),
    ensures
        states[t].has_started(),
        states[t].data_view() == states[0].data_view(),
        is_index_perm(states[t].order_view(), input.len()),
        states[t].dirs_view().len() == input.len(),
        outs[t - 1] is Some ==> clones_of(outs[t - 1], Some(arranged(states[0].data_view(), states[t].order_view()))),
        t >= 2 && outs[t - 1] is Some ==> exists|p: int|
            0 <= p && p + 1 < input.len() && states[t].order_view() == #[trigger] swapped(
                states[t - 1].order_view(),
                p,
                p + 1,
            ),
        outs[t - 1] is None ==> sjt_step(states[t].order_view(), states[t].dirs_view()) is None,
    decreases t,
{
    assert(states[t - 1].transition(states[t], outs[t - 1]));
    if t > 1 {
        lemma_sjt_run_state::<O, T>(input, states, outs, t - 1);
        let s = states[t - 1];
        if sjt_step(s.order_view(), s.dirs_view()) is Some {
            lemma_sjt_step_adjacent(s.order_view(), s.dirs_view());
        }
    }
}

/// Once a call in the run returns `None`, every later call does too.
proof fn lemma_sjt_none_sticks<O: ModifierOrdering<T>, T: Clone>(
    input: Seq<T>,
    states: Seq<SJTPermutator<O, T>>,
    outs: Seq<Option<Vec<T>>>,
    i: int,
    j: int,
)
    requires
        input.len() <= usize::MAX,
        states.len() == outs.len() + 1,
        states[0].initial(input),
        forall|k: int| 0 <= k < outs.len() ==> states[k].transition(states[k + 1], #[trigger] outs[k]),
        0 <= i <= j < outs.len(),
        outs[i] is None,
    ensures
        outs[j] is None,
    decreases j - i,
{
    if i < j {
        lemma_sjt_none_sticks::<O, T>(input, states, outs, i, j - 1);
        lemma_sjt_run_state::<O, T>(input, states, outs, j);
        assert(states[j].transition(states[j + 1], outs[j]));
    }
}

/// # The run of the Steinhaus-Johnson-Trotter permutator
/// A run of the permutator: `states[0]` is what `new` made of `input`, and the call of `next` on
/// `states[i]` left `states[i + 1]` and returned `outs[i]`. The first call returns the input as
/// `new` sorted it; every call that returns a permutation returns the sorted input in an order
/// that takes each of its positions once, and after the first call it differs from the one
/// before by the exchange of two neighbours; once a call returns `None`, every later call does.
pub proof fn lemma_sjt_run<O: ModifierOrdering<T>, T: Clone>(
    input: Seq<T>,
    states: Seq<SJTPermutator<O, T>>,
    outs: Seq<Option<Vec<T>>>,
)
    requires
        input.len() <= usize::MAX,
        states.len() == outs.len() + 1,
        states[0].initial(input),
        forall|i: int| 0 <= i < outs.len() ==> states[i].transition(states[i + 1], #[trigger] outs[i]),
    ensures
        sorted_from::<O, T>(states[0].data_view(), input),
        outs.len() > 0 ==> clones_of(outs[0], Some(states[0].data_view())),
        forall|i: int|
            0 <= i < outs.len() && #[trigger] outs[i] is Some ==> clones_of(
                outs[i],
                Some(arranged(states[0].data_view(), states[i + 1].order_view())),
            ) && is_index_perm(states[i + 1].order_view(), input.len()),
        forall|i: int|
            1 <= i < outs.len() && #[trigger] outs[i] is Some ==> exists|p: int|
                0 <= p && p + 1 < input.len() && states[i + 1].order_view() == #[trigger] swapped(
                    states[i].order_view(),
                    p,
                    p + 1,
                ),
        forall|i: int, j: int| 0 <= i <= j < outs.len() && #[trigger] outs[i] is None ==> #[trigger] outs[j] is None,
{
    assert forall|i: int| 0 <= i < outs.len() && #[trigger] outs[i] is Some implies clones_of(
        outs[i],
        Some(arranged(states[0].data_view(), states[i + 1].order_view())),
    ) && is_index_perm(states[i + 1].order_view(), input.len()) by {
        lemma_sjt_run_state::<O, T>(input, states, outs, i + 1);
    }
    assert forall|i: int| 1 <= i < outs.len() && #[trigger] outs[i] is Some implies exists|p: int|
        0 <= p && p + 1 < input.len() && states[i + 1].order_view() == #[trigger] swapped(
            states[i].order_view(),
            p,
            p + 1,
        ) by {
        lemma_sjt_run_state::<O, T>(input, states, outs, i + 1);
    }
    assert forall|i: int, j: int| 0 <= i <= j < outs.len() && #[trigger] outs[i] is None implies #[trigger] outs[j]
        is None by {
        lemma_sjt_none_sticks::<O, T>(input, states, outs, i, j);
    }
    if outs.len() > 0 {
        assert(states[0].transition(states[1], outs[0]));
        assert(arranged(states[0].data_view(), states[0].order_view()) =~= states[0].data_view());
    }
}

} // verus!
