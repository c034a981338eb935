//! # Ordered Permutator
//!
//! The `LexicographicPermutator` generates all permutations in lexicographic order.
use vstd::prelude::*;
use std::marker::PhantomData;
use crate::modifier_ordering::{CompleteOrdering, ModifierOrdering, Order};
use crate::permutators::{clones_of, lemma_swap_multiset, lemma_sorted_from, sorted_from, swap_items, swapped, Permutator};

verus! {

/// # Ordered Permutator
/// The `LexicographicPermutator` generates all permutations in lexicographic order. The ordering
/// can be chosen using [`ModifierOrdering`], which must be a [`CompleteOrdering`].
pub struct LexicographicPermutator<O, T> {
    data: Vec<T>,
    len: usize,
    start: bool,
    ordering: PhantomData<O>,
}

impl<O, T> LexicographicPermutator<O, T> {
    /// The data in its current order: the last permutation returned.
    pub closed spec fn data_view(&self) -> Seq<T> {
        self.data@
    }

    /// Whether the first permutation is still to be returned.
    pub closed spec fn at_start(&self) -> bool {
        self.start
    }
}

impl<O: ModifierOrdering<T>, T> LexicographicPermutator<O, T> {
    /// What the next call of `next` returns: first the data, then its lexicographic successor,
    /// and `None` once there is none.
    pub open spec fn upcoming(&self) -> Option<Seq<T>> {
        if self.at_start() {
            Some(self.data_view())
        } else {
            lex_step::<O, T>(self.data_view())
        }
    }
}

/// The largest `k` below `m` at which `s[k]` comes before `s[k + 1]`.
pub open spec fn last_ascent<O: ModifierOrdering<T>, T>(s: Seq<T>, m: int) -> Option<int>
    decreases m,
{
    if m <= 0 {
        None
    } else if m < s.len() && O::order_spec(s[m - 1], s[m]) == Order::Less {
        Some(m - 1)
    } else {
        last_ascent::<O, T>(s, m - 1)
    }
}

/// The largest `l` with `k < l < m` at which `s[k]` comes before `s[l]`, or `k + 1` where there is
/// none.
pub open spec fn last_above<O: ModifierOrdering<T>, T>(s: Seq<T>, k: int, m: int) -> int
    decreases m - k,
{
    if m <= k + 1 {
        k + 1
    } else if O::order_spec(s[k], s[m - 1]) == Order::Less {
        m - 1
    } else {
        last_above::<O, T>(s, k, m - 1)
    }
}

/// The next permutation of `s` in lexicographic order: with `k` the last position whose element
/// comes before the next one, and `l` the last position after `k` whose element comes after the
/// one at `k`, the elements at `k` and `l` are exchanged and the part after `k` is reversed.
/// `None` where no element comes before the next one.
pub open spec fn lex_step<O: ModifierOrdering<T>, T>(s: Seq<T>) -> Option<Seq<T>> {
    match last_ascent::<O, T>(s, s.len() as int) {
        None => None,
        Some(k) => {
            let sw = swapped(s, k, last_above::<O, T>(s, k, s.len() as int));
            Some(sw.take(k + 1) + sw.skip(k + 1).reverse())
        },
    }
}

/// `a` comes before `b` in lexicographic order: up to some position they agree, and there the
/// element of `a` comes before the one of `b`.
pub open spec fn lex_before<O: ModifierOrdering<T>, T>(a: Seq<T>, b: Seq<T>) -> bool {
    exists|k: int| 0 <= k < a.len() && k < b.len() && #[trigger] a.take(k) == b.take(k) && O::order_spec(a[k], b[k]) == Order::Less
}

/// The position that `last_ascent` finds is one at which an element comes before the next one.
pub(crate) proof fn lemma_last_ascent<O: ModifierOrdering<T>, T>(s: Seq<T>, m: int)
    ensures
        last_ascent::<O, T>(s, m) matches Some(k) ==> 0 <= k < m && k + 1 < s.len() && O::order_spec(s[k], s[k + 1])
            == Order::Less,
    decreases m,
{
    if m > 0 {
        lemma_last_ascent::<O, T>(s, m - 1);
    }
}

/// The position that `last_above` finds lies after `k` and below `m`, and is `k + 1` or one whose
/// element comes after the one at `k`.
pub(crate) proof fn lemma_last_above<O: ModifierOrdering<T>, T>(s: Seq<T>, k: int, m: int)
    requires
        k + 1 < m,
    ensures
        k < last_above::<O, T>(s, k, m) < m,
        last_above::<O, T>(s, k, m) == k + 1 || O::order_spec(s[k], s[last_above::<O, T>(s, k, m)]) == Order::Less,
    decreases m - k,
{
    if m > k + 2 {
        lemma_last_above::<O, T>(s, k, m - 1);
    } else {
        assert(last_above::<O, T>(s, k, k + 1) == k + 1);
    }
}

/// Every step of the lexicographic permutator keeps the elements and gives an arrangement that
/// comes after the one it started from, in lexicographic order.
pub proof fn lemma_lex_step_advances<O: ModifierOrdering<T>, T>(s: Seq<T>)
    requires
        lex_step::<O, T>(s) is Some,
    ensures
        lex_step::<O, T>(s)->Some_0.to_multiset() == s.to_multiset(),
        lex_step::<O, T>(s)->Some_0.len() == s.len(),
        lex_before::<O, T>(s, lex_step::<O, T>(s)->Some_0),
{
    let n = s.len() as int;
    lemma_last_ascent::<O, T>(s, n);
    let k = last_ascent::<O, T>(s, n)->Some_0;
    lemma_last_above::<O, T>(s, k, n);
    let l = last_above::<O, T>(s, k, n);
    let sw = swapped(s, k, l);
    let r = sw.take(k + 1) + sw.skip(k + 1).reverse();
    assert(r == lex_step::<O, T>(s)->Some_0);
    lemma_swap_multiset(s, k, l);
    sw.skip(k + 1).lemma_reverse_to_multiset();
    assert(sw =~= sw.take(k + 1) + sw.skip(k + 1));
    vstd::seq_lib::lemma_multiset_commutative(sw.take(k + 1), sw.skip(k + 1));
    vstd::seq_lib::lemma_multiset_commutative(sw.take(k + 1), sw.skip(k + 1).reverse());
    assert(r[k] == s[l]);
    assert(s.take(k) =~= r.take(k));
}

/// The arrangement of `s` after `i` steps of the lexicographic permutator, where it has that many.
pub open spec fn lex_iter<O: ModifierOrdering<T>, T>(s: Seq<T>, i: nat) -> Option<Seq<T>>
    decreases i,
{
    if i == 0 {
        Some(s)
    } else {
        match lex_iter::<O, T>(s, (i - 1) as nat) {
            Some(t) => lex_step::<O, T>(t),
            None => None,
        }
    }
}

/// "Comes before" is a strict order: no element comes before itself, and it is transitive.
pub open spec fn strict_before<O: ModifierOrdering<T>, T>() -> bool {
    &&& forall|a: T| #[trigger] O::order_spec(a, a) != Order::Less
    &&& forall|a: T, b: T, c: T|
        #[trigger] O::order_spec(a, b) == Order::Less && #[trigger] O::order_spec(b, c) == Order::Less
            ==> O::order_spec(a, c) == Order::Less
}

/// Under a strict order, lexicographic order is transitive.
proof fn lemma_lex_before_transitive<O: ModifierOrdering<T>, T>(a: Seq<T>, b: Seq<T>, c: Seq<T>)
    requires
        strict_before::<O, T>(),
        lex_before::<O, T>(a, b),
        lex_before::<O, T>(b, c),
    ensures
        lex_before::<O, T>(a, c),
{
    let k = choose|k: int| 0 <= k < a.len() && k < b.len() && #[trigger] a.take(k) == b.take(k) && O::order_spec(a[k], b[k]) == Order::Less;
    let m = choose|m: int| 0 <= m < b.len() && m < c.len() && #[trigger] b.take(m) == c.take(m) && O::order_spec(b[m], c[m]) == Order::Less;
    if k < m {
        assert(b.take(m).take(k) =~= b.take(k));
        assert(c.take(m).take(k) =~= c.take(k));
        assert(b.take(m)[k] == b[k] && c.take(m)[k] == c[k]);
        assert(a.take(k) == c.take(k));
    } else if m < k {
        assert(a.take(k).take(m) =~= a.take(m));
        assert(b.take(k).take(m) =~= b.take(m));
        assert(a.take(k)[m] == a[m] && b.take(k)[m] == b[m]);
        assert(a.take(m) == c.take(m));
    } else {
        assert(a.take(k) == c.take(k));
    }
}

/// Under a strict order, a step count `i` below `j` at which the permutator still has an
/// arrangement gives one that comes before, so no arrangement is returned twice.
pub proof fn lemma_lex_no_repeat<O: ModifierOrdering<T>, T>(s: Seq<T>, i: nat, j: nat)
    requires
        strict_before::<O, T>(),
        i < j,
        lex_iter::<O, T>(s, j) is Some,
    ensures
        lex_iter::<O, T>(s, i) is Some,
        lex_before::<O, T>(lex_iter::<O, T>(s, i)->Some_0, lex_iter::<O, T>(s, j)->Some_0),
        lex_iter::<O, T>(s, i)->Some_0 != lex_iter::<O, T>(s, j)->Some_0,
    decreases j,
{
    let prev = lex_iter::<O, T>(s, (j - 1) as nat);
    assert(prev is Some);
    lemma_lex_step_advances::<O, T>(prev->Some_0);
    if i < j - 1 {
        lemma_lex_no_repeat::<O, T>(s, i, (j - 1) as nat);
        lemma_lex_before_transitive::<O, T>(lex_iter::<O, T>(s, i)->Some_0, prev->Some_0, lex_iter::<O, T>(s, j)->Some_0);
    }
    let a = lex_iter::<O, T>(s, i)->Some_0;
    if a == lex_iter::<O, T>(s, j)->Some_0 {
        let k = choose|k: int| 0 <= k < a.len() && k < a.len() && #[trigger] a.take(k) == a.take(k) && O::order_spec(a[k], a[k]) == Order::Less;
        assert(O::order_spec(a[k], a[k]) != Order::Less);
    }
}

impl<O: ModifierOrdering<T> + CompleteOrdering, T: Clone> Permutator<T> for LexicographicPermutator<O, T> {
    /// The length is the length of the data.
    closed spec fn wf(&self) -> bool {
        self.data@.len() == self.len
    }

    /// The data is the input sorted by the ordering, and the first permutation is still to come.
    open spec fn initial(&self, input: Seq<T>) -> bool {
        &&& sorted_from::<O, T>(self.data_view(), input)
        &&& self.at_start()
    }

    /// The elements are kept, and a permutation that is returned is the new order of the data.
    /// Where the ordering compares by its specification, the call returns what `upcoming` says
    /// and the data takes that order; once there is no successor, the data stays as it is.
    open spec fn transition(&self, after: Self, r: Option<Vec<T>>) -> bool {
        &&& !after.at_start()
        &&& after.data_view().to_multiset() == self.data_view().to_multiset()
        &&& r is Some ==> clones_of(r, Some(after.data_view()))
        &&& O::obeys_order() ==> {
            &&& clones_of(r, self.upcoming())
            &&& after.data_view() == match self.upcoming() {
                Some(s) => s,
                None => self.data_view(),
            }
        }
    }

    fn new(input: Vec<T>) -> (r: Self) {
        let mut input = input;
        let len = input.len();
        // sort the input vector
        let ghost unsorted = input@;
        O::sort(&mut input);
        proof {
            lemma_sorted_from::<O, T>(unsorted, input@);
        }
        LexicographicPermutator { data: input, len, start: true, ordering: PhantomData }
    }

    fn next(&mut self) -> (r: Option<Vec<T>>) {
        // handle the start
        if self.start {
            self.start = false;
            return Some(self.data.clone());
        }
        let ghost s = self.data@;
        // step 1: find the largest index k, such that data[k] < data[k + 1]
        let mut k: Option<usize> = None;
        let mut i: usize = 0;
        while i < self.len && i + 1 < self.len
            invariant
                self.data@.len() == self.len,
                self.data@ == s,
                s == old(self).data@,
                !self.start,
                !old(self).start,
                i <= self.len,
                self.len == 0 || i < self.len,
                k matches Some(kk) ==> kk + 1 < self.len,
                O::obeys_order() ==> (k is Some == last_ascent::<O, T>(s, i as int) is Some),
                O::obeys_order() ==> (k matches Some(kk) ==> last_ascent::<O, T>(s, i as int) == Some(kk as int)),
            decreases self.len - i,
        {
            if O::order(&self.data[i], &self.data[i + 1]) == Order::Less {
                k = Some(i);
            }
            i += 1;
        }
        proof {
            if self.len > 0 {
                assert(last_ascent::<O, T>(s, self.len as int) == last_ascent::<O, T>(s, self.len - 1));
            }
        }
        let k = match k {
            Some(k) => k,
            None => {
                return None;
            },
        };
        // step 2: find the largest index l > k, such that data[k] < data[l]
        let mut l: usize = k + 1;
        let mut i: usize = k + 2;
        proof {
            assert(last_above::<O, T>(s, k as int, k + 1) == k + 1);
        }
        while i < self.len
            invariant
                self.data@.len() == self.len,
                self.data@ == s,
                s == old(self).data@,
                !self.start,
                !old(self).start,
                k < l < self.len,
                k + 2 <= i <= self.len,
                O::obeys_order() ==> l == last_above::<O, T>(s, k as int, i as int),
            decreases self.len - i,
        {
            if O::order(&self.data[k], &self.data[i]) == Order::Less {
                l = i;
            }
            i += 1;
        }
        // step 3: Swap data[k] and data[l]
        let ghost before = self.data@;
        swap_items(&mut self.data, k, l);
        proof {
            lemma_swap_multiset(before, k as int, l as int);
        }
        // step 4: Reverse the order from k+1..n
        let ghost sw = self.data@;
        reverse_vec_part(&mut self.data, k + 1);
        proof {
            sw.skip(k + 1).lemma_reverse_to_multiset();
            assert(sw =~= sw.take(k + 1) + sw.skip(k + 1));
            vstd::seq_lib::lemma_multiset_commutative(sw.take(k + 1), sw.skip(k + 1));
            vstd::seq_lib::lemma_multiset_commutative(sw.take(k + 1), sw.skip(k + 1).reverse());
        }
        Some(self.data.clone())
    }
}

/// Reverses the order of the elements of `v` from position `k` to the end.
pub fn reverse_vec_part<T>(v: &mut Vec<T>, k: usize)
    requires
        k <= old(v)@.len(),
    ensures
        final(v)@ == old(v)@.take(k as int) + old(v)@.skip(k as int).reverse(),
{
    let n = v.len();
    let num_swap = (n - k) / 2;
    let mut i: usize = 0;
    while i < num_swap
        invariant
            n == v@.len() == old(v)@.len(),
            k <= n,
            num_swap == (n - k) / 2,
            i <= num_swap,
            forall|j: int| 0 <= j < k ==> v@[j] == old(v)@[j],
            forall|j: int| k <= j < k + i ==> v@[j] == old(v)@[n - 1 - (j - k)],
            forall|j: int| n - i <= j < n ==> v@[j] == old(v)@[k + (n - 1 - j)],
            forall|j: int| k + i <= j < n - i ==> v@[j] == old(v)@[j],
        decreases num_swap - i,
    {
        swap_items(v, k + i, n - 1 - i);
        i += 1;
    }
    assert(v@ =~= old(v)@.take(k as int) + old(v)@.skip(k as int).reverse());
}

} // verus!
