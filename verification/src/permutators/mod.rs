//! # Permutators
//!
//! This module contains all different iterators which iterate over all permutations. The
//! iterators differ from each other by the order in which the permutations are yielded.
//!
//! - [`HeapsPermutator`]: permutations by Heap's algorithm.
//! - [`LexicographicPermutator`]: permutations in lexicographic order of a complete ordering.
//! - [`SJTPermutator`]: permutations by the Steinhaus-Johnson-Trotter algorithm, with Even's
//!   speedup.
//! - [`MultipleSwapPermutator`]: takes every `p`-th permutation of another permutator, for the
//!   smallest prime `p` larger than the number of elements.
pub mod heap_order;
pub mod heaps;
pub mod lex_count;
pub mod lexicographic;
pub mod multiple_swap;
pub mod sjt;

pub use heaps::HeapsPermutator;
pub use lexicographic::LexicographicPermutator;
pub use multiple_swap::MultipleSwapPermutator;
pub use sjt::SJTPermutator;
use vstd::prelude::*;
use crate::modifier_ordering::{ModifierOrdering, Order};

verus! {

broadcast use {vstd::seq_lib::group_to_multiset_ensures, vstd::multiset::group_multiset_axioms};

/// Permutator trait: yields the permutations of a sequence one after the other, and `None` once
/// they are exhausted.
pub trait Permutator<T>: Sized {
    /// The internal state of the permutator is consistent.
    spec fn wf(&self) -> bool;

    /// The permutator is in the state that `new` gives it for the elements `input`.
    spec fn initial(&self, input: Seq<T>) -> bool;

    /// A call of `next` on this state leaves the state `after` and returns `r`.
    spec fn transition(&self, after: Self, r: Option<Vec<T>>) -> bool;

    /// Creates the permutator from the sequence of `T`
    fn new(input: Vec<T>) -> (r: Self)
        ensures
            r.wf(),
            r.initial(input@),
    ;

    /// The next permutation, or `None` when there is none left.
    fn next(&mut self) -> (r: Option<Vec<T>>)
        requires
            old(self).wf(),
        ensures
            final(self).wf(),
            old(self).transition(*final(self), r),
    ;

    /// This function may reduce the number of permutations, by skipping permutations which start
    /// the exact same way as the last call to `next`, up to the position `pos`. Not every
    /// permutator has this function implemented.
    fn fail_pos(&mut self, pos: usize)
        requires
            old(self).wf(),
        ensures
            final(self).wf(),
    {
    }
}

/// `r` holds clones of the elements of `s`, in their order, or both are missing.
pub open spec fn clones_of<T: Clone>(r: Option<Vec<T>>, s: Option<Seq<T>>) -> bool {
    match (r, s) {
        (None, None) => true,
        (Some(v), Some(s)) => v@.len() == s.len() && forall|i: int| 0 <= i < s.len() ==> cloned::<T>(s[i], #[trigger] v@[i]),
        _ => false,
    }
}

/// The elements of `data` in the order of the positions `idx`.
pub open spec fn arranged<T>(data: Seq<T>, idx: Seq<usize>) -> Seq<T> {
    Seq::new(idx.len(), |i: int| data[idx[i] as int])
}

/// `s` with the elements at positions `a` and `b` exchanged.
pub open spec fn swapped<A>(s: Seq<A>, a: int, b: int) -> Seq<A> {
    s.update(a, s[b]).update(b, s[a])
}

/// The ordering `O` compares by its specification, and that specification is consistent: an
/// element that comes after another does not also come before it, and not coming after is
/// transitive.
pub open spec fn consistent<O: ModifierOrdering<T>, T>() -> bool {
    &&& O::obeys_order()
    &&& forall|a: T, b: T| #[trigger] O::order_spec(a, b) == Order::Greater ==> O::order_spec(b, a) != Order::Greater
    &&& forall|a: T, b: T, c: T|
        #[trigger] O::order_spec(a, b) != Order::Greater && #[trigger] O::order_spec(b, c) != Order::Greater
            ==> O::order_spec(a, c) != Order::Greater
}

/// Where the ordering `O` is consistent, no element of `s` comes after one that follows it.
pub open spec fn sorted_by<O: ModifierOrdering<T>, T>(s: Seq<T>) -> bool {
    consistent::<O, T>() ==> forall|i: int, j: int|
        0 <= i < j < s.len() ==> O::order_spec(#[trigger] s[i], #[trigger] s[j]) != Order::Greater
}

/// This is a trait to tell which types can be returned by a Permutator.
pub trait PermutatorItem<T> {
    /// Transforms the item to a vector of `T`. This is in order to allow a `Permutator` to be
    /// passed to a function dynamically.
    fn as_patches(self) -> Vec<T>;
}

impl<T> PermutatorItem<T> for Vec<T> {
    fn as_patches(self) -> (r: Vec<T>)
        ensures
            r == self,
    {
        self
    }
}

/// Whether `idx` holds every index below `n` exactly once.
pub open spec fn is_index_perm(idx: Seq<usize>, n: nat) -> bool {
    &&& idx.len() == n
    &&& forall|i: int| 0 <= i < n ==> idx[i] < n
    &&& forall|i: int, j: int| 0 <= i < n && 0 <= j < n && i != j ==> idx[i] != idx[j]
}

/// `p` gives, for each element of `data`, its position in `input`, and an element of `input`
/// that stood after another is placed before it only where the other comes after it.
pub open spec fn stable_witness<O: ModifierOrdering<T>, T>(p: Seq<int>, data: Seq<T>, input: Seq<T>) -> bool {
    &&& p.len() == input.len()
    &&& forall|i: int| 0 <= i < p.len() ==> 0 <= #[trigger] p[i] < p.len()
    &&& forall|i: int, j: int| 0 <= i < j < p.len() ==> #[trigger] p[i] != #[trigger] p[j]
    &&& forall|i: int| 0 <= i < p.len() ==> #[trigger] data[i] == input[p[i]]
    &&& forall|i: int, j: int|
        0 <= i < j < p.len() && #[trigger] p[i] > #[trigger] p[j] ==> O::order_spec(data[j], data[i]) == Order::Greater
}

/// `data` is what `O::sort` makes of `input`: the same elements, sorted where the ordering is
/// consistent, and, where the ordering sorts stably, elements keep their input order unless
/// the later one comes before the earlier one.
pub open spec fn sorted_from<O: ModifierOrdering<T>, T>(data: Seq<T>, input: Seq<T>) -> bool {
    &&& data.to_multiset() == input.to_multiset()
    &&& data.len() == input.len()
    &&& sorted_by::<O, T>(data)
    &&& O::obeys_order() && O::sorts_stably() ==> exists|p: Seq<int>| #[trigger] stable_witness::<O, T>(p, data, input)
}

/// What `O::sort` ensures of its result `data` from `input` is `sorted_from`.
pub proof fn lemma_sorted_from<O: ModifierOrdering<T>, T>(input: Seq<T>, data: Seq<T>)
    requires
        data.to_multiset() == input.to_multiset(),
        data.len() == input.len(),
        O::obeys_order() && (forall|a: T, b: T| #[trigger] O::order_spec(a, b) == Order::Greater ==> O::order_spec(b, a)
            != Order::Greater) && (forall|a: T, b: T, c: T|
            #[trigger] O::order_spec(a, b) != Order::Greater && #[trigger] O::order_spec(b, c)
                != Order::Greater ==> O::order_spec(a, c) != Order::Greater) ==> forall|i: int, j: int|
            0 <= i < j < data.len() ==> O::order_spec(#[trigger] data[i], #[trigger] data[j]) != Order::Greater,
        O::obeys_order() && O::sorts_stably() ==> exists|p: Seq<int>|
            {
                &&& #[trigger] p.len() == input.len()
                &&& forall|i: int| 0 <= i < p.len() ==> 0 <= #[trigger] p[i] < p.len()
                &&& forall|i: int, j: int| 0 <= i < j < p.len() ==> #[trigger] p[i] != #[trigger] p[j]
                &&& forall|i: int| 0 <= i < p.len() ==> #[trigger] data[i] == input[p[i]]
                &&& forall|i: int, j: int|
                    0 <= i < j < p.len() && #[trigger] p[i] > #[trigger] p[j] ==> O::order_spec(data[j], data[i])
                        == Order::Greater
            },
    ensures
        sorted_from::<O, T>(data, input),
{
    if O::obeys_order() && O::sorts_stably() {
        let p = choose|p: Seq<int>|
            {
                &&& #[trigger] p.len() == input.len()
                &&& forall|i: int| 0 <= i < p.len() ==> 0 <= #[trigger] p[i] < p.len()
                &&& forall|i: int, j: int| 0 <= i < j < p.len() ==> #[trigger] p[i] != #[trigger] p[j]
                &&& forall|i: int| 0 <= i < p.len() ==> #[trigger] data[i] == input[p[i]]
                &&& forall|i: int, j: int|
                    0 <= i < j < p.len() && #[trigger] p[i] > #[trigger] p[j] ==> O::order_spec(data[j], data[i])
                        == Order::Greater
            };
        assert(stable_witness::<O, T>(p, data, input));
    }
}

/// Where no element comes after another, a stable sort leaves the input as it is.
pub proof fn lemma_sorted_from_unordered<O: ModifierOrdering<T>, T>(data: Seq<T>, input: Seq<T>)
    requires
        sorted_from::<O, T>(data, input),
        O::obeys_order(),
        O::sorts_stably(),
        forall|a: T, b: T| #[trigger] O::order_spec(a, b) != Order::Greater,
    ensures
        data == input,
{
    let p = choose|p: Seq<int>| #[trigger] stable_witness::<O, T>(p, data, input);
    let n = p.len() as int;
    assert forall|i: int, j: int| 0 <= i < j < n implies p[i] < p[j] by {
        if p[i] > p[j] {
            assert(O::order_spec(data[j], data[i]) == Order::Greater);
        }
        assert(p[i] != p[j]);
    }
    // an increasing sequence of distinct positions below n is the identity
    assert forall|i: int| 0 <= i < n implies p[i] >= i by {
        lemma_increasing_lower(p, n, i);
    }
    assert forall|i: int| 0 <= i < n implies p[i] <= i by {
        lemma_increasing_upper(p, n, i);
    }
    assert(data =~= input);
}

proof fn lemma_increasing_lower(p: Seq<int>, n: int, i: int)
    requires
        p.len() == n,
        0 <= i < n,
        forall|k: int| 0 <= k < n ==> 0 <= #[trigger] p[k] < n,
        forall|a: int, b: int| 0 <= a < b < n ==> p[a] < p[b],
    ensures
        p[i] >= i,
    decreases i,
{
    if i > 0 {
        lemma_increasing_lower(p, n, i - 1);
        assert(p[i - 1] < p[i]);
    }
}

proof fn lemma_increasing_upper(p: Seq<int>, n: int, i: int)
    requires
        p.len() == n,
        0 <= i < n,
        forall|k: int| 0 <= k < n ==> 0 <= #[trigger] p[k] < n,
        forall|a: int, b: int| 0 <= a < b < n ==> p[a] < p[b],
    ensures
        p[i] <= i,
    decreases n - i,
{
    if i < n - 1 {
        lemma_increasing_upper(p, n, i + 1);
        assert(p[i] < p[i + 1]);
    } else {
        assert(p[i] < n);
    }
}

/// Swaps the elements at positions `a` and `b`.
pub fn swap_items<T>(v: &mut Vec<T>, a: usize, b: usize)
    requires
        a < old(v)@.len(),
        b < old(v)@.len(),
    ensures
        final(v)@ == old(v)@.update(a as int, old(v)@[b as int]).update(b as int, old(v)@[a as int]),
{
    if a == b {
        assert(v@ =~= old(v)@.update(a as int, old(v)@[b as int]).update(b as int, old(v)@[a as int]));
        return;
    }
    let (lo, hi) = if a < b { (a, b) } else { (b, a) };
    let y = v.remove(hi);
    let x = v.remove(lo);
    v.insert(lo, y);
    v.insert(hi, x);
    assert(v@ =~= old(v)@.update(a as int, old(v)@[b as int]).update(b as int, old(v)@[a as int]));
}

/// Swapping two elements keeps the elements.
pub proof fn lemma_swap_multiset<T>(s: Seq<T>, a: int, b: int)
    requires
        0 <= a < s.len(),
        0 <= b < s.len(),
    ensures
        s.update(a, s[b]).update(b, s[a]).to_multiset() == s.to_multiset(),
{
    vstd::seq_lib::to_multiset_update(s, a, s[b]);
    vstd::seq_lib::to_multiset_update(s.update(a, s[b]), b, s[a]);
    assert(s.update(a, s[b]).update(b, s[a]).to_multiset() =~= s.to_multiset());
}

/// A vector of clones of the elements of `data`.
pub fn clone_all<T: Clone>(data: &Vec<T>) -> (r: Vec<T>)
    ensures
        r@.len() == data@.len(),
        forall|i: int| 0 <= i < data@.len() ==> cloned::<T>(data@[i], #[trigger] r@[i]),
{
    let mut r: Vec<T> = Vec::new();
    let mut i: usize = 0;
    while i < data.len()
        invariant
            i <= data@.len(),
            r@.len() == i,
            forall|k: int| 0 <= k < i ==> cloned::<T>(data@[k], #[trigger] r@[k]),
        decreases data@.len() - i,
    {
        r.push(data[i].clone());
        i += 1;
    }
    r
}

} // verus!
