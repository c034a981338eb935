//! # Multiple-Swap Permutator
//!
//! This is a permutator that is based on another permutator, calling the next method multiple
//! times in order to have larger differences between each iteration.
use vstd::prelude::*;
use crate::permutators::{clone_all, Permutator};

verus! {

/// Whether `p` is a prime number.
pub open spec fn is_prime(p: int) -> bool {
    &&& p >= 2
    &&& forall|d: int| 2 <= d < p ==> #[trigger] (p % d) != 0
}

/// Whether `p` is larger than `n`.
fn exceeds(p: usize, n: usize) -> (r: bool)
    ensures
        r == (p > n),
{
    p > n
}

/// Calls `primal::Primes::all().find(..)`, with a test whether a prime is larger than `n`.
/// `Primes::all()` yields the primes in increasing order, so what comes out is the smallest
/// prime larger than `n`. `4294967291` is the largest prime below `2^32`, so for every `n` that
/// `requires` admits such a prime fits in a `usize` of 32 bits as of 64, and is found.
#[verifier::external_body]
fn least_prime_above(n: usize) -> (r: usize)
    requires
        2 <= n < 4294967291,
    ensures
        r > n,
        is_prime(r as int),
        forall|q: int| n < q < r ==> !is_prime(q),
{
    primal::Primes::all().find(|p| exceeds(*p, n)).unwrap()
}

/// # Multiple-Swap Permutator
///
/// This is a permutator that is based on another permutator, calling the next method multiple
/// times in order to have larger differences between each iteration. The number of times to
/// call next, before we return the element, is determined by taking the next prime number, larger
/// than the total number of elements to produce the permutator. This way, we are guaranteed that
/// we return each element exactly once.
pub struct MultipleSwapPermutator<P, T> {
    /// Data, needed for generating the permutator multiple times
    data: Vec<T>,
    /// Current permutator
    permutator: P,
    /// number of times to wait until we yield the next element. `num` is set to 1 if `len <= 3`,
    /// since for small `len`, the next prime number is larger than, or equal to `len - 1`, in which
    /// case it makes no sense to wait that long. `num` is always a prime number.
    num: usize,
    /// The first iteration is always returned.
    started: bool,
    /// Once the inner permutator is exhausted where an element is due, every permutation was
    /// returned, and `None` is returned from then on.
    finished: bool,
}

impl<P, T> MultipleSwapPermutator<P, T> {
    /// The number of permutations of the inner permutator between two that are returned.
    pub closed spec fn step(&self) -> nat {
        self.num as nat
    }

    /// The elements, kept to make the inner permutator anew.
    pub closed spec fn data_view(&self) -> Seq<T> {
        self.data@
    }

    /// The inner permutator.
    pub closed spec fn inner(&self) -> P {
        self.permutator
    }

    /// Whether the permutations are exhausted.
    pub closed spec fn is_finished(&self) -> bool {
        self.finished
    }

    /// Whether the first permutation was already returned.
    pub closed spec fn has_started(&self) -> bool {
        self.started
    }
}

/// `f` is an inner permutator made anew, by `new`, for clones of the elements `data`.
pub open spec fn restarted<P: Permutator<T>, T: Clone>(f: P, data: Seq<T>) -> bool {
    exists|c: Seq<T>|
        c.len() == data.len() && (forall|i: int| 0 <= i < data.len() ==> cloned::<T>(data[i], #[trigger] c[i]))
            && #[trigger] f.initial(c)
}

/// `b` is the inner permutator `a` after one permutation was passed over: a call of `next` on
/// `a`, and where that call found no permutation left, a call of `next` on an inner permutator
/// made anew for clones of `data`.
pub open spec fn skip_one<P: Permutator<T>, T: Clone>(a: P, b: P, data: Seq<T>) -> bool {
    exists|m: P, r: Option<Vec<T>>|
        #[trigger] a.transition(m, r) && if r is Some {
            b == m
        } else {
            exists|f: P, r2: Option<Vec<T>>| restarted(f, data) && #[trigger] f.transition(b, r2)
        }
}

/// The inner permutators `chain` lead from one to the next by passing over one permutation.
pub open spec fn skip_chain<P: Permutator<T>, T: Clone>(chain: Seq<P>, data: Seq<T>) -> bool {
    forall|j: int| 0 <= j < chain.len() - 1 ==> skip_one(#[trigger] chain[j], chain[j + 1], data)
}

/// `b` is the inner permutator `a` after `k` permutations were passed over.
pub open spec fn skips<P: Permutator<T>, T: Clone>(a: P, b: P, k: nat, data: Seq<T>) -> bool {
    exists|chain: Seq<P>|
        chain.len() == k + 1 && chain[0] == a && chain[k as int] == b && #[trigger] skip_chain(chain, data)
}

impl<P: Permutator<T>, T: Clone> Permutator<T> for MultipleSwapPermutator<P, T> {
    /// The inner permutator is consistent, and the step is positive.
    closed spec fn wf(&self) -> bool {
        &&& self.permutator.wf()
        &&& self.num >= 1
    }

    /// The elements are clones of the input, the inner permutator is made for the input, and the
    /// step is one for at most three elements, and otherwise the smallest prime larger than the
    /// number of elements. An input of `4294967291` elements or more is taken with a step of one
    /// as well.
    open spec fn initial(&self, input: Seq<T>) -> bool {
        &&& self.data_view().len() == input.len()
        &&& forall|i: int| 0 <= i < input.len() ==> cloned::<T>(input[i], #[trigger] self.data_view()[i])
        &&& self.inner().initial(input)
        &&& (input.len() <= 3 || input.len() >= 4294967291) ==> self.step() == 1
        &&& 3 < input.len() < 4294967291 ==> {
            &&& self.step() > input.len()
            &&& is_prime(self.step() as int)
            &&& forall|q: int| input.len() < q < self.step() ==> !is_prime(q)
        }
        &&& !self.has_started()
        &&& !self.is_finished()
    }

    /// The first call returns the first permutation of the inner permutator. Every further call
    /// passes over `step - 1` permutations of the inner permutator, making it anew whenever it is
    /// exhausted, and returns what the inner permutator returns next; once that is `None`, the
    /// permutator is finished and returns `None` from then on.
    open spec fn transition(&self, after: Self, r: Option<Vec<T>>) -> bool {
        &&& after.step() == self.step()
        &&& after.data_view() == self.data_view()
        &&& after.has_started()
        &&& if !self.has_started() {
            &&& self.inner().transition(after.inner(), r)
            &&& after.is_finished() == self.is_finished()
        } else if self.is_finished() {
            &&& r is None
            &&& after.is_finished()
            &&& after.inner() == self.inner()
        } else {
            &&& exists|m: P|
                #[trigger] skips(self.inner(), m, (self.step() - 1) as nat, self.data_view()) && m.transition(
                    after.inner(),
                    r,
                )
            &&& after.is_finished() == r is None
        }
    }

    fn new(input: Vec<T>) -> (r: Self) {
        let len = input.len();
        let data = clone_all(&input);
        let num = if len <= 3 || len >= 4294967291 {
            1
        } else {
            least_prime_above(len)
        };
        MultipleSwapPermutator { data, permutator: P::new(input), num, started: false, finished: false }
    }

    fn next(&mut self) -> (r: Option<Vec<T>>) {
        // handle the start
        if !self.started {
            self.started = true;
            return self.permutator.next();
        }
        // if finished, always return None
        if self.finished {
            return None;
        }
        let ghost data = self.data@;
        let ghost first = self.permutator;
        // repeat for num - 1 times, to take the next, and rebuild the permutator if it fails
        let mut i: usize = 0;
        let ghost mut chain: Seq<P> = seq![first];
        while i < self.num - 1
            invariant
                self.permutator.wf(),
                self.num >= 1,
                self.num == old(self).num,
                self.data@ == data,
                data == old(self).data@,
                first == old(self).permutator,
                self.started,
                !self.finished,
                i <= self.num - 1,
                chain.len() == i + 1,
                chain[0] == first,
                chain[i as int] == self.permutator,
                skip_chain(chain, data),
            decreases self.num - 1 - i,
        {
            let ghost a = self.permutator;
            let r1 = self.permutator.next();
            if r1.is_none() {
                let ghost m = self.permutator;
                let fresh = clone_all(&self.data);
                self.permutator = P::new(fresh);
                let ghost f = self.permutator;
                let r2 = self.permutator.next();
                proof {
                    assert(restarted(f, data));
                    assert(a.transition(m, r1));
                    assert(f.transition(self.permutator, r2));
                }
            }
            proof {
                assert(skip_one(a, self.permutator, data));
                let next_chain = chain.push(self.permutator);
                assert forall|j: int| 0 <= j < next_chain.len() - 1 implies skip_one(
                    #[trigger] next_chain[j],
                    next_chain[j + 1],
                    data,
                ) by {
                    if j < chain.len() - 1 {
                        assert(next_chain[j] == chain[j] && next_chain[j + 1] == chain[j + 1]);
                    }
                }
                chain = next_chain;
            }
            i += 1;
        }
        // now, take the permutator result, and check if it is now done.
        let ghost last = self.permutator;
        let r = self.permutator.next();
        if r.is_none() {
            self.finished = true;
        }
        proof {
            assert(skip_chain(chain, data));
            assert(skips(old(self).inner(), last, (old(self).step() - 1) as nat, old(self).data_view()));
            assert(last.transition(self.permutator, r));
        }
        r
    }
}

} // verus!
