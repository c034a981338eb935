//! # The arrangements of Heap's algorithm
//!
//! The arrangement that Heap's algorithm reaches is a function of its counters: the counter of
//! the last position says how many times that position took a new element, and the counters
//! below say where the algorithm stands among the arrangements of the other positions. That
//! function is one-to-one on the counters that the algorithm can reach, so no arrangement comes
//! twice.
use vstd::prelude::*;
use crate::permutators::swapped;

verus! {

/// The positions `0..k` in order.
pub open spec fn ident(k: nat) -> Seq<int> {
    Seq::new(k, |p: int| p)
}

/// The arrangement `q` applied after `p`: position `x` takes what `p` holds at `q[x]`.
pub open spec fn compose(p: Seq<int>, q: Seq<int>) -> Seq<int> {
    Seq::new(q.len(), |x: int| p[q[x]])
}

/// The arrangement `q` with one more position, which stays where it is.
pub open spec fn ext(q: Seq<int>) -> Seq<int> {
    q.push(q.len() as int)
}

/// `p` takes each of the positions `0..k` exactly once.
pub open spec fn is_perm(p: Seq<int>, k: nat) -> bool {
    &&& p.len() == k
    &&& forall|x: int| 0 <= x < k ==> 0 <= #[trigger] p[x] < k
    &&& forall|x: int, y: int| 0 <= x < k && 0 <= y < k && x != y ==> #[trigger] p[x] != #[trigger] p[y]
}

proof fn lemma_compose_swapped(p: Seq<int>, q: Seq<int>, a: int, b: int)
    requires
        0 <= a < q.len(),
        0 <= b < q.len(),
    ensures
        compose(p, swapped(q, a, b)) == swapped(compose(p, q), a, b),
{
    assert(compose(p, swapped(q, a, b)) =~= swapped(compose(p, q), a, b));
}

proof fn lemma_ext_swapped(q: Seq<int>, a: int, b: int)
    requires
        0 <= a < q.len(),
        0 <= b < q.len(),
    ensures
        ext(swapped(q, a, b)) == swapped(ext(q), a, b),
{
    assert(ext(swapped(q, a, b)) =~= swapped(ext(q), a, b));
}

proof fn lemma_compose_ident(p: Seq<int>)
    ensures
        compose(p, ident(p.len())) == p,
{
    assert(compose(p, ident(p.len())) =~= p);
}

proof fn lemma_perm_compose(p: Seq<int>, q: Seq<int>, k: nat)
    requires
        is_perm(p, k),
        is_perm(q, k),
    ensures
        is_perm(compose(p, q), k),
{
    let r = compose(p, q);
    assert forall|x: int, y: int| 0 <= x < k && 0 <= y < k && x != y implies #[trigger] r[x] != #[trigger] r[y] by {
        assert(q[x] != q[y]);
    }
}

proof fn lemma_perm_swapped(p: Seq<int>, k: nat, a: int, b: int)
    requires
        is_perm(p, k),
        0 <= a < k,
        0 <= b < k,
    ensures
        is_perm(swapped(p, a, b), k),
{
    let r = swapped(p, a, b);
    assert forall|x: int, y: int| 0 <= x < k && 0 <= y < k && x != y implies #[trigger] r[x] != #[trigger] r[y] by {
        let x2 = if x == a { b } else if x == b { a } else { x };
        let y2 = if y == a { b } else if y == b { a } else { y };
        assert(r[x] == p[x2]);
        assert(r[y] == p[y2]);
    }
}

proof fn lemma_perm_ext(q: Seq<int>, k: nat)
    requires
        is_perm(q, k),
    ensures
        is_perm(ext(q), k + 1),
{
    let r = ext(q);
    assert forall|x: int| 0 <= x < k + 1 implies 0 <= #[trigger] r[x] < k + 1 by {
        if x < k {
            assert(r[x] == q[x]);
        }
    }
    assert forall|x: int, y: int| 0 <= x < k + 1 && 0 <= y < k + 1 && x != y implies #[trigger] r[x] != #[trigger] r[y] by {
        if x < k {
            assert(r[x] == q[x]);
        }
        if y < k {
            assert(r[y] == q[y]);
        }
    }
}

proof fn lemma_perm_ident(k: nat)
    ensures
        is_perm(ident(k), k),
{
}

/// Where `p` takes each position once, two arrangements that give the same one after `p` are
/// equal.
proof fn lemma_compose_cancel(p: Seq<int>, q1: Seq<int>, q2: Seq<int>, k: nat)
    requires
        is_perm(p, k),
        is_perm(q1, k),
        is_perm(q2, k),
        compose(p, q1) == compose(p, q2),
    ensures
        q1 == q2,
{
    assert forall|x: int| 0 <= x < k implies q1[x] == q2[x] by {
        let r1 = compose(p, q1);
        let r2 = compose(p, q2);
        assert(r1[x] == p[q1[x]]);
        assert(r2[x] == p[q2[x]]);
        assert(r1[x] == r2[x]);
        assert(0 <= q1[x] < k && 0 <= q2[x] < k);
    }
    assert(q1 =~= q2);
}

/// What a complete run of Heap's algorithm on the first `k` positions does to them: for an odd
/// `k` from 3 on, the first and the last position exchange their elements; for an even `k` from
/// 4 on, the elements at `k - 3` and `k - 2` move to the front, those at `1..k - 3` move one
/// position up, the last one goes to `k - 2` and the first one to the end.
pub open spec fn sig(k: nat) -> Seq<int> {
    if k <= 1 {
        ident(k)
    } else if k == 2 {
        seq![1int, 0int]
    } else if k % 2 == 1 {
        Seq::new(
            k,
            |p: int|
                if p == 0 {
                    k - 1
                } else if p == k - 1 {
                    0
                } else {
                    p
                },
        )
    } else {
        Seq::new(
            k,
            |p: int|
                if p == 0 {
                    k - 3
                } else if p == 1 {
                    k - 2
                } else if p <= k - 3 {
                    p - 1
                } else if p == k - 2 {
                    k - 1
                } else {
                    0
                },
        )
    }
}

/// The arrangement of the first `k` positions when the counter of position `k - 1` has reached
/// `m` and the counters below it are 0: each increment follows a complete run of the positions
/// below and exchanges the last position with the first one (where `k - 1` is even) or with the
/// position that the counter names.
pub open spec fn bs(k: nat, m: int) -> Seq<int>
    decreases m,
{
    if m <= 0 {
        ident(k)
    } else {
        swapped(
            compose(bs(k, m - 1), ext(sig((k - 1) as nat))),
            if (k - 1) % 2 == 0 {
                0
            } else {
                m - 1
            },
            k - 1,
        )
    }
}

/// The arrangement of the first `k` positions that Heap's algorithm reaches from the identity
/// with the counters `c`.
pub open spec fn pc(k: nat, c: Seq<usize>) -> Seq<int>
    decreases k,
{
    if k == 0 {
        Seq::empty()
    } else {
        compose(bs(k, c[k - 1] as int), ext(pc((k - 1) as nat, c)))
    }
}

proof fn lemma_sig_perm(k: nat)
    ensures
        is_perm(sig(k), k),
{
    if k == 2 {
        assert(sig(2)[0] == 1 && sig(2)[1] == 0);
    }
}

proof fn lemma_bs_perm(k: nat, m: int)
    requires
        k >= 1,
        m <= k,
    ensures
        is_perm(bs(k, m), k),
    decreases m,
{
    if m > 0 {
        lemma_bs_perm(k, m - 1);
        lemma_sig_perm((k - 1) as nat);
        lemma_perm_ext(sig((k - 1) as nat), (k - 1) as nat);
        lemma_perm_compose(bs(k, m - 1), ext(sig((k - 1) as nat)), k);
        let j = if (k - 1) % 2 == 0 {
            0
        } else {
            m - 1
        };
        lemma_perm_swapped(compose(bs(k, m - 1), ext(sig((k - 1) as nat))), k, j, k - 1);
    }
}

/// The counters below `k` are within their bounds: none exceeds its position.
pub open spec fn valid_below(c: Seq<usize>, k: nat) -> bool {
    k <= c.len() && forall|j: int| 0 <= j < k ==> #[trigger] c[j] <= j
}

pub(crate) proof fn lemma_pc_perm(k: nat, c: Seq<usize>)
    requires
        valid_below(c, k),
    ensures
        is_perm(pc(k, c), k),
    decreases k,
{
    if k > 0 {
        lemma_pc_perm((k - 1) as nat, c);
        lemma_perm_ext(pc((k - 1) as nat, c), (k - 1) as nat);
        lemma_bs_perm(k, c[k - 1] as int);
        lemma_perm_compose(bs(k, c[k - 1] as int), ext(pc((k - 1) as nat, c)), k);
    }
}

proof fn lemma_pc_prefix(k: nat, c1: Seq<usize>, c2: Seq<usize>)
    requires
        k <= c1.len(),
        k <= c2.len(),
        forall|j: int| 0 <= j < k ==> #[trigger] c1[j] == c2[j],
    ensures
        pc(k, c1) == pc(k, c2),
    decreases k,
{
    if k > 0 {
        lemma_pc_prefix((k - 1) as nat, c1, c2);
    }
}

pub(crate) proof fn lemma_pc_zeros(k: nat, c: Seq<usize>)
    requires
        k <= c.len(),
        forall|j: int| 0 <= j < k ==> #[trigger] c[j] == 0,
    ensures
        pc(k, c) == ident(k),
    decreases k,
{
    if k > 0 {
        lemma_pc_zeros((k - 1) as nat, c);
        assert(ext(ident((k - 1) as nat)) =~= ident(k));
        lemma_compose_ident(ident(k));
    }
}

/// The block starts for an even `k` from 4 on, written out.
pub open spec fn even_bs(k: nat, m: int) -> Seq<int> {
    if m <= 0 {
        ident(k)
    } else if m == 1 {
        Seq::new(
            k,
            |p: int|
                if p == 0 {
                    k - 1
                } else if p == k - 2 {
                    0
                } else if p == k - 1 {
                    k - 2
                } else {
                    p
                },
        )
    } else if m <= k - 2 {
        Seq::new(
            k,
            |p: int|
                if p == 0 {
                    if m % 2 == 1 {
                        k - 1
                    } else {
                        0
                    }
                } else if p == 1 {
                    k - 2
                } else if p <= m - 1 {
                    p - 1
                } else if p <= k - 3 {
                    p
                } else if p == k - 2 {
                    if m % 2 == 1 {
                        0
                    } else {
                        k - 1
                    }
                } else {
                    m - 1
                },
        )
    } else {
        Seq::new(
            k,
            |p: int|
                if p == 0 {
                    k - 1
                } else if p == 1 {
                    k - 2
                } else if p <= k - 2 {
                    p - 1
                } else {
                    0
                },
        )
    }
}

proof fn lemma_even_bs(k: nat, m: int)
    requires
        k >= 4,
        k % 2 == 0,
        0 <= m <= k - 1,
    ensures
        bs(k, m) == even_bs(k, m),
    decreases m,
{
    if m > 0 {
        lemma_even_bs(k, m - 1);
        let prev = even_bs(k, m - 1);
        let sg = ext(sig((k - 1) as nat));
        assert(sg.len() == k);
        assert forall|p: int| 0 <= p < k implies #[trigger] sg[p] == (if p == 0 {
            k - 2
        } else if p == k - 2 {
            0
        } else {
            p
        }) by {
            if p < k - 1 {
                assert(sg[p] == sig((k - 1) as nat)[p]);
            }
        }
        let c = compose(prev, sg);
        let r = swapped(c, m - 1, k - 1);
        assert(r =~= even_bs(k, m)) by {
            assert forall|p: int| 0 <= p < k implies #[trigger] r[p] == even_bs(k, m)[p] by {
                let q = if p == m - 1 {
                    k - 1
                } else if p == k - 1 {
                    m - 1
                } else {
                    p
                };
                assert(r[p] == c[q]);
                assert(c[q] == prev[sg[q]]);
            }
        }
    }
}

/// For an even `k` from 4 on, the element that the last position holds in block `m`.
proof fn lemma_even_last(k: nat, m1: int, m2: int)
    requires
        k >= 4,
        k % 2 == 0,
        0 <= m1 < m2 <= k - 1,
    ensures
        bs(k, m1)[k - 1] != bs(k, m2)[k - 1],
{
    lemma_even_bs(k, m1);
    lemma_even_bs(k, m2);
}

/// For an even `k` from 4 on, a complete run ends in `sig(k)`.
proof fn lemma_even_sig(k: nat)
    requires
        k >= 4,
        k % 2 == 0,
    ensures
        compose(bs(k, k - 1), ext(sig((k - 1) as nat))) == sig(k),
{
    lemma_even_bs(k, k - 1);
    let b = even_bs(k, k - 1);
    let sg = ext(sig((k - 1) as nat));
    let c = compose(b, sg);
    assert forall|p: int| 0 <= p < k implies #[trigger] c[p] == sig(k)[p] by {
        if p < k - 1 {
            assert(sg[p] == sig((k - 1) as nat)[p]);
        }
    }
    assert(c =~= sig(k));
}

/// For an odd `k` from 5 on, the positions that the last position's element is taken from,
/// block by block: one step of a block start moves each of them to the next.
pub open spec fn orb(k: nat) -> Seq<int> {
    Seq::new(
        k,
        |a: int|
            if a == 0 {
                k - 1
            } else if a <= k - 4 {
                k - 3 - a
            } else if a <= k - 2 {
                a
            } else {
                0
            },
    )
}

/// The place of position `p` in `orb(k)`.
pub open spec fn orb_pos(k: nat, p: int) -> int {
    if p == k - 1 {
        0
    } else if 1 <= p <= k - 4 {
        k - 3 - p
    } else if p == k - 3 || p == k - 2 {
        p
    } else {
        k - 1
    }
}

proof fn lemma_orb(k: nat)
    requires
        k >= 5,
        k % 2 == 1,
    ensures
        forall|a: int| 0 <= a < k ==> 0 <= #[trigger] orb(k)[a] < k && orb_pos(k, orb(k)[a]) == a,
        forall|p: int| 0 <= p < k ==> 0 <= #[trigger] orb_pos(k, p) < k && orb(k)[orb_pos(k, p)] == p,
{
}

/// For an odd `k` from 5 on, a block start is the previous one followed by `rho`.
pub open spec fn rho(k: nat) -> Seq<int> {
    swapped(ext(sig((k - 1) as nat)), 0, k - 1)
}

proof fn lemma_rho_orb(k: nat, a: int)
    requires
        k >= 5,
        k % 2 == 1,
        0 <= a < k,
    ensures
        rho(k)[orb(k)[a]] == orb(k)[if a + 1 < k {
            a + 1
        } else {
            0
        }],
{
    let sg = ext(sig((k - 1) as nat));
    assert forall|p: int| 0 <= p < k - 1 implies #[trigger] sg[p] == sig((k - 1) as nat)[p] by {
    }
    assert(sg[k - 1] == k - 1);
}

proof fn lemma_odd_bs(k: nat, m: int, a: int)
    requires
        k >= 5,
        k % 2 == 1,
        0 <= m,
        0 <= a < k,
    ensures
        bs(k, m).len() == k,
        bs(k, m)[orb(k)[a]] == orb(k)[(a + m) % (k as int)],
    decreases m,
{
    lemma_orb(k);
    if m == 0 {
        vstd::arithmetic::div_mod::lemma_small_mod(a as nat, k);
    } else {
        let sg = ext(sig((k - 1) as nat));
        lemma_compose_swapped(bs(k, m - 1), sg, 0, k - 1);
        assert(bs(k, m) == compose(bs(k, m - 1), rho(k)));
        lemma_rho_orb(k, a);
        let a1 = if a + 1 < k {
            a + 1
        } else {
            0
        };
        lemma_odd_bs(k, m - 1, a1);
        assert(bs(k, m)[orb(k)[a]] == bs(k, m - 1)[rho(k)[orb(k)[a]]]);
        if a + 1 < k {
            assert(a1 + m - 1 == a + m);
        } else {
            vstd::arithmetic::div_mod::lemma_mod_add_multiples_vanish(m - 1, k as int);
            assert(a + m == (k as int) + (m - 1));
        }
    }
}

/// For an odd `k` from 5 on, the last position holds a different element in each block, and a
/// complete run ends in `sig(k)`.
proof fn lemma_odd_facts(k: nat, m1: int, m2: int)
    requires
        k >= 5,
        k % 2 == 1,
        0 <= m1 < m2 <= k - 1,
    ensures
        bs(k, m1)[k - 1] != bs(k, m2)[k - 1],
        compose(bs(k, k - 1), ext(sig((k - 1) as nat))) == sig(k),
{
    lemma_orb(k);
    assert(orb(k)[0] == k - 1);
    lemma_odd_bs(k, m1, 0);
    lemma_odd_bs(k, m2, 0);
    vstd::arithmetic::div_mod::lemma_small_mod(m1 as nat, k);
    vstd::arithmetic::div_mod::lemma_small_mod(m2 as nat, k);
    assert(orb_pos(k, orb(k)[m1]) == m1);
    assert(orb_pos(k, orb(k)[m2]) == m2);
    let sg = ext(sig((k - 1) as nat));
    let c = compose(bs(k, k - 1), sg);
    lemma_compose_swapped(bs(k, k - 1), sg, 0, k - 1);
    assert(bs(k, k as int) == compose(bs(k, k - 1), rho(k)));
    assert forall|p: int| 0 <= p < k implies #[trigger] c[p] == sig(k)[p] by {
        let t = if p == 0 {
            k - 1
        } else if p == k - 1 {
            0
        } else {
            p
        };
        assert(sg[p] == rho(k)[t]);
        assert(c[p] == bs(k, k - 1)[rho(k)[t]]);
        assert(c[p] == bs(k, k as int)[t]);
        let a = orb_pos(k, t);
        lemma_odd_bs(k, k as int, a);
        vstd::arithmetic::div_mod::lemma_mod_add_multiples_vanish(a, k as int);
        vstd::arithmetic::div_mod::lemma_small_mod(a as nat, k);
    }
    assert(c =~= sig(k));
}

proof fn lemma_small_bs()
    ensures
        bs(1, 0) == seq![0int],
        bs(2, 0) == seq![0int, 1int],
        bs(2, 1) == seq![1int, 0int],
        bs(3, 0) == seq![0int, 1int, 2int],
        bs(3, 1) == seq![2int, 0int, 1int],
        bs(3, 2) == seq![1int, 2int, 0int],
{
    assert(bs(1, 0) =~= seq![0int]);
    assert(bs(2, 0) =~= seq![0int, 1int]);
    assert(ext(sig(1)) =~= seq![0int, 1int]);
    assert(compose(bs(2, 0), ext(sig(1))) =~= seq![0int, 1int]);
    assert(bs(2, 1) =~= seq![1int, 0int]);
    assert(bs(3, 0) =~= seq![0int, 1int, 2int]);
    assert(ext(sig(2)) =~= seq![1int, 0int, 2int]);
    assert(compose(bs(3, 0), ext(sig(2))) =~= seq![1int, 0int, 2int]);
    assert(bs(3, 1) =~= seq![2int, 0int, 1int]);
    assert(compose(bs(3, 1), ext(sig(2))) =~= seq![0int, 2int, 1int]);
    assert(bs(3, 2) =~= seq![1int, 2int, 0int]);
}

/// In the blocks of a complete run on the first `k` positions, the last position holds a
/// different element each time.
proof fn lemma_last_distinct(k: nat, m1: int, m2: int)
    requires
        k >= 1,
        0 <= m1 < m2 <= k - 1,
    ensures
        bs(k, m1)[k - 1] != bs(k, m2)[k - 1],
{
    if k <= 3 {
        lemma_small_bs();
    } else if k % 2 == 0 {
        lemma_even_last(k, m1, m2);
    } else {
        lemma_odd_facts(k, m1, m2);
    }
}

/// A complete run on the first `k` positions ends in `sig(k)`.
proof fn lemma_full_run(k: nat)
    requires
        k >= 1,
    ensures
        compose(bs(k, k - 1), ext(sig((k - 1) as nat))) == sig(k),
{
    if k <= 3 {
        lemma_small_bs();
        if k == 1 {
            assert(compose(bs(1, 0), ext(sig(0))) =~= sig(1));
        } else if k == 2 {
            assert(compose(bs(2, 1), ext(sig(1))) =~= sig(2));
        } else {
            assert(ext(sig(2)) =~= seq![1int, 0int, 2int]);
            assert(compose(bs(3, 2), ext(sig(2))) =~= sig(3));
        }
    } else if k % 2 == 0 {
        lemma_even_sig(k);
    } else {
        lemma_odd_facts(k, 0, 1);
    }
}

/// With every counter below `k` at its bound, the arrangement is `sig(k)`.
proof fn lemma_pc_max(k: nat, c: Seq<usize>)
    requires
        k <= c.len(),
        forall|j: int| 0 <= j < k ==> #[trigger] c[j] == j,
    ensures
        pc(k, c) == sig(k),
    decreases k,
{
    if k > 0 {
        lemma_pc_max((k - 1) as nat, c);
        lemma_full_run(k);
    }
}

/// Different counters within their bounds give different arrangements.
pub proof fn lemma_pc_injective(k: nat, c1: Seq<usize>, c2: Seq<usize>)
    requires
        valid_below(c1, k),
        valid_below(c2, k),
        pc(k, c1) == pc(k, c2),
    ensures
        forall|j: int| 0 <= j < k ==> #[trigger] c1[j] == c2[j],
    decreases k,
{
    if k > 0 {
        let q1 = ext(pc((k - 1) as nat, c1));
        let q2 = ext(pc((k - 1) as nat, c2));
        lemma_pc_perm((k - 1) as nat, c1);
        lemma_pc_perm((k - 1) as nat, c2);
        lemma_perm_ext(pc((k - 1) as nat, c1), (k - 1) as nat);
        lemma_perm_ext(pc((k - 1) as nat, c2), (k - 1) as nat);
        let m1 = c1[k - 1] as int;
        let m2 = c2[k - 1] as int;
        assert(pc(k, c1)[k - 1] == bs(k, m1)[q1[k - 1]]);
        assert(pc(k, c2)[k - 1] == bs(k, m2)[q2[k - 1]]);
        assert(q1[k - 1] == k - 1 && q2[k - 1] == k - 1);
        if m1 < m2 {
            lemma_last_distinct(k, m1, m2);
        } else if m2 < m1 {
            lemma_last_distinct(k, m2, m1);
        }
        assert(m1 == m2);
        lemma_bs_perm(k, m1);
        lemma_compose_cancel(bs(k, m1), q1, q2, k);
        assert(pc((k - 1) as nat, c1) =~= q1.drop_last());
        assert(pc((k - 1) as nat, c2) =~= q2.drop_last());
        lemma_pc_injective((k - 1) as nat, c1, c2);
    }
}

/// The counters after a step at position `i`: those below `i` are 0 again, the one at `i`
/// counts up.
pub open spec fn step_counters(c: Seq<usize>, i: int) -> Seq<usize> {
    Seq::new(
        c.len(),
        |j: int|
            if j < i {
                0usize
            } else if j == i {
                (c[i] + 1) as usize
            } else {
                c[j]
            },
    )
}

/// A step at position `i`, the first one whose counter is below its bound, exchanges the
/// element at `i` with the first one (for an even `i`) or with the one that the counter names:
/// the arrangement of the new counters is the old one with these two positions exchanged.
pub proof fn lemma_pc_step(k: nat, c: Seq<usize>, i: int)
    requires
        valid_below(c, k),
        c.len() <= usize::MAX,
        0 <= i < k,
        c[i] < i,
        forall|j: int| 0 <= j < i ==> #[trigger] c[j] == j,
    ensures
        pc(k, step_counters(c, i)) == swapped(
            pc(k, c),
            if i % 2 == 0 {
                0
            } else {
                c[i] as int
            },
            i,
        ),
    decreases k,
{
    let c2 = step_counters(c, i);
    let jj = if i % 2 == 0 {
        0
    } else {
        c[i] as int
    };
    if i == k - 1 {
        lemma_pc_zeros((k - 1) as nat, c2);
        assert(ext(ident((k - 1) as nat)) =~= ident(k));
        lemma_bs_perm(k, c[i] + 1);
        lemma_compose_ident(bs(k, c[i] + 1));
        assert(c2[k - 1] == c[i] + 1);
        assert(pc(k, c2) == bs(k, c[i] + 1));
        lemma_pc_max((k - 1) as nat, c);
        assert(pc(k, c) == compose(bs(k, c[i] as int), ext(sig((k - 1) as nat))));
    } else {
        lemma_pc_step((k - 1) as nat, c, i);
        lemma_pc_perm((k - 1) as nat, c);
        lemma_pc_prefix((k - 1) as nat, c2, step_counters(c, i));
        lemma_ext_swapped(pc((k - 1) as nat, c), jj, i);
        lemma_pc_perm((k - 1) as nat, c);
        lemma_perm_ext(pc((k - 1) as nat, c), (k - 1) as nat);
        lemma_compose_swapped(bs(k, c[k - 1] as int), ext(pc((k - 1) as nat, c)), jj, i);
        assert(c2[k - 1] == c[k - 1]);
    }
}

} // verus!
