use primal::Primes;
use snowcap::modifier_ordering::{NoOrdering, StdOrdering};
use snowcap::permutators::lexicographic::reverse_vec_part;
use snowcap::permutators::{
    HeapsPermutator, LexicographicPermutator, MultipleSwapPermutator, Permutator, SJTPermutator,
};

#[derive(Clone, Copy, PartialEq, Debug)]
enum Elems {
    A,
    B,
    C,
    D,
}

use Elems::{A, B, C, D};

fn collect_all<T, P: Permutator<T>>(mut p: P) -> Vec<Vec<T>> {
    let mut result = Vec::new();
    while let Some(x) = p.next() {
        result.push(x);
    }
    result
}

type SjtPermutator = SJTPermutator<NoOrdering, Elems>;
type SwapPermutator = MultipleSwapPermutator<SJTPermutator<NoOrdering, Elems>, Elems>;

#[test]
fn test_sjt_permutator_0() {
    let data: Vec<Elems> = vec![];
    let permutations: Vec<Vec<Elems>> = collect_all(SjtPermutator::new(data));
    assert_eq!(permutations, vec![vec![]]);
}

#[test]
fn test_sjt_permutator_1() {
    let data: Vec<Elems> = vec![A];
    let permutations: Vec<Vec<Elems>> = collect_all(SjtPermutator::new(data));
    assert_eq!(permutations, vec![vec![A]]);
}

#[test]
fn test_sjt_permutator_2() {
    let data: Vec<Elems> = vec![A, B];
    let permutations: Vec<Vec<Elems>> = collect_all(SjtPermutator::new(data));
    assert_eq!(permutations, vec![vec![A, B], vec![B, A]]);
}

#[test]
fn test_sjt_permutator_3() {
    let data: Vec<Elems> = vec![A, B, C];
    let permutations: Vec<Vec<Elems>> = collect_all(SjtPermutator::new(data));
    assert_eq!(
        permutations,
        vec![
            vec![A, B, C],
            vec![A, C, B],
            vec![C, A, B],
            vec![C, B, A],
            vec![B, C, A],
            vec![B, A, C]
        ]
    );
}

#[test]
fn test_sjt_permutator_4() {
    let data: Vec<Elems> = vec![A, B, C, D];
    let permutations: Vec<Vec<Elems>> = collect_all(SjtPermutator::new(data));
    assert_eq!(
        permutations,
        vec![
            vec![A, B, C, D],
            vec![A, B, D, C],
            vec![A, D, B, C],
            vec![D, A, B, C],
            vec![D, A, C, B],
            vec![A, D, C, B],
            vec![A, C, D, B],
            vec![A, C, B, D],
            vec![C, A, B, D],
            vec![C, A, D, B],
            vec![C, D, A, B],
            vec![D, C, A, B],
            vec![D, C, B, A],
            vec![C, D, B, A],
            vec![C, B, D, A],
            vec![C, B, A, D],
            vec![B, C, A, D],
            vec![B, C, D, A],
            vec![B, D, C, A],
            vec![D, B, C, A],
            vec![D, B, A, C],
            vec![B, D, A, C],
            vec![B, A, D, C],
            vec![B, A, C, D],
        ]
    );
}

#[test]
fn test_multiple_swap_permutator_0() {
    let data: Vec<Elems> = vec![];
    let permutations: Vec<Vec<Elems>> = collect_all(SwapPermutator::new(data));
    assert_eq!(permutations, vec![vec![]]);
}

#[test]
fn test_multiple_swap_permutator_1() {
    let data: Vec<Elems> = vec![A];
    let permutations: Vec<Vec<Elems>> = collect_all(SwapPermutator::new(data));
    assert_eq!(permutations, vec![vec![A]]);
}

#[test]
fn test_multiple_swap_permutator_2() {
    let data: Vec<Elems> = vec![A, B];
    let permutations: Vec<Vec<Elems>> = collect_all(SwapPermutator::new(data));
    assert_eq!(permutations, vec![vec![A, B], vec![B, A]]);
}

#[test]
fn test_multiple_swap_permutator_3() {
    let data: Vec<Elems> = vec![A, B, C];
    let permutations: Vec<Vec<Elems>> = collect_all(SwapPermutator::new(data));
    assert_eq!(
        permutations,
        vec![
            vec![A, B, C],
            vec![A, C, B],
            vec![C, A, B],
            vec![C, B, A],
            vec![B, C, A],
            vec![B, A, C]
        ]
    );
}

#[test]
fn test_multiple_swap_permutator_4() {
    let data: Vec<Elems> = vec![A, B, C, D];
    let permutations: Vec<Vec<Elems>> = collect_all(SwapPermutator::new(data));
    assert_eq!(
        permutations,
        vec![
            vec![A, B, C, D],
            vec![A, D, C, B],
            vec![C, D, A, B],
            vec![C, B, A, D],
            vec![D, B, A, C],
            vec![A, B, D, C],
            vec![A, C, D, B],
            vec![D, C, A, B],
            vec![B, C, A, D],
            vec![B, D, A, C],
            vec![A, D, B, C],
            vec![A, C, B, D],
            vec![D, C, B, A],
            vec![B, C, D, A],
            vec![B, A, D, C],
            vec![D, A, B, C],
            vec![C, A, B, D],
            vec![C, D, B, A],
            vec![B, D, C, A],
            vec![B, A, C, D],
            vec![D, A, C, B],
            vec![C, A, D, B],
            vec![C, B, D, A],
            vec![D, B, C, A],
        ]
    );
}

#[test]
fn test_reverse_vec_part() {
    let mut v = vec![0, 1, 2, 3, 4];
    reverse_vec_part(&mut v, 5);
    assert_eq!(v, vec![0, 1, 2, 3, 4]);

    let mut v = vec![0, 1, 2, 3, 4];
    reverse_vec_part(&mut v, 4);
    assert_eq!(v, vec![0, 1, 2, 3, 4]);

    let mut v = vec![0, 1, 2, 3, 4];
    reverse_vec_part(&mut v, 3);
    assert_eq!(v, vec![0, 1, 2, 4, 3]);

    let mut v = vec![0, 1, 2, 3, 4];
    reverse_vec_part(&mut v, 2);
    assert_eq!(v, vec![0, 1, 4, 3, 2]);

    let mut v = vec![0, 1, 2, 3, 4];
    reverse_vec_part(&mut v, 1);
    assert_eq!(v, vec![0, 4, 3, 2, 1]);

    let mut v = vec![0, 1, 2, 3, 4];
    reverse_vec_part(&mut v, 0);
    assert_eq!(v, vec![4, 3, 2, 1, 0]);
}

// The modifiers of the following tests are stood for by router ids, in the order of the
// modifiers' routers.
type Heaps = HeapsPermutator<NoOrdering, u32>;
type HeapsOrdered = HeapsPermutator<StdOrdering<u32>, u32>;
type Lexicographic = LexicographicPermutator<StdOrdering<u32>, u32>;

#[test]
fn test_heaps_permutator_0() {
    let data: Vec<u32> = Vec::new();
    let permutations: Vec<Vec<u32>> = collect_all(Heaps::new(data));
    assert_eq!(permutations, vec![vec![]]);
}

#[test]
fn test_heaps_permutator_1() {
    let mut data: Vec<u32> = Vec::new();
    let p = 0;
    data.push(p);
    let permutations: Vec<Vec<u32>> = collect_all(Heaps::new(data));
    assert_eq!(permutations, vec![vec![p]]);
}

#[test]
fn test_heaps_permutator_2() {
    let mut data: Vec<u32> = Vec::new();
    let p1 = 2;
    let p2 = 1;
    data.push(p1);
    data.push(p2);
    let permutations: Vec<Vec<u32>> = collect_all(Heaps::new(data));
    assert_eq!(permutations, vec![vec![p1, p2], vec![p2, p1]]);
}

#[test]
fn test_heaps_permutator_3() {
    let mut data: Vec<u32> = Vec::new();
    let p1 = 3;
    let p2 = 2;
    let p3 = 1;
    data.push(p1);
    data.push(p2);
    data.push(p3);
    let permutations: Vec<Vec<u32>> = collect_all(Heaps::new(data));
    assert_eq!(
        permutations,
        vec![
            vec![p1, p2, p3],
            vec![p2, p1, p3],
            vec![p3, p1, p2],
            vec![p1, p3, p2],
            vec![p2, p3, p1],
            vec![p3, p2, p1],
        ]
    );
}

#[test]
fn test_heaps_ordered_permutator_0() {
    let data: Vec<u32> = Vec::new();
    let permutations: Vec<Vec<u32>> = collect_all(HeapsOrdered::new(data));
    assert_eq!(permutations, vec![vec![]]);
}

#[test]
fn test_heaps_ordered_permutator_1() {
    let mut data: Vec<u32> = Vec::new();
    let p = 0;
    data.push(p);
    let permutations: Vec<Vec<u32>> = collect_all(HeapsOrdered::new(data));
    assert_eq!(permutations, vec![vec![p]]);
}

#[test]
fn test_heaps_ordered_permutator_2() {
    let mut data: Vec<u32> = Vec::new();
    let p1 = 1;
    let p2 = 2;
    data.push(p2);
    data.push(p1);
    let permutations: Vec<Vec<u32>> = collect_all(HeapsOrdered::new(data));
    assert_eq!(permutations, vec![vec![p1, p2], vec![p2, p1]]);
}

#[test]
fn test_heaps_ordered_permutator_3() {
    let mut data: Vec<u32> = Vec::new();
    let p1 = 1;
    let p2 = 2;
    let p3 = 3;
    data.push(p3);
    data.push(p2);
    data.push(p1);
    let permutations: Vec<Vec<u32>> = collect_all(HeapsOrdered::new(data));
    assert_eq!(
        permutations,
        vec![
            vec![p1, p2, p3],
            vec![p2, p1, p3],
            vec![p3, p1, p2],
            vec![p1, p3, p2],
            vec![p2, p3, p1],
            vec![p3, p2, p1],
        ]
    );
}

#[test]
fn test_ordered_permutation_0() {
    let data: Vec<u32> = Vec::new();
    let permutations: Vec<Vec<u32>> = collect_all(Lexicographic::new(data));
    assert_eq!(permutations, vec![vec![]]);
}

#[test]
fn test_ordered_permutator_1() {
    let mut data: Vec<u32> = Vec::new();
    let p = 0;
    data.push(p);
    let permutations: Vec<Vec<u32>> = collect_all(Lexicographic::new(data));
    assert_eq!(permutations, vec![vec![p]]);
}

#[test]
fn test_ordered_permutator_2() {
    let mut data: Vec<u32> = Vec::new();
    let p1 = 1;
    let p2 = 2;
    data.push(p2);
    data.push(p1);
    let permutations: Vec<Vec<u32>> = collect_all(Lexicographic::new(data));
    assert_eq!(permutations, vec![vec![p1, p2], vec![p2, p1]]);
}

#[test]
fn test_ordered_permutator_3() {
    let mut data: Vec<u32> = Vec::new();
    let p1 = 1;
    let p2 = 2;
    let p3 = 3;
    data.push(p3);
    data.push(p1);
    data.push(p2);
    let permutations: Vec<Vec<u32>> = collect_all(Lexicographic::new(data));
    assert_eq!(
        permutations,
        vec![
            vec![p1, p2, p3],
            vec![p1, p3, p2],
            vec![p2, p1, p3],
            vec![p2, p3, p1],
            vec![p3, p1, p2],
            vec![p3, p2, p1],
        ]
    );
}

#[test]
fn test_first_prime_bigger() {
    assert_eq!(Primes::all().skip_while(|p| *p <= 0).next().unwrap(), 2);
    assert_eq!(Primes::all().skip_while(|p| *p <= 1).next().unwrap(), 2);
    assert_eq!(Primes::all().skip_while(|p| *p <= 2).next().unwrap(), 3);
    assert_eq!(Primes::all().skip_while(|p| *p <= 3).next().unwrap(), 5);
    assert_eq!(Primes::all().skip_while(|p| *p <= 4).next().unwrap(), 5);
    assert_eq!(Primes::all().skip_while(|p| *p <= 5).next().unwrap(), 7);
}

fn lex_less(a: &[u32], b: &[u32]) -> bool {
    for k in 0..a.len() {
        if a[k] != b[k] {
            return a[k] < b[k];
        }
    }
    false
}

#[test]
fn lexicographic_enumerates_every_arrangement_once() {
    let mut p = Lexicographic::new(vec![3, 1, 4, 2]);
    let mut all: Vec<Vec<u32>> = Vec::new();
    while let Some(x) = p.next() {
        all.push(x);
    }
    // 4! arrangements, from the sorted input to its reverse, each after the one before
    assert_eq!(all.len(), 24);
    assert_eq!(all[0], vec![1, 2, 3, 4]);
    assert_eq!(all[23], vec![4, 3, 2, 1]);
    for i in 1..all.len() {
        assert!(lex_less(&all[i - 1], &all[i]));
        let mut sorted = all[i].clone();
        sorted.sort();
        assert_eq!(sorted, vec![1, 2, 3, 4]);
    }
    // once exhausted, it stays exhausted
    assert_eq!(p.next(), None);
    assert_eq!(p.next(), None);
}

#[test]
fn heaps_returns_factorial_many_arrangements() {
    for n in 0..6u32 {
        let data: Vec<u32> = (0..n).collect();
        let mut p = HeapsPermutator::<NoOrdering, u32>::new(data.clone());
        let mut all: Vec<Vec<u32>> = Vec::new();
        while let Some(x) = p.next() {
            all.push(x);
        }
        let fact: usize = (1..=n as usize).product();
        assert_eq!(all.len(), fact);
        assert_eq!(all[0], data);
        for a in all.iter() {
            let mut sorted = a.clone();
            sorted.sort();
            assert_eq!(sorted, data);
        }
        assert_eq!(p.next(), None);
        assert_eq!(p.next(), None);
    }
}

#[test]
fn sjt_moves_one_neighbour_pair_per_step() {
    let mut p = SjtPermutator::new(vec![A, B, C, D]);
    let mut all: Vec<Vec<Elems>> = Vec::new();
    while let Some(x) = p.next() {
        all.push(x);
    }
    assert_eq!(all[0], vec![A, B, C, D]);
    for i in 1..all.len() {
        let diff: Vec<usize> = (0..4).filter(|k| all[i][*k] != all[i - 1][*k]).collect();
        assert_eq!(diff.len(), 2);
        assert_eq!(diff[1], diff[0] + 1);
        assert_eq!(all[i][diff[0]], all[i - 1][diff[1]]);
    }
    // once exhausted, it stays exhausted
    assert_eq!(p.next(), None);
    assert_eq!(p.next(), None);
}
