use ordersynth::permutator::TreePermutator;

#[derive(Clone, Copy, PartialEq, Debug)]
enum Elems {
    A,
    B,
    C,
    D,
}

use Elems::A;
use Elems::B;
use Elems::C;
use Elems::D;

fn collect_all(mut p: TreePermutator<Elems>) -> Vec<Vec<Elems>> {
    let mut out: Vec<Vec<Elems>> = Vec::new();
    while let Some(v) = p.next() {
        out.push(v);
    }
    out
}

#[test]
fn test_tree_0() {
    let data: Vec<Elems> = vec![];
    let permutations: Vec<Vec<Elems>> = collect_all(TreePermutator::new(data));
    assert_eq!(permutations, vec![vec![]]);
}

#[test]
fn test_tree_1() {
    let data: Vec<Elems> = vec![A];
    let permutations: Vec<Vec<Elems>> = collect_all(TreePermutator::new(data));
    assert_eq!(permutations, vec![vec![A]]);
}

#[test]
fn test_tree_2() {
    let data: Vec<Elems> = vec![A, B];
    let permutations: Vec<Vec<Elems>> = collect_all(TreePermutator::new(data));
    assert_eq!(permutations, vec![vec![A, B], vec![B, A]]);
}

#[test]
fn test_tree_3() {
    let data: Vec<Elems> = vec![A, B, C];
    let permutations: Vec<Vec<Elems>> = collect_all(TreePermutator::new(data));
    assert_eq!(
        permutations,
        vec![
            vec![A, B, C],
            vec![A, C, B],
            vec![B, A, C],
            vec![B, C, A],
            vec![C, A, B],
            vec![C, B, A]
        ]
    );
}

#[test]
fn test_tree_4() {
    let data: Vec<Elems> = vec![A, B, C, D];
    let permutations: Vec<Vec<Elems>> = collect_all(TreePermutator::new(data));
    assert_eq!(
        permutations,
        vec![
            vec![A, B, C, D],
            vec![A, B, D, C],
            vec![A, C, B, D],
            vec![A, C, D, B],
            vec![A, D, B, C],
            vec![A, D, C, B],
            vec![B, A, C, D],
            vec![B, A, D, C],
            vec![B, C, A, D],
            vec![B, C, D, A],
            vec![B, D, A, C],
            vec![B, D, C, A],
            vec![C, A, B, D],
            vec![C, A, D, B],
            vec![C, B, A, D],
            vec![C, B, D, A],
            vec![C, D, A, B],
            vec![C, D, B, A],
            vec![D, A, B, C],
            vec![D, A, C, B],
            vec![D, B, A, C],
            vec![D, B, C, A],
            vec![D, C, A, B],
            vec![D, C, B, A]
        ]
    );
}

#[test]
fn test_tree_skip() {
    let data: Vec<Elems> = vec![A, B, C, D];
    let mut permutator = TreePermutator::new(data);
    let mut permutations: Vec<Vec<Elems>> = Vec::new();
    // push ABCD
    permutations.push(permutator.next().unwrap());
    // tell that A* does not work
    permutator.fail_pos(0);
    // push BACD
    permutations.push(permutator.next().unwrap());
    // tell that BA* does not work
    permutator.fail_pos(1);
    // push BCAD
    permutations.push(permutator.next().unwrap());
    // tell that BCA* does not work
    permutator.fail_pos(2);
    // push BCDA
    permutations.push(permutator.next().unwrap());
    // tell that BCDA does not work
    permutator.fail_pos(3);
    // push BDAC
    permutations.push(permutator.next().unwrap());

    // compare
    assert_eq!(
        permutations,
        vec![
            vec![A, B, C, D],
            vec![B, A, C, D],
            vec![B, C, A, D],
            vec![B, C, D, A],
            vec![B, D, A, C]
        ]
    )
}

fn factorial(n: usize) -> usize {
    (1..=n).product()
}

// Completeness: for short inputs the permutator emits exactly n!
// pairwise-distinct permutations of the input.
#[test]
fn counts_all_permutations() {
    for n in 0..=5usize {
        let data: Vec<usize> = (0..n).collect();
        let all = collect_all_usize(TreePermutator::new(data));
        assert_eq!(all.len(), factorial(n));
        for (i, p) in all.iter().enumerate() {
            let mut sorted = p.clone();
            sorted.sort();
            assert_eq!(sorted, (0..n).collect::<Vec<usize>>());
            for q in all.iter().skip(i + 1) {
                assert_ne!(p, q);
            }
        }
    }
}

fn collect_all_usize(mut p: TreePermutator<usize>) -> Vec<Vec<usize>> {
    let mut out: Vec<Vec<usize>> = Vec::new();
    while let Some(v) = p.next() {
        out.push(v);
    }
    out
}

// Ordering: the emitted sequence is exactly the lexicographic order over
// the index tuples.
#[test]
fn emits_in_lexicographic_order() {
    let data: Vec<usize> = (0..4).collect();
    let all = collect_all_usize(TreePermutator::new(data));
    for w in all.windows(2) {
        assert!(w[0] < w[1]);
    }
}

// Pruning soundness: after fail_pos(p) at some output, no later output
// shares that output's prefix of length p + 1.
#[test]
fn pruning_excludes_prefix() {
    let data: Vec<usize> = (0..4).collect();
    let mut p = TreePermutator::new(data);
    let first = p.next().unwrap();
    let second = p.next().unwrap();
    assert_eq!(first, vec![0, 1, 2, 3]);
    assert_eq!(second, vec![0, 1, 3, 2]);
    p.fail_pos(1);
    while let Some(v) = p.next() {
        assert_ne!(&v[0..2], &second[0..2]);
    }
}

// Pruning is idempotent, and pruning at or past the last position changes
// nothing: the future output sequence is identical.
#[test]
fn pruning_is_idempotent() {
    let data: Vec<usize> = (0..4).collect();
    let mut once = TreePermutator::new(data.clone());
    let mut twice = TreePermutator::new(data);
    assert_eq!(once.next(), twice.next());
    once.fail_pos(1);
    twice.fail_pos(1);
    twice.fail_pos(1);
    twice.fail_pos(3);
    loop {
        let a = once.next();
        let b = twice.next();
        assert_eq!(a, b);
        if a.is_none() {
            break;
        }
    }
}
