use shellsort_gaps::gap_sequences::{sequence_names, GapSequence};
use shellsort_gaps::sort::quicksort::quicksort;
use shellsort_gaps::sort::shellsort::shellsort;

#[test]
fn test_quicksort() {
    let mut a = vec![3, 2, 1, 4, 5];
    quicksort(&mut a);

    assert_eq!(a, vec![1, 2, 3, 4, 5], "sort 5 values");

    let mut a = vec![3, 2, 1, 4, 10, 5, 9, 8, 7, 6];
    quicksort(&mut a);

    assert_eq!(a, vec![1, 2, 3, 4, 5, 6, 7, 8, 9, 10], "sort 10 values");
}

#[test]
fn test_quicksort_reverse() {
    let mut a = vec![10, 9, 8, 7, 6, 5, 4, 3, 2, 1];
    quicksort(&mut a);

    assert_eq!(a, vec![1, 2, 3, 4, 5, 6, 7, 8, 9, 10]);
}

#[test]
fn test_quicksort_duplicates() {
    let mut a = vec![3, 5, 5, 5, 2, 1, 4, 4, 5, 5];
    quicksort(&mut a);

    assert_eq!(a, vec![1, 2, 3, 4, 4, 5, 5, 5, 5, 5]);
}

#[test]
fn test_shellsort_5() {
    let mut a = vec![3, 2, 1, 4, 5];
    shellsort(&mut a, &vec![1, 4, 10, 23, 57]);

    assert_eq!(a, vec![1, 2, 3, 4, 5]);
}

#[test]
fn test_shellsort_10() {
    let mut a = vec![3, 2, 1, 4, 10, 5, 9, 8, 7, 6];
    shellsort(&mut a, &vec![1, 4, 10, 23, 57]);

    assert_eq!(a, vec![1, 2, 3, 4, 5, 6, 7, 8, 9, 10]);
}

#[test]
fn test_shellsort_reverse() {
    let mut a = vec![10, 9, 8, 7, 6, 5, 4, 3, 2, 1];
    shellsort(&mut a, &vec![1, 4, 10, 23, 57]);

    assert_eq!(a, vec![1, 2, 3, 4, 5, 6, 7, 8, 9, 10]);
}

#[test]
fn test_shellsort_duplicates() {
    let mut a = vec![3, 5, 5, 5, 2, 1, 4, 4, 5, 5];
    shellsort(&mut a, &vec![1, 4, 10, 23, 57]);

    assert_eq!(a, vec![1, 2, 3, 4, 4, 5, 5, 5, 5, 5]);
}

#[test]
fn shellsort_counts_insertion_sort() {
    // Plain insertion sort of [2, 1]: one comparison, one shift, two placements.
    let mut a = vec![2, 1];
    let r = shellsort(&mut a, &vec![1]);
    assert_eq!(a, vec![1, 2]);
    assert_eq!(r.comparisons, 1);
    assert_eq!(r.moves, 2);

    // Already sorted: one comparison and one placement per element after the first.
    let mut a = vec![1, 2, 3, 4];
    let r = shellsort(&mut a, &vec![1]);
    assert_eq!(r.comparisons, 3);
    assert_eq!(r.moves, 3);

    // Reversed [3, 2, 1]: 1 + 2 comparisons, 1 + 2 shifts and 2 placements.
    let mut a = vec![3, 2, 1];
    let r = shellsort(&mut a, &vec![1]);
    assert_eq!(a, vec![1, 2, 3]);
    assert_eq!(r.comparisons, 3);
    assert_eq!(r.moves, 5);
}

#[test]
fn shellsort_zero_gap_compares_each_element_with_itself() {
    let mut a = vec![3, 1, 2];
    let r = shellsort(&mut a, &vec![0]);
    assert_eq!(a, vec![3, 1, 2]);
    assert_eq!(r.comparisons, 3);
    assert_eq!(r.moves, 3);
}

#[test]
fn shellsort_without_final_unit_gap_may_leave_disorder() {
    let mut a = vec![2, 1];
    let r = shellsort(&mut a, &vec![]);
    assert_eq!(a, vec![2, 1]);
    assert_eq!(r.comparisons, 0);
    assert_eq!(r.moves, 0);
}

#[test]
fn quicksort_counts() {
    // [2, 1]: pivot 2; 2 is equal, 1 is below and swapped down.
    let mut a = vec![2, 1];
    let r = quicksort(&mut a);
    assert_eq!(a, vec![1, 2]);
    assert_eq!(r.comparisons, 2);
    assert_eq!(r.swaps, 1);
    assert_eq!(r.max_depth, 2);

    let mut a = vec![7];
    let r = quicksort(&mut a);
    assert_eq!(r.comparisons, 0);
    assert_eq!(r.swaps, 0);
    assert_eq!(r.max_depth, 1);

    let mut a: Vec<usize> = vec![];
    let r = quicksort(&mut a);
    assert_eq!(r.comparisons, 0);
    assert_eq!(r.max_depth, 0);
}

fn permutation(n: usize, seed: u64) -> Vec<usize> {
    let mut v: Vec<usize> = (0..n).collect();
    let mut x = seed.wrapping_mul(6364136223846793005).wrapping_add(1442695040888963407);
    for i in (1..n).rev() {
        x = x.wrapping_mul(6364136223846793005).wrapping_add(1442695040888963407);
        let j = (x >> 33) as usize % (i + 1);
        v.swap(i, j);
    }
    v
}

#[test]
fn every_sequence_sorts_permutations() {
    for n in [2usize, 3, 10, 57, 200, 1000] {
        for name in sequence_names() {
            let g = GapSequence::parse(name).ok().unwrap();
            let gaps = g.to_vec(n);
            for seed in 0..3u64 {
                let mut a = permutation(n, seed);
                shellsort(&mut a, &gaps);
                let sorted: Vec<usize> = (0..n).collect();
                assert_eq!(a, sorted, "{} on {} entries", name, n);
            }
        }
    }
}

#[test]
fn quicksort_sorts_permutations_and_duplicates() {
    for n in [1usize, 2, 3, 10, 100, 500] {
        for seed in 0..4u64 {
            let mut a = permutation(n, seed);
            quicksort(&mut a);
            let sorted: Vec<usize> = (0..n).collect();
            assert_eq!(a, sorted);
            let mut b: Vec<usize> = permutation(n, seed).iter().map(|x| x % 3).collect();
            let mut expected = b.clone();
            expected.sort();
            quicksort(&mut b);
            assert_eq!(b, expected);
        }
    }
}

#[test]
fn shellsort_runs_passes_from_the_largest_gap() {
    let mut a = vec![1, 0, 0];
    let r1 = shellsort(&mut a, &vec![1, 2]);
    let mut b = vec![1, 0, 0];
    let r2 = shellsort(&mut b, &vec![2, 1]);
    assert_eq!(a, vec![0, 0, 1]);
    assert_eq!(a, b);
    assert_eq!(r1.comparisons, r2.comparisons);
    assert_eq!(r1.moves, r2.moves);
    // gap 2: [0, 0, 1] after one comparison and two moves; gap 1: two comparisons, two moves
    assert_eq!(r1.comparisons, 3);
    assert_eq!(r1.moves, 4);

    let mut c = permutation(300, 5);
    let rc = shellsort(&mut c, &vec![40, 1, 13, 4]);
    let mut d = permutation(300, 5);
    let rd = shellsort(&mut d, &vec![1, 4, 13, 40]);
    assert_eq!(c, d);
    assert_eq!((rc.comparisons, rc.moves), (rd.comparisons, rd.moves));
}
