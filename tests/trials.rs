use rand::distributions::Bernoulli;
use shellsort_gaps::gap_sequences::GapSequence;
use shellsort_gaps::sort::quicksort::QuicksortResult;
use shellsort_gaps::sort::shellsort::ShellsortResult;
use shellsort_gaps::sort::summary::summarize;
use shellsort_gaps::sort::{shuffle_step, swap_window};
use shellsort_gaps::sort::{perform_rounds, summarize_results, ReportError, ShuffledAndSorted, SortResults, SortSummary};

fn certain() -> Option<Bernoulli> {
    Some(Bernoulli::new(1.0).unwrap())
}

#[test]
fn shuffle_keeps_a_permutation() {
    let mut a = ShuffledAndSorted::new(100, 7);
    assert_eq!(a.shuffled().clone(), (0..100).collect::<Vec<usize>>());
    a.shuffle(100, certain()).unwrap();
    let mut p = a.shuffled().clone();
    assert_ne!(p, (0..100).collect::<Vec<usize>>());
    p.sort();
    assert_eq!(p, (0..100).collect::<Vec<usize>>());
}

#[test]
fn shuffle_with_no_distance_changes_nothing() {
    let mut a = ShuffledAndSorted::new(20, 3);
    a.shuffle(0, certain()).unwrap();
    assert_eq!(a.shuffled().clone(), (0..20).collect::<Vec<usize>>());
}

#[test]
fn shuffle_refuses_a_bad_probability() {
    let mut a = ShuffledAndSorted::new(10, 1);
    let e = a.shuffle(10, None);
    assert_eq!(e, Err("Probability must be between 0.0 and 1.0".to_string()));
}

#[test]
fn rounds_abort_on_a_bad_probability() {
    let gaps = GapSequence::Knuth1973.to_vec(50);
    match perform_rounds(50, 1, 3, &gaps, true, 50, None) {
        Err(e) => assert_eq!(e, "Probability must be between 0.0 and 1.0"),
        Ok(_) => panic!("expected an error"),
    }
    assert!(perform_rounds(50, 1, 0, &gaps, true, 50, None).is_ok());
}

fn counts(r: &SortResults) -> (Vec<(u32, u32)>, Vec<(u64, u64, u64)>) {
    match r {
        SortResults::ShellsortOnly(s) => (s.iter().map(|x| (x.comparisons, x.moves)).collect(), vec![]),
        SortResults::ShellAndQuicksort { shellsort, quicksort } => (
            shellsort.iter().map(|x| (x.comparisons, x.moves)).collect(),
            quicksort.iter().map(|x| (x.comparisons, x.swaps, x.max_depth)).collect(),
        ),
    }
}

#[test]
fn rounds_are_deterministic() {
    let gaps = GapSequence::Lee2021.to_vec(200);
    let a = perform_rounds(200, 42, 5, &gaps, true, 200, certain()).unwrap();
    let b = perform_rounds(200, 42, 5, &gaps, true, 200, certain()).unwrap();
    assert_eq!(counts(&a), counts(&b));
    let (shell, quick) = counts(&a);
    assert_eq!(shell.len(), 5);
    assert_eq!(quick.len(), 5);
    let c = perform_rounds(200, 43, 5, &gaps, false, 200, certain()).unwrap();
    assert!(matches!(c, SortResults::ShellsortOnly(_)));
    assert_eq!(counts(&c).0.len(), 5);
}

#[test]
fn summary_of_three_trials() {
    let s = summarize(&vec![2, 4, 6]).unwrap();
    assert_eq!(s.count, 3);
    assert_eq!(s.total, 12);
    assert_eq!(s.sum_of_squares, Some(56));
    assert_eq!(s.min, 2);
    assert_eq!(s.max, 6);
    let mean = s.total as f64 / s.count as f64;
    let variance = s.sum_of_squares.unwrap() as f64 / s.count as f64 - mean * mean;
    assert!((mean - 4.0).abs() < 1e-12);
    assert!((variance.sqrt() - 1.632993161855452).abs() < 1e-9);
}

#[test]
fn summary_of_nothing_is_an_error() {
    assert_eq!(summarize(&vec![]), Err(ReportError::EmptyResults));
    let empty = SortResults::ShellsortOnly(vec![]);
    assert_eq!(summarize_results(&empty), Err(ReportError::EmptyResults));
}

#[test]
fn summary_of_large_values() {
    let s = summarize(&vec![u64::MAX, u64::MAX, 0]).unwrap();
    assert_eq!(s.total, 2 * (u64::MAX as u128));
    assert_eq!(s.sum_of_squares, None);
    assert_eq!(s.min, 0);
    assert_eq!(s.max, u64::MAX);
}

#[test]
fn summary_of_a_batch() {
    let results = SortResults::ShellAndQuicksort {
        shellsort: vec![
            ShellsortResult { comparisons: 10, moves: 7 },
            ShellsortResult { comparisons: 14, moves: 3 },
        ],
        quicksort: vec![
            QuicksortResult { comparisons: 5, swaps: 2, max_depth: 3 },
            QuicksortResult { comparisons: 9, swaps: 4, max_depth: 2 },
        ],
    };
    match summarize_results(&results) {
        Ok(SortSummary::ShellAndQuicksort { shellsort, quicksort }) => {
            assert_eq!(shellsort.comparisons.total, 24);
            assert_eq!(shellsort.comparisons.min, 10);
            assert_eq!(shellsort.moves.max, 7);
            assert_eq!(quicksort.swaps.sum_of_squares, Some(20));
            assert_eq!(quicksort.max_depth.min, 2);
            assert_eq!(quicksort.comparisons.count, 2);
        }
        _ => panic!("expected both summaries"),
    }
}

#[test]
fn swap_window_clips_to_the_array() {
    assert_eq!(swap_window(5, 10, 2), (3, 7));
    assert_eq!(swap_window(1, 10, 3), (0, 4));
    assert_eq!(swap_window(8, 10, 3), (5, 9));
    assert_eq!(swap_window(0, 1, 100), (0, 0));
    assert_eq!(swap_window(3, 10, usize::MAX), (0, 9));
}

#[test]
fn shuffle_step_swaps_only_on_the_coin() {
    let mut v = vec![0, 1, 2, 3];
    shuffle_step(&mut v, 1, true, 3);
    assert_eq!(v, vec![0, 3, 2, 1]);
    shuffle_step(&mut v, 0, false, 2);
    assert_eq!(v, vec![0, 3, 2, 1]);
}
