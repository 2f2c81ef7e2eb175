//! Quicksort with three-way partitioning that counts its comparisons, swaps and
//! recursion depth.

use vstd::prelude::*;

use super::{
    is_sorted, swapped, permuted_within, sorted_within, lemma_permuted_swap, lemma_permuted_refl,
    lemma_permuted_trans, lemma_permuted_widen, lemma_permuted_entry, lemma_permuted_whole,
    ReportError,
};
use super::summary::{summarize, summary_of, MetricSummary};

verus! {

/// What one run of Quicksort cost.
#[derive(Debug)]
pub struct QuicksortResult {
    pub comparisons: u64,
    pub swaps: u64,
    pub max_depth: u64,
}

/// `x + y`, or `u64::MAX` where the sum does not fit.
pub open spec fn saturating_sum64(x: u64, y: nat) -> u64 {
    if x + y > u64::MAX {
        u64::MAX
    } else {
        (x + y) as u64
    }
}

/// The partition loop from the state `(il, im, ih)`: entries before `il` are
/// below the pivot, those in `[il, im)` equal it, those after `ih` are above it.
/// Gives the array, the final `il` and `ih`, and the comparisons and swaps made.
pub open spec fn partition_steps(s: Seq<usize>, pivot: usize, il: int, im: int, ih: int) -> (
    Seq<usize>,
    int,
    int,
    nat,
    nat,
)
    decreases ih + 1 - im,
{
    if im <= ih {
        if s[im] < pivot {
            let r = partition_steps(swapped(s, il, im), pivot, il + 1, im + 1, ih);
            (r.0, r.1, r.2, r.3 + 1, r.4 + 1)
        } else if s[im] > pivot {
            let r = partition_steps(swapped(s, im, ih), pivot, il, im, ih - 1);
            (r.0, r.1, r.2, r.3 + 1, r.4 + 1)
        } else {
            let r = partition_steps(s, pivot, il, im + 1, ih);
            (r.0, r.1, r.2, r.3 + 1, r.4)
        }
    } else {
        (s, il, ih, 0, 0)
    }
}

/// The pivot of the range `[low, high]`: its middle entry.
pub open spec fn pivot_of(s: Seq<usize>, low: int, high: int) -> usize {
    s[(low + high) / 2]
}

/// Three-way partition of `[low, high]` around its middle entry.
pub open spec fn partition_spec(s: Seq<usize>, low: int, high: int) -> (Seq<usize>, int, int, nat, nat) {
    partition_steps(s, pivot_of(s, low, high), low, low, high)
}

/// Number of entries of `[low, high]`.
pub open spec fn range_size(low: int, high: int) -> nat {
    if high >= low {
        (high - low + 1) as nat
    } else {
        0
    }
}

/// Quicksort of `[low, high]` called at recursion depth `depth`: the array, the
/// comparisons, the swaps, and the deepest call reached.
pub open spec fn quicksort_steps(s: Seq<usize>, low: int, high: int, depth: nat) -> (
    Seq<usize>,
    nat,
    nat,
    nat,
)
    decreases range_size(low, high),
{
    if low >= high {
        (s, 0, 0, depth)
    } else {
        let p = partition_spec(s, low, high);
        let l = if p.1 > 0 && p.1 <= high {
            quicksort_steps(p.0, low, p.1 - 1, depth + 1)
        } else {
            (p.0, 0, 0, depth)
        };
        let r = if p.2 >= low {
            quicksort_steps(l.0, p.2 + 1, high, depth + 1)
        } else {
            (l.0, 0, 0, depth)
        };
        (r.0, p.3 + l.1 + r.1, p.4 + l.2 + r.2, if l.3 >= r.3 { l.3 } else { r.3 })
    }
}

proof fn lemma_depth_at_least(s: Seq<usize>, low: int, high: int, depth: nat)
    ensures
        quicksort_steps(s, low, high, depth).3 >= depth,
    decreases range_size(low, high),
{
    if low < high {
        let p = partition_spec(s, low, high);
        if p.1 > 0 && p.1 <= high {
            lemma_depth_at_least(p.0, low, p.1 - 1, depth + 1);
        }
        let l = if p.1 > 0 && p.1 <= high {
            quicksort_steps(p.0, low, p.1 - 1, depth + 1)
        } else {
            (p.0, 0, 0, depth)
        };
        if p.2 >= low {
            lemma_depth_at_least(l.0, p.2 + 1, high, depth + 1);
        }
    }
}

/// Quicksort of the whole of `s`, whose first call has depth 1.
pub open spec fn quicksort_spec(s: Seq<usize>) -> (Seq<usize>, nat, nat, nat) {
    if s.len() == 0 {
        (s, 0, 0, 0)
    } else {
        quicksort_steps(s, 0, s.len() - 1, 1)
    }
}

/// Sorts `a` by Quicksort with three-way partitioning around the middle entry,
/// and counts comparisons and swaps (each stops at `u64::MAX`) and the deepest
/// recursive call. An empty array makes no call and costs nothing.
pub fn quicksort(a: &mut Vec<usize>) -> (r: QuicksortResult)
    ensures
        final(a)@ == quicksort_spec(old(a)@).0,
        final(a)@.len() == old(a)@.len(),
        r.comparisons == saturating_sum64(0, quicksort_spec(old(a)@).1),
        r.swaps == saturating_sum64(0, quicksort_spec(old(a)@).2),
        r.max_depth == quicksort_spec(old(a)@).3,
        final(a)@.to_multiset() == old(a)@.to_multiset(),
        is_sorted(final(a)@),
{
    let mut result = QuicksortResult { comparisons: 0, swaps: 0, max_depth: 0 };
    if a.len() == 0 {
        return result;
    }
    let ghost a0 = a@;
    let high = a.len() - 1;
    quicksort_recursive(a, 0, high, &mut result, 0);
    proof {
        lemma_permuted_whole(a0, a@);
    }
    result
}

#[verifier::rlimit(40)]
fn quicksort_recursive(
    a: &mut Vec<usize>,
    low: usize,
    high: usize,
    result: &mut QuicksortResult,
    depth: u64,
)
    requires
        low >= high || high < old(a)@.len(),
        depth + (if range_size(low as int, high as int) == 0 {
            1
        } else {
            range_size(low as int, high as int)
        }) <= usize::MAX,
    ensures
        ({
            let q = quicksort_steps(old(a)@, low as int, high as int, (depth + 1) as nat);
            &&& final(a)@ == q.0
            &&& final(result).comparisons == saturating_sum64(old(result).comparisons, q.1)
            &&& final(result).swaps == saturating_sum64(old(result).swaps, q.2)
            &&& final(result).max_depth == if old(result).max_depth >= q.3 {
                old(result).max_depth as nat
            } else {
                q.3
            }
        }),
        low < high ==> permuted_within(old(a)@, final(a)@, low as int, high + 1),
        low < high ==> sorted_within(final(a)@, low as int, high + 1),
        final(result).max_depth >= old(result).max_depth,
        final(result).max_depth >= depth + 1,
    decreases range_size(low as int, high as int),
{
    proof {
        lemma_depth_at_least(a@, low as int, high as int, (depth + 1) as nat);
    }
    let depth = depth + 1;
    if depth > result.max_depth {
        result.max_depth = depth;
    }
    if low >= high {
        return;
    }
    let n = a.len();
    let ghost s0 = a@;
    let ghost pivot = pivot_of(a@, low as int, high as int);
    let (pl, ph) = partition(a, low, high, result);
    let ghost s1 = a@;
    if pl > 0 {
        quicksort_recursive(a, low, pl - 1, result, depth);
    }
    let ghost s2 = a@;
    proof {
        if pl == 0 || low >= pl - 1 {
            lemma_permuted_refl(a@, low as int, pl as int);
        }
        assert forall|k: int| low <= k < pl implies s2[k] < pivot by {
            lemma_permuted_entry(s1, s2, low as int, pl as int, k);
        }
        lemma_permuted_widen(s1, s2, low as int, low as int, pl as int, high + 1);
    }
    quicksort_recursive(a, ph + 1, high, result, depth);
    let ghost s3 = a@;
    proof {
        if ph + 1 >= high {
            lemma_permuted_refl(a@, ph + 1, high + 1);
        }
        lemma_depth_at_least(s2, ph + 1, high as int, depth as nat + 1);
        assert forall|k: int| ph < k <= high implies s3[k] > pivot by {
            lemma_permuted_entry(s2, s3, ph + 1, high + 1, k);
        }
        lemma_permuted_widen(s2, s3, low as int, ph + 1, high + 1, high + 1);
        lemma_permuted_trans(s0, s1, s2, low as int, high + 1);
        lemma_permuted_trans(s0, s2, s3, low as int, high + 1);
    }
}

/// Exchanges the entries at `i` and `j`.
fn swap_entries(a: &mut Vec<usize>, i: usize, j: usize)
    requires
        i < old(a)@.len(),
        j < old(a)@.len(),
    ensures
        final(a)@ == swapped(old(a)@, i as int, j as int),
{
    let x = a[i];
    let y = a[j];
    a.set(i, y);
    a.set(j, x);
}

/// Partitions `[low, high]` into the entries below, equal to and above its
/// middle entry, and returns the first and last index of the equal part.
fn partition(a: &mut Vec<usize>, low: usize, high: usize, result: &mut QuicksortResult) -> (r: (
    usize,
    usize,
))
    requires
        low < high < old(a)@.len(),
    ensures
        ({
            let p = partition_spec(old(a)@, low as int, high as int);
            &&& final(a)@ == p.0
            &&& r.0 == p.1
            &&& r.1 == p.2
            &&& final(result).comparisons == saturating_sum64(old(result).comparisons, p.3)
            &&& final(result).swaps == saturating_sum64(old(result).swaps, p.4)
        }),
        final(result).max_depth == old(result).max_depth,
        low <= r.0 <= r.1 <= high,
        permuted_within(old(a)@, final(a)@, low as int, high + 1),
        forall|k: int|
            low <= k < r.0 ==> final(a)@[k] < pivot_of(old(a)@, low as int, high as int),
        forall|k: int|
            r.0 <= k <= r.1 ==> final(a)@[k] == pivot_of(old(a)@, low as int, high as int),
        forall|k: int|
            r.1 < k <= high ==> final(a)@[k] > pivot_of(old(a)@, low as int, high as int),
{
    let n = a.len();
    let ghost a0 = a@;
    let ghost r0 = *result;
    let pivot = a[low + (high - low) / 2];
    assert(low + (high - low) / 2 == (low + high) / 2);
    let ghost total = partition_spec(a@, low as int, high as int);
    let ghost mut done_c: nat = 0;
    let ghost mut done_w: nat = 0;
    let ghost mut pv: int = (low + high) / 2;
    let mut il = low;
    let mut im = low;
    let mut ih = high;
    proof {
        lemma_permuted_refl(a@, low as int, high + 1);
    }
    while im <= ih
        invariant
            low <= il <= im,
            il <= pv <= ih <= high < a@.len(),
            a@.len() == n,
            im <= ih + 1,
            a@[pv] == pivot,
            a@.len() == a0.len(),
            permuted_within(a0, a@, low as int, high + 1),
            forall|k: int| low <= k < il ==> a@[k] < pivot,
            forall|k: int| il <= k < im ==> a@[k] == pivot,
            forall|k: int| ih < k <= high ==> a@[k] > pivot,
            partition_steps(a@, pivot, il as int, im as int, ih as int).0 == total.0,
            partition_steps(a@, pivot, il as int, im as int, ih as int).1 == total.1,
            partition_steps(a@, pivot, il as int, im as int, ih as int).2 == total.2,
            done_c + partition_steps(a@, pivot, il as int, im as int, ih as int).3 == total.3,
            done_w + partition_steps(a@, pivot, il as int, im as int, ih as int).4 == total.4,
            result.comparisons == saturating_sum64(r0.comparisons, done_c),
            result.swaps == saturating_sum64(r0.swaps, done_w),
            result.max_depth == r0.max_depth,
        decreases ih + 1 - im,
    {
        result.comparisons = result.comparisons.saturating_add(1);
        proof {
            done_c = done_c + 1;
        }
        if a[im] < pivot {
            result.swaps = result.swaps.saturating_add(1);
            proof {
                done_w = done_w + 1;
                lemma_permuted_swap(a@, low as int, high + 1, il as int, im as int);
                lemma_permuted_trans(a0, a@, swapped(a@, il as int, im as int), low as int, high + 1);
                if pv == il {
                    pv = im as int;
                }
            }
            swap_entries(a, il, im);
            il = il + 1;
            im = im + 1;
        } else if a[im] > pivot {
            result.swaps = result.swaps.saturating_add(1);
            proof {
                done_w = done_w + 1;
                lemma_permuted_swap(a@, low as int, high + 1, im as int, ih as int);
                lemma_permuted_trans(a0, a@, swapped(a@, im as int, ih as int), low as int, high + 1);
                if pv == ih {
                    pv = im as int;
                }
            }
            swap_entries(a, im, ih);
            ih = ih - 1;
        } else {
            im = im + 1;
        }
    }
    (il, ih)
}

/// Statistics of the comparisons, the swaps and the recursion depth over a
/// batch of Quicksort runs.
#[derive(Debug, PartialEq, Eq, Structural)]
pub struct QuicksortSummary {
    pub comparisons: MetricSummary,
    pub swaps: MetricSummary,
    pub max_depth: MetricSummary,
}

pub open spec fn comparisons_of(rs: Seq<QuicksortResult>) -> Seq<u64> {
    rs.map_values(|r: QuicksortResult| r.comparisons)
}

pub open spec fn swaps_of(rs: Seq<QuicksortResult>) -> Seq<u64> {
    rs.map_values(|r: QuicksortResult| r.swaps)
}

pub open spec fn max_depths_of(rs: Seq<QuicksortResult>) -> Seq<u64> {
    rs.map_values(|r: QuicksortResult| r.max_depth)
}

/// The summary of a batch, or the error for an empty one.
pub open spec fn summarize_quicksort_spec(rs: Seq<QuicksortResult>) -> Result<QuicksortSummary, ReportError> {
    if rs.len() == 0 {
        Err(ReportError::EmptyResults)
    } else {
        Ok(
            QuicksortSummary {
                comparisons: summary_of(comparisons_of(rs)),
                swaps: summary_of(swaps_of(rs)),
                max_depth: summary_of(max_depths_of(rs)),
            },
        )
    }
}

/// Summarises each counter over `results`; an empty batch is refused.
pub fn summarize_quicksort(results: &Vec<QuicksortResult>) -> (r: Result<QuicksortSummary, ReportError>)
    ensures
        r == summarize_quicksort_spec(results@),
{
    let mut comparisons: Vec<u64> = Vec::new();
    let mut swaps: Vec<u64> = Vec::new();
    let mut depths: Vec<u64> = Vec::new();
    let mut i: usize = 0;
    while i < results.len()
        invariant
            i <= results@.len(),
            comparisons@ == comparisons_of(results@.take(i as int)),
            swaps@ == swaps_of(results@.take(i as int)),
            depths@ == max_depths_of(results@.take(i as int)),
        decreases results@.len() - i,
    {
        comparisons.push(results[i].comparisons);
        swaps.push(results[i].swaps);
        depths.push(results[i].max_depth);
        assert(comparisons_of(results@.take(i + 1)) =~= comparisons_of(results@.take(i as int)).push(
            results@[i as int].comparisons,
        ));
        assert(swaps_of(results@.take(i + 1)) =~= swaps_of(results@.take(i as int)).push(
            results@[i as int].swaps,
        ));
        assert(max_depths_of(results@.take(i + 1)) =~= max_depths_of(results@.take(i as int)).push(
            results@[i as int].max_depth,
        ));
        i = i + 1;
    }
    assert(results@.take(results@.len() as int) =~= results@);
    let comparisons = match summarize(&comparisons) {
        Ok(s) => s,
        Err(e) => {
            return Err(e);
        },
    };
    let swaps = match summarize(&swaps) {
        Ok(s) => s,
        Err(e) => {
            return Err(e);
        },
    };
    let max_depth = match summarize(&depths) {
        Ok(s) => s,
        Err(e) => {
            return Err(e);
        },
    };
    Ok(QuicksortSummary { comparisons, swaps, max_depth })
}

} // verus!
