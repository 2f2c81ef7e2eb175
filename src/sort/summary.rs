//! Integer statistics of one counted metric over a batch of trials: how many,
//! their sum and sum of squares, the least and the greatest.

use vstd::prelude::*;

use super::ReportError;

verus! {

/// Statistics of one metric. The mean is `total / count`; the population
/// variance is `sum_of_squares / count - mean * mean`.
#[derive(Debug, PartialEq, Eq, Structural)]
pub struct MetricSummary {
    pub count: usize,
    pub total: u128,
    /// `None` where the sum of squares does not fit in a `u128`.
    pub sum_of_squares: Option<u128>,
    pub min: u64,
    pub max: u64,
}

pub open spec fn sum_of(s: Seq<u64>) -> int
    decreases s.len(),
{
    if s.len() == 0 {
        0
    } else {
        sum_of(s.drop_last()) + s.last()
    }
}

pub open spec fn sum_of_squares_of(s: Seq<u64>) -> int
    decreases s.len(),
{
    if s.len() == 0 {
        0
    } else {
        sum_of_squares_of(s.drop_last()) + s.last() * s.last()
    }
}

/// The least entry of a non-empty sequence.
pub open spec fn min_of(s: Seq<u64>) -> u64
    decreases s.len(),
{
    if s.len() <= 1 {
        s[0]
    } else if min_of(s.drop_last()) <= s.last() {
        min_of(s.drop_last())
    } else {
        s.last()
    }
}

/// The greatest entry of a non-empty sequence.
pub open spec fn max_of(s: Seq<u64>) -> u64
    decreases s.len(),
{
    if s.len() <= 1 {
        s[0]
    } else if max_of(s.drop_last()) >= s.last() {
        max_of(s.drop_last())
    } else {
        s.last()
    }
}

/// The statistics of a non-empty sequence.
pub open spec fn summary_of(s: Seq<u64>) -> MetricSummary {
    MetricSummary {
        count: s.len() as usize,
        total: sum_of(s) as u128,
        sum_of_squares: if sum_of_squares_of(s) <= u128::MAX {
            Some(sum_of_squares_of(s) as u128)
        } else {
            None
        },
        min: min_of(s),
        max: max_of(s),
    }
}

proof fn lemma_sum_bound(s: Seq<u64>)
    ensures
        0 <= sum_of(s) <= s.len() * u64::MAX,
    decreases s.len(),
{
    if s.len() > 0 {
        lemma_sum_bound(s.drop_last());
    }
}

proof fn lemma_sum_of_squares_grows(s: Seq<u64>, t: Seq<u64>)
    requires
        t.len() <= s.len(),
        t == s.take(t.len() as int),
    ensures
        0 <= sum_of_squares_of(t) <= sum_of_squares_of(s),
    decreases s.len(),
{
    if t.len() < s.len() {
        assert(s.drop_last().take(t.len() as int) =~= t);
        lemma_sum_of_squares_grows(s.drop_last(), t);
        assert(s.last() * s.last() >= 0) by (nonlinear_arith);
    } else {
        assert(t =~= s);
        lemma_squares_nonneg(s);
    }
}

proof fn lemma_squares_nonneg(s: Seq<u64>)
    ensures
        sum_of_squares_of(s) >= 0,
    decreases s.len(),
{
    if s.len() > 0 {
        lemma_squares_nonneg(s.drop_last());
        assert(s.last() * s.last() >= 0) by (nonlinear_arith);
    }
}

/// Sum, sum of squares, least and greatest of `values`; an empty batch is refused.
pub fn summarize(values: &Vec<u64>) -> (r: Result<MetricSummary, ReportError>)
    ensures
        values@.len() == 0 ==> r == Err::<MetricSummary, ReportError>(ReportError::EmptyResults),
        values@.len() > 0 ==> r == Ok::<MetricSummary, ReportError>(summary_of(values@)),
{
    if values.len() == 0 {
        return Err(ReportError::EmptyResults);
    }
    let n = values.len();
    let mut total: u128 = 0;
    let mut squares: Option<u128> = Some(0);
    let mut min: u64 = values[0];
    let mut max: u64 = values[0];
    let mut i: usize = 0;
    while i < n
        invariant
            n == values@.len(),
            n > 0,
            i <= n,
            total == sum_of(values@.take(i as int)),
            squares == if sum_of_squares_of(values@.take(i as int)) <= u128::MAX {
                Some(sum_of_squares_of(values@.take(i as int)) as u128)
            } else {
                None
            },
            i == 0 ==> min == values@[0] && max == values@[0],
            i > 0 ==> min == min_of(values@.take(i as int)) && max == max_of(values@.take(i as int)),
        decreases n - i,
    {
        let x = values[i];
        let ghost prefix = values@.take(i as int);
        let ghost next = values@.take(i + 1);
        assert(next.drop_last() =~= prefix);
        proof {
            lemma_sum_bound(next);
            lemma_sum_of_squares_grows(next, prefix);
            assert(n * u64::MAX < u128::MAX) by (nonlinear_arith)
                requires n <= usize::MAX, usize::MAX <= u64::MAX;
            assert((i + 1) * u64::MAX <= n * u64::MAX) by (nonlinear_arith)
                requires i + 1 <= n;
            assert(x as int * x as int <= u64::MAX * u64::MAX) by (nonlinear_arith)
                requires x <= u64::MAX;
        }
        total = total + x as u128;
        let sq = (x as u128) * (x as u128);
        squares = match squares {
            Some(s) => s.checked_add(sq),
            None => None,
        };
        if i == 0 {
            min = x;
            max = x;
        } else {
            if x < min {
                min = x;
            }
            if x > max {
                max = x;
            }
        }
        i = i + 1;
    }
    assert(values@.take(n as int) =~= values@);
    Ok(MetricSummary { count: n, total, sum_of_squares: squares, min, max })
}

} // verus!
