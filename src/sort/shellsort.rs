//! Shellsort that counts its comparisons and moves.

use vstd::prelude::*;
use vstd::multiset::Multiset;

use super::{is_sorted, lemma_swap_keeps_multiset, ReportError};
use super::summary::{summarize, summary_of, MetricSummary};

verus! {

/// What one run of Shellsort cost.
#[derive(Debug)]
pub struct ShellsortResult {
    pub comparisons: u32,
    pub moves: u32,
}

/// `x + y`, or `u32::MAX` where the sum does not fit.
pub open spec fn saturating_sum(x: u32, y: nat) -> u32 {
    if x + y > u32::MAX {
        u32::MAX
    } else {
        (x + y) as u32
    }
}

/// Inserts `temp` into the chain `j, j - gap, j - 2 * gap, ...` of `s`, as one step
/// of a gapped insertion sort whose hole is at `j`: the result, the number of
/// comparisons and the number of moves. With a gap of zero the element is compared
/// with itself once and put back.
pub open spec fn insert_steps(s: Seq<usize>, j: int, gap: int, temp: usize) -> (Seq<usize>, nat, nat)
    decreases j,
{
    if gap > 0 && j >= gap {
        if s[j - gap] <= temp {
            (s.update(j, temp), 1, 1)
        } else {
            let r = insert_steps(s.update(j, s[j - gap]), j - gap, gap, temp);
            (r.0, r.1 + 1, r.2 + 1)
        }
    } else if gap == 0 {
        (s.update(j, temp), 1, 1)
    } else {
        (s.update(j, temp), 0, 1)
    }
}

/// The insertions of one gapped pass from index `i` up to `n`.
pub open spec fn pass_steps(s: Seq<usize>, n: int, i: int, gap: int) -> (Seq<usize>, nat, nat)
    decreases n - i,
{
    if i < n {
        let r = insert_steps(s, i, gap, s[i]);
        let t = pass_steps(r.0, n, i + 1, gap);
        (t.0, r.1 + t.1, r.2 + t.2)
    } else {
        (s, 0, 0)
    }
}

/// The passes for `gaps[k - 1]`, ..., `gaps[0]`, in that order: for ascending
/// gaps, the largest first.
pub open spec fn shell_steps(s: Seq<usize>, gaps: Seq<usize>, k: int) -> (Seq<usize>, nat, nat)
    decreases k,
{
    if k <= 0 {
        (s, 0, 0)
    } else {
        let gap = gaps[k - 1] as int;
        let p = pass_steps(s, s.len() as int, gap, gap);
        let r = shell_steps(p.0, gaps, k - 1);
        (r.0, p.1 + r.1, p.2 + r.2)
    }
}

/// Shellsort of `s` over `gaps`, from the largest gap to the smallest: the sorted sequence and the
/// exact numbers of comparisons and moves.
pub open spec fn shellsort_spec(s: Seq<usize>, gaps: Seq<usize>) -> (Seq<usize>, nat, nat) {
    shell_steps(s, sort_ascending(gaps), gaps.len() as int)
}
// ---- The order of the passes ----

/// `s` with `x` put before its first entry that is not below `x`.
pub open spec fn insert_ascending(x: usize, s: Seq<usize>) -> Seq<usize>
    decreases s.len(),
{
    if s.len() == 0 {
        seq![x]
    } else if x <= s[0] {
        seq![x] + s
    } else {
        seq![s[0]] + insert_ascending(x, s.drop_first())
    }
}

/// The gaps in ascending order, each kept as often as it occurs.
pub open spec fn sort_ascending(g: Seq<usize>) -> Seq<usize>
    decreases g.len(),
{
    if g.len() == 0 {
        Seq::empty()
    } else {
        insert_ascending(g.last(), sort_ascending(g.drop_last()))
    }
}

pub open spec fn is_ascending(s: Seq<usize>) -> bool {
    forall|i: int, j: int| 0 <= i < j < s.len() ==> s[i] <= s[j]
}

proof fn lemma_insert_ascending(x: usize, s: Seq<usize>)
    requires
        is_ascending(s),
    ensures
        is_ascending(insert_ascending(x, s)),
        insert_ascending(x, s).to_multiset() =~= s.to_multiset().insert(x),
        insert_ascending(x, s).len() == s.len() + 1,
        forall|k: int| 0 <= k < insert_ascending(x, s).len() ==> (insert_ascending(x, s)[k] == x
            || s.contains(insert_ascending(x, s)[k])),
    decreases s.len(),
{
    broadcast use vstd::seq_lib::lemma_multiset_commutative, vstd::multiset::group_multiset_axioms;

    let r = insert_ascending(x, s);
    assert(seq![x].to_multiset() =~= Multiset::<usize>::empty().insert(x)) by {
        broadcast use vstd::seq_lib::group_to_multiset_ensures, vstd::multiset::lemma_multiset_empty_len;

        assert(seq![x] =~= Seq::<usize>::empty().push(x));
    }
    if s.len() == 0 {
        assert(s.to_multiset() =~= Multiset::<usize>::empty()) by {
            broadcast use vstd::seq_lib::group_to_multiset_ensures, vstd::multiset::lemma_multiset_empty_len;

        }
    } else if x <= s[0] {
        assert forall|k: int| 0 <= k < r.len() implies (r[k] == x || s.contains(r[k])) by {
            if k > 0 {
                assert(r[k] == s[k - 1]);
            }
        }
    } else {
        let t = s.drop_first();
        assert(is_ascending(t));
        lemma_insert_ascending(x, t);
        let u = insert_ascending(x, t);
        assert(seq![s[0]].to_multiset() =~= Multiset::<usize>::empty().insert(s[0])) by {
            broadcast use vstd::seq_lib::group_to_multiset_ensures, vstd::multiset::lemma_multiset_empty_len;

            assert(seq![s[0]] =~= Seq::<usize>::empty().push(s[0]));
        }
        assert(s =~= seq![s[0]] + t);
        assert forall|k: int| 0 <= k < r.len() implies (r[k] == x || s.contains(r[k])) by {
            if k > 0 {
                assert(r[k] == u[k - 1]);
                if u[k - 1] != x {
                    let m = choose|m: int| 0 <= m < t.len() && t[m] == u[k - 1];
                    assert(s[m + 1] == t[m]);
                }
            } else {
                assert(s[0] == r[0]);
            }
        }
        assert forall|i: int, j: int| 0 <= i < j < r.len() implies r[i] <= r[j] by {
            if i == 0 {
                assert(r[j] == u[j - 1]);
                if u[j - 1] != x {
                    let m = choose|m: int| 0 <= m < t.len() && t[m] == u[j - 1];
                    assert(s[m + 1] == t[m]);
                }
            } else {
                assert(r[i] == u[i - 1] && r[j] == u[j - 1]);
            }
        }
    }
}

proof fn lemma_sort_ascending(g: Seq<usize>)
    ensures
        is_ascending(sort_ascending(g)),
        sort_ascending(g).to_multiset() =~= g.to_multiset(),
    decreases g.len(),
{
    broadcast use vstd::seq_lib::group_to_multiset_ensures, vstd::multiset::lemma_multiset_empty_len, vstd::multiset::group_multiset_axioms;

    if g.len() == 0 {
        assert(g.to_multiset() =~= Multiset::<usize>::empty()) by {
            broadcast use vstd::seq_lib::group_to_multiset_ensures, vstd::multiset::lemma_multiset_empty_len;

        }
        assert(Seq::<usize>::empty().to_multiset() =~= Multiset::<usize>::empty()) by {
            broadcast use vstd::seq_lib::group_to_multiset_ensures, vstd::multiset::lemma_multiset_empty_len;

        }
    } else {
        lemma_sort_ascending(g.drop_last());
        lemma_insert_ascending(g.last(), sort_ascending(g.drop_last()));
        assert(g =~= g.drop_last().push(g.last()));
    }
}

proof fn lemma_same_length(s: Seq<usize>, t: Seq<usize>)
    requires
        s.to_multiset() == t.to_multiset(),
    ensures
        s.len() == t.len(),
{
    s.to_multiset_ensures();
    t.to_multiset_ensures();
    assert(s.len() == s.to_multiset().len());
    assert(t.len() == t.to_multiset().len());
}

/// Two ascending sequences with the same entries are equal.
proof fn lemma_ascending_unique(s: Seq<usize>, t: Seq<usize>)
    requires
        is_ascending(s),
        is_ascending(t),
        s.to_multiset() == t.to_multiset(),
    ensures
        s == t,
    decreases s.len(),
{
    broadcast use vstd::seq_lib::group_to_multiset_ensures, vstd::multiset::lemma_multiset_empty_len, vstd::seq_lib::group_to_multiset_ensures;

    lemma_same_length(s, t);
    if s.len() > 0 {
        assert(t.len() == s.len());
        s.to_multiset_ensures();
        t.to_multiset_ensures();
        assert(s.contains(s[0]));
        assert(s.to_multiset().count(s[0]) > 0);
        assert(t.contains(s[0]));
        assert(t.contains(t[0]));
        assert(t.to_multiset().count(t[0]) > 0);
        assert(s.contains(t[0]));
        let a = choose|k: int| 0 <= k < t.len() && t[k] == s[0];
        let b = choose|k: int| 0 <= k < s.len() && s[k] == t[0];
        assert(s[0] == t[0]);
        broadcast use vstd::seq_lib::group_to_multiset_ensures;

        assert(s.remove(0) =~= s.drop_first());
        assert(t.remove(0) =~= t.drop_first());
        assert(s.remove(0).to_multiset() =~= s.to_multiset().remove(s[0]));
        assert(t.remove(0).to_multiset() =~= t.to_multiset().remove(t[0]));
        lemma_ascending_unique(s.drop_first(), t.drop_first());
        assert(s =~= t) by {
            assert forall|k: int| 0 <= k < s.len() implies s[k] == t[k] by {
                if k > 0 {
                    assert(s[k] == s.drop_first()[k - 1]);
                    assert(t[k] == t.drop_first()[k - 1]);
                }
            }
        }
    } else {
        assert(t.len() == 0);
        assert(s =~= t);
    }
}

/// Shellsort does not depend on the order in which the gaps are listed: the
/// passes always run from the largest gap to the smallest.
pub proof fn lemma_shellsort_gap_order(s: Seq<usize>, g1: Seq<usize>, g2: Seq<usize>)
    requires
        g1.to_multiset() == g2.to_multiset(),
    ensures
        shellsort_spec(s, g1) == shellsort_spec(s, g2),
{
    broadcast use vstd::seq_lib::group_to_multiset_ensures;

    lemma_sort_ascending(g1);
    lemma_sort_ascending(g2);
    lemma_same_length(g1, g2);
    lemma_ascending_unique(sort_ascending(g1), sort_ascending(g2));
}

proof fn lemma_insert_at(x: usize, s: Seq<usize>, p: int)
    requires
        0 <= p <= s.len(),
        forall|k: int| 0 <= k < p ==> s[k] < x,
        p < s.len() ==> x <= s[p],
    ensures
        insert_ascending(x, s) == s.insert(p, x),
    decreases s.len(),
{
    if s.len() == 0 {
        assert(s.insert(p, x) =~= seq![x]);
    } else if p == 0 {
        assert(s.insert(p, x) =~= seq![x] + s);
    } else {
        let t = s.drop_first();
        lemma_insert_at(x, t, p - 1);
        assert(s.insert(p, x) =~= seq![s[0]] + t.insert(p - 1, x));
    }
}

/// A copy of `gaps` in ascending order.
fn ascending_copy(gaps: &Vec<usize>) -> (r: Vec<usize>)
    ensures
        r@ == sort_ascending(gaps@),
{
    let mut r: Vec<usize> = Vec::new();
    let mut i: usize = 0;
    while i < gaps.len()
        invariant
            i <= gaps@.len(),
            r@ == sort_ascending(gaps@.take(i as int)),
            is_ascending(r@),
        decreases gaps@.len() - i,
    {
        let x = gaps[i];
        let mut p: usize = 0;
        while p < r.len() && r[p] < x
            invariant
                p <= r@.len(),
                forall|k: int| 0 <= k < p ==> r@[k] < x,
            decreases r@.len() - p,
        {
            p = p + 1;
        }
        proof {
            lemma_insert_at(x, r@, p as int);
            lemma_insert_ascending(x, r@);
            assert(gaps@.take(i + 1).drop_last() =~= gaps@.take(i as int));
            assert(gaps@.take(i + 1).last() == x);
        }
        r.insert(p, x);
        i = i + 1;
    }
    assert(gaps@.take(gaps@.len() as int) =~= gaps@);
    r
}


/// Sorts `a` by Shellsort, one gapped insertion pass per gap from the largest to
/// the smallest, whatever order the list gives them in, and
/// counts comparisons and moves (each count stops at `u32::MAX`). The array
/// ends sorted whenever one of the gaps is 1: that pass sorts it, and a gapped
/// pass leaves a sorted array as it is.
pub fn shellsort(a: &mut Vec<usize>, gaps_in: &Vec<usize>) -> (r: ShellsortResult)
    ensures
        final(a)@ == shellsort_spec(old(a)@, gaps_in@).0,
        final(a)@.len() == old(a)@.len(),
        r.comparisons == saturating_sum(0, shellsort_spec(old(a)@, gaps_in@).1),
        r.moves == saturating_sum(0, shellsort_spec(old(a)@, gaps_in@).2),
        final(a)@.to_multiset() == old(a)@.to_multiset(),
        gaps_in@.contains(1) ==> is_sorted(final(a)@),
{
    let mut result = ShellsortResult { comparisons: 0, moves: 0 };
    let ghost a0 = a@;
    let ghost total = shellsort_spec(a@, gaps_in@);
    let gaps = ascending_copy(gaps_in);
    proof {
        lemma_sort_ascending(gaps_in@);
        broadcast use vstd::seq_lib::group_to_multiset_ensures, vstd::seq_lib::group_to_multiset_ensures, vstd::multiset::lemma_multiset_empty_len;

        lemma_same_length(gaps@, gaps_in@);
        if gaps_in@.contains(1) {
            assert(gaps_in@.to_multiset().count(1) > 0);
            assert(gaps@.contains(1));
        }
        assert(gaps_in@.contains(1) ==> gaps@.contains(1));
    }
    let ghost mut done_c: nat = 0;
    let ghost mut done_m: nat = 0;
    let mut k: usize = gaps.len();
    while k > 0
        invariant
            k <= gaps@.len(),
            a@.len() == a0.len(),
            a@.to_multiset() == a0.to_multiset(),
            shell_steps(a@, gaps@, k as int).0 == total.0,
            done_c + shell_steps(a@, gaps@, k as int).1 == total.1,
            done_m + shell_steps(a@, gaps@, k as int).2 == total.2,
            result.comparisons == saturating_sum(0, done_c),
            result.moves == saturating_sum(0, done_m),
            (exists|t: int| k <= t < gaps@.len() && gaps@[t] == 1) ==> is_sorted(a@),
        decreases k,
    {
        k = k - 1;
        let gap = gaps[k];
        let ghost p = pass_steps(a@, a@.len() as int, gap as int, gap as int);
        let ghost before = a@;
        gapped_pass(a, gap, &mut result);
        proof {
            done_c = done_c + p.1;
            done_m = done_m + p.2;
            if exists|t: int| k <= t < gaps@.len() && gaps@[t] == 1 {
                if gap != 1 {
                    let t = choose|t: int| k <= t < gaps@.len() && gaps@[t] == 1;
                    assert(t != k);
                    assert(is_sorted(before));
                }
            }
        }
    }
    proof {
        if gaps@.contains(1) {
            let t = choose|t: int| 0 <= t < gaps@.len() && gaps@[t] == 1;
            assert(0 <= t < gaps@.len() && gaps@[t] == 1);
        }
    }
    result
}

/// One gapped insertion-sort pass over `a`.
fn gapped_pass(a: &mut Vec<usize>, gap: usize, result: &mut ShellsortResult)
    ensures
        ({
            let p = pass_steps(old(a)@, old(a)@.len() as int, gap as int, gap as int);
            &&& final(a)@ == p.0
            &&& final(result).comparisons == saturating_sum(old(result).comparisons, p.1)
            &&& final(result).moves == saturating_sum(old(result).moves, p.2)
        }),
        final(a)@.len() == old(a)@.len(),
        final(a)@.to_multiset() == old(a)@.to_multiset(),
        gap == 1 ==> is_sorted(final(a)@),
        is_sorted(old(a)@) ==> final(a)@ == old(a)@,
{
    let ghost a0 = a@;
    let ghost n = a@.len() as int;
    let ghost total = pass_steps(a@, n, gap as int, gap as int);
    let ghost r0 = *result;
    let ghost mut done_c: nat = 0;
    let ghost mut done_m: nat = 0;
    let mut i: usize = gap;
    if gap >= a.len() {
        return;
    }
    while i < a.len()
        invariant
            gap <= i <= n,
            a@.len() == n,
            a@.to_multiset() == a0.to_multiset(),
            pass_steps(a@, n, i as int, gap as int).0 == total.0,
            done_c + pass_steps(a@, n, i as int, gap as int).1 == total.1,
            done_m + pass_steps(a@, n, i as int, gap as int).2 == total.2,
            result.comparisons == saturating_sum(r0.comparisons, done_c),
            result.moves == saturating_sum(r0.moves, done_m),
            gap == 1 ==> forall|k1: int, k2: int| 0 <= k1 < k2 < i ==> a@[k1] <= a@[k2],
            is_sorted(a0) ==> a@ == a0,
        decreases n - i,
    {
        let ghost r = insert_steps(a@, i as int, gap as int, a@[i as int]);
        insert_gapped(a, i, gap, result);
        proof {
            done_c = done_c + r.1;
            done_m = done_m + r.2;
        }
        i = i + 1;
    }
}

/// Moves `a[i]` down its chain of stride `gap` to its place among the earlier
/// entries of that chain.
fn insert_gapped(a: &mut Vec<usize>, i: usize, gap: usize, result: &mut ShellsortResult)
    requires
        i < old(a)@.len(),
        gap <= i,
        gap == 1 ==> forall|k1: int, k2: int| 0 <= k1 < k2 < i ==> old(a)@[k1] <= old(a)@[k2],
    ensures
        ({
            let r = insert_steps(old(a)@, i as int, gap as int, old(a)@[i as int]);
            &&& final(a)@ == r.0
            &&& final(result).comparisons == saturating_sum(old(result).comparisons, r.1)
            &&& final(result).moves == saturating_sum(old(result).moves, r.2)
        }),
        final(a)@.len() == old(a)@.len(),
        final(a)@.to_multiset() == old(a)@.to_multiset(),
        gap == 1 ==> forall|k1: int, k2: int| 0 <= k1 < k2 <= i ==> final(a)@[k1] <= final(a)@[k2],
        is_sorted(old(a)@) ==> final(a)@ == old(a)@,
{
    let ghost a0 = a@;
    let temp = a[i];
    let ghost total = insert_steps(a@, i as int, gap as int, temp);
    let ghost r0 = *result;
    let ghost mut done_c: nat = 0;
    let ghost mut done_m: nat = 0;
    let mut j: usize = i;
    let mut searching = true;
    proof {
        assert(a@.update(i as int, temp) =~= a@);
    }
    while searching && j >= gap
        invariant
            j <= i < a@.len(),
            a@.len() == a0.len(),
            temp == a0[i as int],
            a@.update(j as int, temp).to_multiset() == a0.to_multiset(),
            forall|k: int| i < k < a@.len() ==> a@[k] == a0[k],
            searching ==> insert_steps(a@, j as int, gap as int, temp).0 == total.0,
            searching ==> done_c + insert_steps(a@, j as int, gap as int, temp).1 == total.1,
            searching ==> done_m + insert_steps(a@, j as int, gap as int, temp).2 == total.2,
            !searching ==> a@.update(j as int, temp) == total.0,
            !searching ==> done_c == total.1,
            !searching ==> done_m + 1 == total.2,
            gap == 0 && searching ==> j == i && a@[j as int] == temp,
            result.comparisons == saturating_sum(r0.comparisons, done_c),
            result.moves == saturating_sum(r0.moves, done_m),
            gap == 1 ==> forall|k1: int, k2: int| 0 <= k1 < k2 < j ==> a@[k1] <= a@[k2],
            gap == 1 ==> forall|k1: int, k2: int| j < k1 < k2 <= i ==> a@[k1] <= a@[k2],
            gap == 1 ==> forall|k1: int, k2: int| 0 <= k1 < j < k2 <= i ==> a@[k1] <= a@[k2],
            gap == 1 ==> forall|k: int| j < k <= i ==> temp < a@[k],
            gap == 1 && !searching && j > 0 ==> a@[j - 1] <= temp,
            is_sorted(a0) ==> a@ == a0 && j == i,
        decreases j + (if searching { 1int } else { 0int }),
    {
        result.comparisons = result.comparisons.saturating_add(1);
        proof {
            done_c = done_c + 1;
        }
        if a[j - gap] <= temp {
            searching = false;
        } else {
            result.moves = result.moves.saturating_add(1);
            proof {
                done_m = done_m + 1;
                lemma_swap_keeps_multiset(a@.update(j as int, temp), j as int, j - gap);
                assert(a@.update(j as int, temp).update(j as int, a@[j - gap]).update(
                    j - gap,
                    temp,
                ) =~= a@.update(j as int, a@[j - gap]).update(j - gap, temp));
            }
            let moved = a[j - gap];
            a.set(j, moved);
            j = j - gap;
        }
    }
    result.moves = result.moves.saturating_add(1);
    proof {
        done_m = done_m + 1;
    }
    a.set(j, temp);
    proof {
        if is_sorted(a0) {
            assert(a@ =~= a0);
        }
    }
}

/// Statistics of the comparisons and the moves over a batch of Shellsort runs.
#[derive(Debug, PartialEq, Eq, Structural)]
pub struct ShellsortSummary {
    pub comparisons: MetricSummary,
    pub moves: MetricSummary,
}

pub open spec fn comparisons_of(rs: Seq<ShellsortResult>) -> Seq<u64> {
    rs.map_values(|r: ShellsortResult| r.comparisons as u64)
}

pub open spec fn moves_of(rs: Seq<ShellsortResult>) -> Seq<u64> {
    rs.map_values(|r: ShellsortResult| r.moves as u64)
}

/// The summary of a batch, or the error for an empty one.
pub open spec fn summarize_shellsort_spec(rs: Seq<ShellsortResult>) -> Result<ShellsortSummary, ReportError> {
    if rs.len() == 0 {
        Err(ReportError::EmptyResults)
    } else {
        Ok(
            ShellsortSummary {
                comparisons: summary_of(comparisons_of(rs)),
                moves: summary_of(moves_of(rs)),
            },
        )
    }
}

/// Summarises each counter over `results`; an empty batch is refused.
pub fn summarize_shellsort(results: &Vec<ShellsortResult>) -> (r: Result<ShellsortSummary, ReportError>)
    ensures
        r == summarize_shellsort_spec(results@),
{
    let mut comparisons: Vec<u64> = Vec::new();
    let mut moves: Vec<u64> = Vec::new();
    let mut i: usize = 0;
    while i < results.len()
        invariant
            i <= results@.len(),
            comparisons@ == comparisons_of(results@.take(i as int)),
            moves@ == moves_of(results@.take(i as int)),
        decreases results@.len() - i,
    {
        comparisons.push(results[i].comparisons as u64);
        moves.push(results[i].moves as u64);
        assert(comparisons_of(results@.take(i + 1)) =~= comparisons_of(results@.take(i as int)).push(
            results@[i as int].comparisons as u64,
        ));
        assert(moves_of(results@.take(i + 1)) =~= moves_of(results@.take(i as int)).push(
            results@[i as int].moves as u64,
        ));
        i = i + 1;
    }
    assert(results@.take(results@.len() as int) =~= results@);
    let comparisons = match summarize(&comparisons) {
        Ok(s) => s,
        Err(e) => {
            return Err(e);
        },
    };
    let moves = match summarize(&moves) {
        Ok(s) => s,
        Err(e) => {
            return Err(e);
        },
    };
    Ok(ShellsortSummary { comparisons, moves })
}

} // verus!
