pub mod quicksort;
pub mod shellsort;
pub mod summary;

use vstd::prelude::*;

use rand::distributions::Bernoulli;
use rand::rngs::StdRng;
use vstd::string::StringExecFns;

use self::quicksort::{
    quicksort, quicksort_spec, summarize_quicksort, summarize_quicksort_spec, QuicksortResult,
    QuicksortSummary,
};
use self::shellsort::{
    shellsort, shellsort_spec, saturating_sum, summarize_shellsort, summarize_shellsort_spec,
    ShellsortResult, ShellsortSummary,
};
use self::quicksort::saturating_sum64;

verus! {

/// Why a batch of trials could not be summarised.
#[derive(Debug, PartialEq, Eq, Structural)]
pub enum ReportError {
    /// The batch held no trial.
    EmptyResults,
}

/// `s` is in ascending order.
pub open spec fn is_sorted(s: Seq<usize>) -> bool {
    forall|k1: int, k2: int| 0 <= k1 < k2 < s.len() ==> s[k1] <= s[k2]
}

/// Exchanging two entries keeps the multiset of a sequence.
pub proof fn lemma_swap_keeps_multiset(s: Seq<usize>, i: int, j: int)
    requires
        0 <= i < s.len(),
        0 <= j < s.len(),
    ensures
        s.update(i, s[j]).update(j, s[i]).to_multiset() =~= s.to_multiset(),
{
    broadcast use vstd::seq_lib::to_multiset_update, vstd::multiset::group_multiset_axioms;

    if i != j {
        let s1 = s.update(i, s[j]);
        assert(s1[j] == s[j]);
        assert(s.to_multiset().count(s[i]) > 0) by {
            broadcast use vstd::seq_lib::to_multiset_contains;

            assert(s.contains(s[i]));
        }
    } else {
        assert(s.update(i, s[j]).update(j, s[i]) =~= s);
    }
}

/// `s` with its entries at `i` and `j` exchanged.
pub open spec fn swapped(s: Seq<usize>, i: int, j: int) -> Seq<usize> {
    s.update(i, s[j]).update(j, s[i])
}

/// `t` is `s` with the entries in `[lo, hi)` rearranged and the others kept.
pub open spec fn permuted_within(s: Seq<usize>, t: Seq<usize>, lo: int, hi: int) -> bool {
    &&& s.len() == t.len()
    &&& 0 <= lo <= hi <= s.len()
    &&& forall|k: int| 0 <= k < s.len() && !(lo <= k < hi) ==> s[k] == t[k]
    &&& s.subrange(lo, hi).to_multiset() == t.subrange(lo, hi).to_multiset()
}

/// The entries of `s` in `[lo, hi)` are in ascending order.
pub open spec fn sorted_within(s: Seq<usize>, lo: int, hi: int) -> bool {
    forall|k1: int, k2: int| lo <= k1 < k2 < hi ==> s[k1] <= s[k2]
}

pub proof fn lemma_permuted_swap(s: Seq<usize>, lo: int, hi: int, i: int, j: int)
    requires
        0 <= lo <= i < hi <= s.len(),
        lo <= j < hi,
    ensures
        permuted_within(s, swapped(s, i, j), lo, hi),
{
    let sub = s.subrange(lo, hi);
    lemma_swap_keeps_multiset(sub, i - lo, j - lo);
    assert(swapped(s, i, j).subrange(lo, hi) =~= sub.update(i - lo, sub[j - lo]).update(
        j - lo,
        sub[i - lo],
    ));
}

pub proof fn lemma_permuted_refl(s: Seq<usize>, lo: int, hi: int)
    requires
        0 <= lo <= hi <= s.len(),
    ensures
        permuted_within(s, s, lo, hi),
{
}

pub proof fn lemma_permuted_trans(s: Seq<usize>, t: Seq<usize>, u: Seq<usize>, lo: int, hi: int)
    requires
        permuted_within(s, t, lo, hi),
        permuted_within(t, u, lo, hi),
    ensures
        permuted_within(s, u, lo, hi),
{
}

/// A rearrangement inside `[lo2, hi2)` is one inside any range that holds it.
pub proof fn lemma_permuted_widen(s: Seq<usize>, t: Seq<usize>, lo: int, lo2: int, hi2: int, hi: int)
    requires
        permuted_within(s, t, lo2, hi2),
        0 <= lo <= lo2,
        hi2 <= hi <= s.len(),
    ensures
        permuted_within(s, t, lo, hi),
{
    broadcast use vstd::seq_lib::lemma_multiset_commutative;

    assert(s.subrange(lo, hi) =~= s.subrange(lo, lo2) + s.subrange(lo2, hi2) + s.subrange(hi2, hi));
    assert(t.subrange(lo, hi) =~= t.subrange(lo, lo2) + t.subrange(lo2, hi2) + t.subrange(hi2, hi));
    assert(s.subrange(lo, lo2) =~= t.subrange(lo, lo2));
    assert(s.subrange(hi2, hi) =~= t.subrange(hi2, hi));
}

/// An entry of `t` in `[lo, hi)` is an entry of `s` there.
pub proof fn lemma_permuted_entry(s: Seq<usize>, t: Seq<usize>, lo: int, hi: int, k: int)
    requires
        permuted_within(s, t, lo, hi),
        lo <= k < hi,
    ensures
        exists|k2: int| lo <= k2 < hi && s[k2] == t[k],
{
    broadcast use vstd::seq_lib::to_multiset_contains;

    let ts = t.subrange(lo, hi);
    let ss = s.subrange(lo, hi);
    assert(ts[k - lo] == t[k]);
    assert(ts.contains(t[k]));
    assert(ts.to_multiset().count(t[k]) > 0);
    assert(ss.to_multiset().count(t[k]) > 0);
    assert(ss.contains(t[k]));
    let k3 = choose|k3: int| 0 <= k3 < ss.len() && ss[k3] == t[k];
    assert(s[lo + k3] == t[k]);
}

/// A rearrangement of the whole sequence keeps its multiset.
pub proof fn lemma_permuted_whole(s: Seq<usize>, t: Seq<usize>)
    requires
        permuted_within(s, t, 0, s.len() as int),
    ensures
        s.to_multiset() == t.to_multiset(),
{
    assert(s.subrange(0, s.len() as int) =~= s);
    assert(t.subrange(0, t.len() as int) =~= t);
}

// ---- Random permutations ----

/// rand's seeded generator, carried from shuffle to shuffle and never looked into.
#[verifier::external_type_specification]
#[verifier::external_body]
pub struct ExStdRng(rand::rngs::StdRng);

/// rand's coin with a fixed probability, handed to the generator as it is.
#[verifier::external_type_specification]
#[verifier::external_body]
pub struct ExBernoulli(rand::distributions::Bernoulli);

/// Relies on `SeedableRng::seed_from_u64` for `StdRng`: a generator whose
/// stream is fixed by the seed.
#[verifier::external_body]
fn seeded_rng(seed: u64) -> (r: StdRng) {
    <StdRng as rand::SeedableRng>::seed_from_u64(seed)
}

/// Relies on `Rng::sample` with a `Bernoulli` distribution: a coin toss that
/// comes up `true` with the distribution's probability.
#[verifier::external_body]
fn toss(rng: &mut StdRng, chance: &Bernoulli) -> (r: bool) {
    rand::Rng::sample(rng, chance)
}

/// Relies on `Rng::gen_range` over `low..=high`, which draws from that range.
#[verifier::external_body]
fn draw_between(rng: &mut StdRng, low: usize, high: usize) -> (r: usize)
    requires
        low <= high,
    ensures
        low <= r <= high,
{
    rand::Rng::gen_range(rng, low..=high)
}

/// `0, 1, ..., n - 1`.
pub open spec fn identity(n: int) -> Seq<usize> {
    Seq::new(n as nat, |i: int| i as usize)
}

/// `p` holds each of `0..n` once.
pub open spec fn is_permutation_of_range(p: Seq<usize>, n: int) -> bool {
    p.to_multiset() == identity(n).to_multiset()
}

/// A permutation of `0..length` that random swaps keep shuffling, and a working
/// copy of it for the sorts.
pub struct ShuffledAndSorted {
    shuffled: Vec<usize>,
    sorted: Vec<usize>,
    rng: StdRng,
}

impl ShuffledAndSorted {
    /// The current permutation.
    pub closed spec fn shuffled_view(&self) -> Seq<usize> {
        self.shuffled@
    }

    /// The working copy.
    pub closed spec fn sorted_view(&self) -> Seq<usize> {
        self.sorted@
    }

    pub closed spec fn wf(&self) -> bool {
        self.shuffled@.len() == self.sorted@.len()
    }

    /// The current permutation.
    pub fn shuffled(&self) -> (r: &Vec<usize>)
        ensures
            r@ == self.shuffled_view(),
    {
        &self.shuffled
    }

    /// `0..length` in order, with a generator seeded by `seed`.
    pub fn new(length: usize, seed: u64) -> (r: Self)
        ensures
            r.wf(),
            r.shuffled_view() == identity(length as int),
            r.sorted_view() == identity(length as int),
    {
        let mut shuffled: Vec<usize> = Vec::new();
        let mut sorted: Vec<usize> = Vec::new();
        let mut i: usize = 0;
        while i < length
            invariant
                i <= length,
                shuffled@ == identity(i as int),
                sorted@ == identity(i as int),
            decreases length - i,
        {
            shuffled.push(i);
            sorted.push(i);
            assert(shuffled@ =~= identity(i + 1));
            assert(sorted@ =~= identity(i + 1));
            i = i + 1;
        }
        ShuffledAndSorted { shuffled, sorted, rng: seeded_rng(seed) }
    }

    /// One round of shuffling: each position in turn, where the coin toss with
    /// `chance` comes up, swaps with a random position at most `max_distance`
    /// away. `None` stands for a probability outside `[0, 1]`, which is refused
    /// with nothing changed.
    pub fn shuffle(&mut self, max_distance: usize, chance: Option<Bernoulli>) -> (r: Result<(), String>)
        requires
            old(self).wf(),
        ensures
            final(self).wf(),
            r is Ok <==> chance is Some,
            chance is None ==> *final(self) == *old(self),
            final(self).shuffled_view().to_multiset() == old(self).shuffled_view().to_multiset(),
            chance is Some ==> exists|steps: Seq<(bool, usize)>|
                #[trigger] steps.len() == old(self).shuffled_view().len() && steps_within(
                    steps,
                    max_distance as int,
                ) && final(self).shuffled_view() == apply_steps(
                    old(self).shuffled_view(),
                    steps,
                    steps.len() as int,
                ),
            final(self).sorted_view() == old(self).sorted_view(),
    {
        let chance = match chance {
            Some(c) => c,
            None => {
                return Err(String::from_str("Probability must be between 0.0 and 1.0"));
            },
        };
        let n = self.shuffled.len();
        let ghost start = self.shuffled@;
        let ghost mut steps: Seq<(bool, usize)> = Seq::empty();
        let mut i: usize = 0;
        while i < n
            invariant
                n == self.shuffled@.len(),
                self.shuffled@.len() == self.sorted@.len(),
                i <= n,
                steps.len() == i,
                steps_within(steps, max_distance as int),
                self.shuffled@ == apply_steps(start, steps, i as int),
                self.shuffled@.to_multiset() == start.to_multiset(),
                self.sorted@ == old(self).sorted@,
                start == old(self).shuffled@,
            decreases n - i,
        {
            let coin = toss(&mut self.rng, &chance);
            let (low, high) = swap_window(i, n, max_distance);
            let partner = if coin {
                draw_between(&mut self.rng, low, high)
            } else {
                i
            };
            proof {
                lemma_swap_keeps_multiset(self.shuffled@, i as int, partner as int);
                let old_steps = steps;
                steps = steps.push((coin, partner));
                assert(apply_steps(start, steps, i as int) == apply_steps(start, old_steps, i as int))
                    by {
                    lemma_apply_steps_prefix(start, old_steps, steps, i as int);
                }
            }
            shuffle_step(&mut self.shuffled, i, coin, partner);
            i = i + 1;
        }
        Ok(())
    }

    fn clone_shuffled(&mut self)
        requires
            old(self).wf(),
        ensures
            final(self).wf(),
            final(self).sorted_view() == old(self).shuffled_view(),
            final(self).shuffled_view() == old(self).shuffled_view(),
    {
        let n = self.shuffled.len();
        let mut i: usize = 0;
        while i < n
            invariant
                n == self.shuffled@.len(),
                self.shuffled@.len() == self.sorted@.len(),
                self.shuffled@ == old(self).shuffled@,
                i <= n,
                forall|k: int| 0 <= k < i ==> self.sorted@[k] == self.shuffled@[k],
            decreases n - i,
        {
            let x = self.shuffled[i];
            self.sorted.set(i, x);
            i = i + 1;
        }
        assert(self.sorted@ =~= self.shuffled@);
    }

    /// Sorts a copy of the permutation by Quicksort.
    pub fn quicksort(&mut self) -> (r: QuicksortResult)
        requires
            old(self).wf(),
        ensures
            final(self).wf(),
            final(self).shuffled_view() == old(self).shuffled_view(),
            final(self).sorted_view() == quicksort_spec(old(self).shuffled_view()).0,
            r == quick_record(old(self).shuffled_view()),
    {
        self.clone_shuffled();
        quicksort(&mut self.sorted)
    }

    /// Sorts a copy of the permutation by Shellsort over `gaps`.
    pub fn shellsort(&mut self, gaps: &Vec<usize>) -> (r: ShellsortResult)
        requires
            old(self).wf(),
        ensures
            final(self).wf(),
            final(self).shuffled_view() == old(self).shuffled_view(),
            final(self).sorted_view() == shellsort_spec(old(self).shuffled_view(), gaps@).0,
            r == shell_record(old(self).shuffled_view(), gaps@),
    {
        self.clone_shuffled();
        shellsort(&mut self.sorted, gaps)
    }
}


/// The positions at most `max_distance` from `i` in an array of `n`:
/// `max(0, i - max_distance)` to `min(n - 1, i + max_distance)`.
pub fn swap_window(i: usize, n: usize, max_distance: usize) -> (r: (usize, usize))
    requires
        i < n,
    ensures
        r.0 == if i >= max_distance { i - max_distance } else { 0 },
        r.1 == if i + max_distance >= n - 1 { n - 1 } else { i + max_distance },
        r.0 <= i <= r.1 < n,
{
    let low = if i >= max_distance {
        i - max_distance
    } else {
        0
    };
    let high = if max_distance >= n - 1 - i {
        n - 1
    } else {
        i + max_distance
    };
    (low, high)
}

/// One step of a shuffle: where the coin came up, the entry at `i` changes
/// places with the one at `partner`.
pub fn shuffle_step(v: &mut Vec<usize>, i: usize, coin: bool, partner: usize)
    requires
        i < old(v)@.len(),
        partner < old(v)@.len(),
    ensures
        coin ==> final(v)@ == swapped(old(v)@, i as int, partner as int),
        !coin ==> final(v)@ == old(v)@,
{
    if coin {
        let x = v[i];
        let y = v[partner];
        v.set(i, y);
        v.set(partner, x);
    }
}

/// Every step whose coin came up names a partner at most `max_distance` away.
pub open spec fn steps_within(steps: Seq<(bool, usize)>, max_distance: int) -> bool {
    forall|k: int|
        0 <= k < steps.len() && (#[trigger] steps[k]).0 ==> k - max_distance <= steps[k].1 <= k
            + max_distance
}

/// `s` after the first `k` steps, step `k` acting on position `k`.
pub open spec fn apply_steps(s: Seq<usize>, steps: Seq<(bool, usize)>, k: int) -> Seq<usize>
    decreases k,
{
    if k <= 0 {
        s
    } else {
        let t = apply_steps(s, steps, k - 1);
        if steps[k - 1].0 {
            swapped(t, k - 1, steps[k - 1].1 as int)
        } else {
            t
        }
    }
}

proof fn lemma_apply_steps_prefix(s: Seq<usize>, a: Seq<(bool, usize)>, b: Seq<(bool, usize)>, k: int)
    requires
        0 <= k <= a.len(),
        k <= b.len(),
        forall|j: int| 0 <= j < k ==> a[j] == b[j],
    ensures
        apply_steps(s, a, k) == apply_steps(s, b, k),
    decreases k,
{
    if k > 0 {
        lemma_apply_steps_prefix(s, a, b, k - 1);
    }
}

/// What Shellsort over `gaps` reports for `p`.
pub open spec fn shell_record(p: Seq<usize>, gaps: Seq<usize>) -> ShellsortResult {
    ShellsortResult {
        comparisons: saturating_sum(0, shellsort_spec(p, gaps).1),
        moves: saturating_sum(0, shellsort_spec(p, gaps).2),
    }
}

/// What Quicksort reports for `p`.
pub open spec fn quick_record(p: Seq<usize>) -> QuicksortResult {
    QuicksortResult {
        comparisons: saturating_sum64(0, quicksort_spec(p).1),
        swaps: saturating_sum64(0, quicksort_spec(p).2),
        max_depth: quicksort_spec(p).3 as u64,
    }
}

/// The records of a batch of rounds: Shellsort's alone, or Shellsort's and
/// Quicksort's for the same permutations.
pub enum SortResults {
    ShellsortOnly(Vec<ShellsortResult>),
    ShellAndQuicksort { shellsort: Vec<ShellsortResult>, quicksort: Vec<QuicksortResult> },
}

/// Each Shellsort record is the cost of sorting the permutation of the same
/// round, and so is each Quicksort record.
pub open spec fn records_of(
    perms: Seq<Seq<usize>>,
    shell: Seq<ShellsortResult>,
    quick: Seq<QuicksortResult>,
    with_quick: bool,
    gaps: Seq<usize>,
    length: int,
) -> bool {
    &&& shell.len() == perms.len()
    &&& with_quick ==> quick.len() == perms.len()
    &&& forall|i: int|
        0 <= i < perms.len() ==> is_permutation_of_range(#[trigger] perms[i], length) && shell[i]
            == shell_record(perms[i], gaps) && (with_quick ==> quick[i] == quick_record(perms[i]))
}

/// Runs `rounds` rounds on an array of `length`: each shuffles the permutation
/// further and sorts a copy of it by Shellsort over `gaps`, and by Quicksort too
/// where `quicksort` asks for it. A refused probability stops the batch with
/// its error.
pub fn perform_rounds(
    length: usize,
    seed: u64,
    rounds: usize,
    gaps: &Vec<usize>,
    quicksort: bool,
    max_distance: usize,
    chance: Option<Bernoulli>,
) -> (r: Result<SortResults, String>)
    ensures
        r is Ok <==> (rounds == 0 || chance is Some),
        r is Ok ==> (quicksort <==> r->Ok_0 is ShellAndQuicksort),
        r is Ok ==> exists|perms: Seq<Seq<usize>>|
            perms.len() == rounds && match r->Ok_0 {
                SortResults::ShellsortOnly(shell) => records_of(
                    perms,
                    shell@,
                    Seq::empty(),
                    false,
                    gaps@,
                    length as int,
                ),
                SortResults::ShellAndQuicksort { shellsort, quicksort } => records_of(
                    perms,
                    shellsort@,
                    quicksort@,
                    true,
                    gaps@,
                    length as int,
                ),
            },
{
    let mut a = ShuffledAndSorted::new(length, seed);
    let mut shell: Vec<ShellsortResult> = Vec::new();
    let mut quick: Vec<QuicksortResult> = Vec::new();
    let ghost mut perms: Seq<Seq<usize>> = Seq::empty();
    let mut i: usize = 0;
    while i < rounds
        invariant
            a.wf(),
            i <= rounds,
            perms.len() == i,
            is_permutation_of_range(a.shuffled_view(), length as int),
            records_of(perms, shell@, quick@, quicksort, gaps@, length as int),
            !quicksort ==> quick@.len() == 0,
            i > 0 ==> chance is Some,
        decreases rounds - i,
    {
        match a.shuffle(max_distance, chance) {
            Ok(()) => {},
            Err(e) => {
                return Err(e);
            },
        }
        let ghost p = a.shuffled_view();
        let s = a.shellsort(gaps);
        shell.push(s);
        if quicksort {
            let q = a.quicksort();
            quick.push(q);
        }
        proof {
            let old_perms = perms;
            perms = perms.push(p);
            assert forall|k: int| 0 <= k < perms.len() implies is_permutation_of_range(
                #[trigger] perms[k],
                length as int,
            ) && shell@[k] == shell_record(perms[k], gaps@) && (quicksort ==> quick@[k]
                == quick_record(perms[k])) by {
                if k < old_perms.len() {
                    assert(perms[k] == old_perms[k]);
                }
            }
        }
        i = i + 1;
    }
    if quicksort {
        Ok(SortResults::ShellAndQuicksort { shellsort: shell, quicksort: quick })
    } else {
        Ok(SortResults::ShellsortOnly(shell))
    }
}

// ---- Summaries of a batch ----

/// Statistics of a batch: Shellsort's alone, or Shellsort's and Quicksort's.
#[derive(Debug, PartialEq, Eq, Structural)]
pub enum SortSummary {
    ShellsortOnly(ShellsortSummary),
    ShellAndQuicksort { shellsort: ShellsortSummary, quicksort: QuicksortSummary },
}

/// Summarises each batch of `results`; an empty batch is refused.
pub fn summarize_results(results: &SortResults) -> (r: Result<SortSummary, ReportError>)
    ensures
        match *results {
            SortResults::ShellsortOnly(shell) => match summarize_shellsort_spec(shell@) {
                Ok(s) => r == Ok::<SortSummary, ReportError>(SortSummary::ShellsortOnly(s)),
                Err(e) => r == Err::<SortSummary, ReportError>(e),
            },
            SortResults::ShellAndQuicksort { shellsort, quicksort } => match (
                summarize_shellsort_spec(shellsort@),
                summarize_quicksort_spec(quicksort@),
            ) {
                (Ok(s), Ok(q)) => r == Ok::<SortSummary, ReportError>(
                    SortSummary::ShellAndQuicksort { shellsort: s, quicksort: q },
                ),
                (Err(e), _) => r == Err::<SortSummary, ReportError>(e),
                (_, Err(e)) => r == Err::<SortSummary, ReportError>(e),
            },
        },
{
    match results {
        SortResults::ShellsortOnly(shell) => match summarize_shellsort(shell) {
            Ok(s) => Ok(SortSummary::ShellsortOnly(s)),
            Err(e) => Err(e),
        },
        SortResults::ShellAndQuicksort { shellsort, quicksort } => {
            let s = match summarize_shellsort(shellsort) {
                Ok(s) => s,
                Err(e) => {
                    return Err(e);
                },
            };
            let q = match summarize_quicksort(quicksort) {
                Ok(q) => q,
                Err(e) => {
                    return Err(e);
                },
            };
            Ok(SortSummary::ShellAndQuicksort { shellsort: s, quicksort: q })
        },
    }
}

} // verus!
