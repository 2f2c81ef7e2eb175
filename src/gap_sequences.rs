//! Gap sequences for Shellsort: each maps an array length to ascending gaps, the
//! largest below that length.

pub mod geometric;
pub mod incerpi_sedgewick;
pub mod math;
pub mod n_smooth;

use vstd::prelude::*;

use std::num::ParseIntError;

use vstd::string::StrSliceExecFns;

use self::geometric::{geometric_gaps, geometric_sequence, lemma_geometric_gaps_within, power};
use self::n_smooth::{list_n_smooth, smooth_upto};

pub use self::incerpi_sedgewick::incerpi_sedgewick_1985;
use self::incerpi_sedgewick::incerpi_sedgewick_from;

verus! {

/// How far `g` still is below `n`.
pub open spec fn distance_below(g: int, n: int) -> nat {
    if g < n {
        (n - g) as nat
    } else {
        0
    }
}

/// Every gap is at least 1 and below `n`, in strictly ascending order.
pub open spec fn gaps_within(s: Seq<usize>, n: int) -> bool {
    &&& forall|i: int, j: int| 0 <= i < j < s.len() ==> s[i] < s[j]
    &&& forall|i: int| 0 <= i < s.len() ==> 1 <= s[i] && s[i] < n
}

/// `s` read backwards, as a vector.
fn reversed(s: &Vec<usize>) -> (r: Vec<usize>)
    ensures
        r@ == s@.reverse(),
{
    let mut r: Vec<usize> = Vec::new();
    let mut i: usize = s.len();
    while i > 0
        invariant
            i <= s@.len(),
            r@ =~= s@.subrange(i as int, s@.len() as int).reverse(),
        decreases i,
    {
        i = i - 1;
        r.push(s[i]);
        assert(s@.subrange(i as int, s@.len() as int).reverse() =~= s@.subrange(
            i + 1,
            s@.len() as int,
        ).reverse().push(s@[i as int]));
    }
    assert(s@.subrange(0, s@.len() as int) =~= s@);
    r
}

// ---- Shell 1959: repeated halving ----

/// The halvings of `g` that are at least 1, smallest first.
pub open spec fn shell_spec(g: int) -> Seq<usize>
    decreases g,
{
    if g < 2 {
        Seq::empty()
    } else {
        shell_spec(g / 2).push((g / 2) as usize)
    }
}

proof fn lemma_shell_within(g: int)
    requires
        0 <= g <= usize::MAX,
    ensures
        gaps_within(shell_spec(g), g / 2 + 1),
    decreases g,
{
    if g >= 2 {
        lemma_shell_within(g / 2);
        let s = shell_spec(g / 2);
        assert(forall|i: int| 0 <= i < s.len() ==> s.push((g / 2) as usize)[i] == s[i]);
    }
}

/// Shell's gaps: `array_len / 2`, `array_len / 4`, ..., down to 1, in ascending order.
pub fn shell_1959(array_len: usize) -> (r: Vec<usize>)
    ensures
        r@ == shell_spec(array_len as int),
        gaps_within(r@, array_len as int),
        forall|i: int|
            0 <= i < r@.len() ==> #[trigger] r@[i] == array_len as int / power(2, (r@.len() - i) as nat),
        array_len as int / power(2, (r@.len() + 1) as nat) == 0,
{
    let mut gaps: Vec<usize> = Vec::new();
    let mut gap = array_len;
    while gap >= 2
        invariant
            shell_spec(array_len as int) == shell_spec(gap as int) + gaps@.reverse(),
        decreases gap,
    {
        gap = gap / 2;
        gaps.push(gap);
        assert(gaps@.reverse() =~= seq![gap] + gaps@.drop_last().reverse());
    }
    assert(shell_spec(array_len as int) =~= gaps@.reverse());
    proof {
        lemma_shell_terms(array_len as int);
        lemma_shell_within(array_len as int);
        if array_len < 2 {
            assert(shell_spec(array_len as int).len() == 0);
        }
    }
    reversed(&gaps)
}

// ---- Frank & Lazarus 1960: 2 * floor(g / 4) + 1 ----

pub open spec fn frank_lazarus_step(g: int) -> int {
    2 * (g / 4) + 1
}

/// The Frank-Lazarus chain from `g` down to 1, smallest first.
pub open spec fn frank_lazarus_spec(g: int) -> Seq<usize>
    decreases g,
{
    let h = frank_lazarus_step(g);
    if h <= 1 || g < 0 {
        seq![1usize]
    } else {
        frank_lazarus_spec(h).push(h as usize)
    }
}

proof fn lemma_frank_lazarus_within(g: int)
    requires
        2 <= g <= usize::MAX,
    ensures
        gaps_within(frank_lazarus_spec(g), g),
        frank_lazarus_spec(g).last() == if frank_lazarus_step(g) <= 1 { 1 } else { frank_lazarus_step(g) },
    decreases g,
{
    let h = frank_lazarus_step(g);
    if h > 1 {
        lemma_frank_lazarus_within(h);
        let s = frank_lazarus_spec(h);
        assert(forall|i: int| 0 <= i < s.len() ==> s.push(h as usize)[i] == s[i]);
    }
}

/// Frank and Lazarus's gaps `2 * floor(g / 4) + 1`, from `array_len` down to 1,
/// in ascending order.
pub fn frank_lazarus_1960(array_len: usize) -> (r: Vec<usize>)
    ensures
        r@ == frank_lazarus_spec(array_len as int),
        array_len >= 2 ==> gaps_within(r@, array_len as int),
{
    let mut gaps: Vec<usize> = Vec::new();
    let mut gap = array_len;
    loop
        invariant_except_break
            frank_lazarus_spec(array_len as int) == frank_lazarus_spec(gap as int) + gaps@.reverse(),
        ensures
            frank_lazarus_spec(array_len as int) == gaps@.reverse(),
        decreases gap,
    {
        let ghost before = gaps@;
        let ghost g = gap;
        gap = ((gap / 4) * 2) + 1;
        gaps.push(gap);
        assert(gaps@.reverse() =~= seq![gap] + before.reverse());
        if gap <= 1 {
            assert(frank_lazarus_spec(g as int) == seq![1usize]);
            break;
        }
    }
    proof {
        if array_len >= 2 {
            lemma_frank_lazarus_within(array_len as int);
        }
    }
    reversed(&gaps)
}

// ---- Hibbard 1963: 2^k - 1 ----

/// The terms `g`, `2g + 1`, `2(2g + 1) + 1`, ... that are below `n`.
pub open spec fn hibbard_from(g: int, n: int) -> Seq<usize>
    decreases distance_below(g, n),
{
    if g < 0 || g >= n {
        Seq::empty()
    } else {
        seq![g as usize] + hibbard_from(2 * g + 1, n)
    }
}

/// All terms at least `g`, below `n`, strictly ascending.
pub open spec fn run_from(s: Seq<usize>, g: int, n: int) -> bool {
    &&& forall|i: int, j: int| 0 <= i < j < s.len() ==> s[i] < s[j]
    &&& forall|i: int| 0 <= i < s.len() ==> g <= s[i] && s[i] < n
}

proof fn lemma_run_prepend(x: int, s: Seq<usize>, g: int, n: int)
    requires
        run_from(s, g, n),
        0 <= x < g,
        x < n,
        x <= usize::MAX,
    ensures
        run_from(seq![x as usize] + s, x, n),
{
    let t = seq![x as usize] + s;
    assert forall|i: int| 0 < i < t.len() implies t[i] == s[i - 1] by {}
}

proof fn lemma_hibbard_from(g: int, n: int)
    requires
        g >= 1,
        n <= usize::MAX + 1,
    ensures
        run_from(hibbard_from(g, n), g, n),
    decreases distance_below(g, n),
{
    if g < n {
        lemma_hibbard_from(2 * g + 1, n);
        lemma_run_prepend(g, hibbard_from(2 * g + 1, n), 2 * g + 1, n);
    }
}

/// Hibbard's gaps `1, 3, 7, 15, ...` (each `2g + 1`) below `array_len`.
pub fn hibbard_1963(array_len: usize) -> (r: Vec<usize>)
    ensures
        r@ == seq![1usize] + hibbard_from(3, array_len as int),
        array_len >= 2 ==> gaps_within(r@, array_len as int),
        forall|i: int| 0 <= i < r@.len() ==> #[trigger] r@[i] == power(2, (i + 1) as nat) - 1,
        power(2, (r@.len() + 1) as nat) - 1 >= array_len,
{
    let mut gaps: Vec<usize> = Vec::new();
    gaps.push(1);
    let n = array_len as u128;
    let mut gap: u128 = 3;
    while gap < n
        invariant
            3 <= gap,
            n == array_len,
            gaps@ + hibbard_from(gap as int, n as int) == seq![1usize] + hibbard_from(3, n as int),
        decreases distance_below(gap as int, n as int),
    {
        let ghost before = gaps@;
        gaps.push(gap as usize);
        assert(before + hibbard_from(gap as int, n as int) =~= gaps@ + hibbard_from(
            2 * gap + 1,
            n as int,
        ));
        gap = 2 * gap + 1;
    }
    assert(gaps@ =~= gaps@ + hibbard_from(gap as int, n as int));
    proof {
        lemma_hibbard_from(3, n as int);
        if n >= 2 {
            lemma_run_prepend(1, hibbard_from(3, n as int), 3, n as int);
        }
    }
    proof {
        assert(power(2, 1) == 2 * power(2, 0));
        assert(power(2, 2) == 2 * power(2, 1));
        lemma_hibbard_terms(2, n as int);
        let t = hibbard_from(3, n as int);
        assert forall|i: int| 0 <= i < gaps@.len() implies #[trigger] gaps@[i] == power(2, (i + 1) as nat)
            - 1 by {
            if i > 0 {
                assert(gaps@[i] == t[i - 1]);
                assert(2 + (i - 1) as nat == (i + 1) as nat);
            }
        }
    }
    gaps
}

// ---- Papernov & Stasevich 1965: 2^k + 1 ----

/// The terms `g`, `2g - 1`, ... that are below `n`.
pub open spec fn papernov_stasevich_from(g: int, n: int) -> Seq<usize>
    decreases distance_below(g, n),
{
    if g < 2 || g >= n {
        Seq::empty()
    } else {
        seq![g as usize] + papernov_stasevich_from(2 * g - 1, n)
    }
}

proof fn lemma_papernov_stasevich_from(g: int, n: int)
    requires
        g >= 2,
        n <= usize::MAX + 1,
    ensures
        run_from(papernov_stasevich_from(g, n), g, n),
    decreases distance_below(g, n),
{
    if g < n {
        lemma_papernov_stasevich_from(2 * g - 1, n);
        lemma_run_prepend(g, papernov_stasevich_from(2 * g - 1, n), 2 * g - 1, n);
    }
}

/// Papernov and Stasevich's gaps `1, 3, 5, 9, 17, ...` (each `2g - 1`) below `array_len`.
pub fn papernov_stasevich_1965(array_len: usize) -> (r: Vec<usize>)
    ensures
        r@ == seq![1usize] + papernov_stasevich_from(3, array_len as int),
        array_len >= 2 ==> gaps_within(r@, array_len as int),
        r@[0] == 1,
        forall|i: int| 1 <= i < r@.len() ==> #[trigger] r@[i] == power(2, i as nat) + 1,
        power(2, r@.len()) + 1 >= array_len,
{
    let mut gaps: Vec<usize> = Vec::new();
    gaps.push(1);
    let n = array_len as u128;
    let mut gap: u128 = 3;
    while gap < n
        invariant
            3 <= gap,
            n == array_len,
            gaps@ + papernov_stasevich_from(gap as int, n as int) == seq![1usize]
                + papernov_stasevich_from(3, n as int),
        decreases distance_below(gap as int, n as int),
    {
        let ghost before = gaps@;
        gaps.push(gap as usize);
        assert(before + papernov_stasevich_from(gap as int, n as int) =~= gaps@
            + papernov_stasevich_from(2 * gap - 1, n as int));
        gap = 2 * gap - 1;
    }
    assert(gaps@ =~= gaps@ + papernov_stasevich_from(gap as int, n as int));
    proof {
        lemma_papernov_stasevich_from(3, n as int);
        if n >= 2 {
            lemma_run_prepend(1, papernov_stasevich_from(3, n as int), 3, n as int);
        }
    }
    proof {
        assert(power(2, 1) == 2 * power(2, 0));
        lemma_papernov_stasevich_terms(1, n as int);
        let t = papernov_stasevich_from(3, n as int);
        assert forall|i: int| 1 <= i < gaps@.len() implies #[trigger] gaps@[i] == power(2, i as nat) + 1 by {
            assert(gaps@[i] == t[i - 1]);
            assert(1 + (i - 1) as nat == i as nat);
        }
    }
    gaps
}

// ---- Pratt 1971: 3-smooth numbers ----

proof fn lemma_smooth_upto(k: int, m: int)
    requires
        0 <= m <= usize::MAX,
    ensures
        run_from(smooth_upto(k, m), 1, m + 1),
    decreases m,
{
    if m > 0 {
        lemma_smooth_upto(k, m - 1);
        let s = smooth_upto(k, m - 1);
        assert(forall|i: int| 0 <= i < s.len() ==> s.push(m as usize)[i] == s[i]);
    }
}

/// Pratt's gaps: the numbers `2^p * 3^q` below `array_len`, ascending.
pub fn pratt_1971(array_len: usize) -> (r: Vec<usize>)
    ensures
        r@ == smooth_upto(3, array_len - 1),
        gaps_within(r@, array_len as int),
{
    if array_len == 0 {
        proof {
            assert(smooth_upto(3, -1) == Seq::<usize>::empty());
        }
        return Vec::new();
    }
    proof {
        lemma_smooth_upto(3, array_len - 1);
    }
    list_n_smooth(3, array_len - 1)
}

// ---- Knuth 1973: (3^k - 1) / 2 ----

/// The terms `g`, `3g + 1`, ... that are below `n`.
pub open spec fn knuth_from(g: int, n: int) -> Seq<usize>
    decreases distance_below(g, n),
{
    if g < 0 || g >= n {
        Seq::empty()
    } else {
        seq![g as usize] + knuth_from(3 * g + 1, n)
    }
}

proof fn lemma_knuth_from(g: int, n: int)
    requires
        g >= 1,
        n <= usize::MAX + 1,
    ensures
        run_from(knuth_from(g, n), g, n),
    decreases distance_below(g, n),
{
    if g < n {
        lemma_knuth_from(3 * g + 1, n);
        lemma_run_prepend(g, knuth_from(3 * g + 1, n), 3 * g + 1, n);
    }
}

/// Knuth's gaps `1, 4, 13, 40, ...` (each `3g + 1`) below `array_len`.
pub fn knuth_1973(array_len: usize) -> (r: Vec<usize>)
    ensures
        r@ == seq![1usize] + knuth_from(4, array_len as int),
        array_len >= 2 ==> gaps_within(r@, array_len as int),
        forall|i: int| 0 <= i < r@.len() ==> 2 * #[trigger] r@[i] + 1 == power(3, (i + 1) as nat),
        power(3, (r@.len() + 1) as nat) >= 2 * array_len + 1,
{
    let mut gaps: Vec<usize> = Vec::new();
    gaps.push(1);
    let n = array_len as u128;
    let mut gap: u128 = 4;
    while gap < n
        invariant
            4 <= gap,
            n == array_len,
            gaps@ + knuth_from(gap as int, n as int) == seq![1usize] + knuth_from(4, n as int),
        decreases distance_below(gap as int, n as int),
    {
        let ghost before = gaps@;
        gaps.push(gap as usize);
        assert(before + knuth_from(gap as int, n as int) =~= gaps@ + knuth_from(
            3 * gap + 1,
            n as int,
        ));
        gap = 3 * gap + 1;
    }
    assert(gaps@ =~= gaps@ + knuth_from(gap as int, n as int));
    proof {
        lemma_knuth_from(4, n as int);
        if n >= 2 {
            lemma_run_prepend(1, knuth_from(4, n as int), 4, n as int);
        }
    }
    proof {
        assert(power(3, 1) == 3 * power(3, 0));
        assert(power(3, 2) == 3 * power(3, 1));
        lemma_knuth_terms(2, 4, n as int);
        let t = knuth_from(4, n as int);
        assert forall|i: int| 0 <= i < gaps@.len() implies 2 * #[trigger] gaps@[i] + 1 == power(
            3,
            (i + 1) as nat,
        ) by {
            if i > 0 {
                assert(gaps@[i] == t[i - 1]);
                assert(2 + (i - 1) as nat == (i + 1) as nat);
            }
        }
    }
    gaps
}

// ---- Sedgewick 1982: 4^k + 3 * 2^(k-1) + 1 ----

/// The terms `a + b + 1`, `4a + 2b + 1`, ... that are below `n`.
pub open spec fn sedgewick_1982_from(a: int, b: int, n: int) -> Seq<usize>
    decreases distance_below(a, n),
{
    if a < 1 || b < 0 || a + b + 1 >= n {
        Seq::empty()
    } else {
        seq![(a + b + 1) as usize] + sedgewick_1982_from(4 * a, 2 * b, n)
    }
}

proof fn lemma_sedgewick_1982_from(a: int, b: int, n: int)
    requires
        a >= 1,
        b >= 0,
        n <= usize::MAX + 1,
    ensures
        run_from(sedgewick_1982_from(a, b, n), a + b + 1, n),
    decreases distance_below(a, n),
{
    if a + b + 1 < n {
        lemma_sedgewick_1982_from(4 * a, 2 * b, n);
        lemma_run_prepend(a + b + 1, sedgewick_1982_from(4 * a, 2 * b, n), 4 * a + 2 * b + 1, n);
    }
}

/// Sedgewick's gaps `1, 8, 23, 77, 281, ...` (`4^k + 3 * 2^(k-1) + 1`) below `array_len`.
pub fn sedgewick_1982(array_len: usize) -> (r: Vec<usize>)
    ensures
        r@ == seq![1usize] + sedgewick_1982_from(4, 3, array_len as int),
        array_len >= 2 ==> gaps_within(r@, array_len as int),
        r@[0] == 1,
        forall|i: int|
            1 <= i < r@.len() ==> #[trigger] r@[i] == power(4, i as nat) + 3 * power(2, (i - 1) as nat)
                + 1,
        power(4, r@.len()) + 3 * power(2, (r@.len() - 1) as nat) + 1 >= array_len,
{
    let mut gaps: Vec<usize> = Vec::new();
    gaps.push(1);
    let n = array_len as u128;
    let mut a: u128 = 4;
    let mut b: u128 = 3;
    while a + b + 1 < n
        invariant
            4 <= a,
            3 <= b <= a,
            a <= 4 * n + 4,
            n == array_len,
            gaps@ + sedgewick_1982_from(a as int, b as int, n as int) == seq![1usize]
                + sedgewick_1982_from(4, 3, n as int),
        decreases distance_below(a as int, n as int),
    {
        let ghost before = gaps@;
        gaps.push((a + b + 1) as usize);
        assert(before + sedgewick_1982_from(a as int, b as int, n as int) =~= gaps@
            + sedgewick_1982_from(4 * a, 2 * b, n as int));
        a = 4 * a;
        b = 2 * b;
    }
    assert(gaps@ =~= gaps@ + sedgewick_1982_from(a as int, b as int, n as int));
    proof {
        lemma_sedgewick_1982_from(4, 3, n as int);
        if n >= 2 {
            lemma_run_prepend(1, sedgewick_1982_from(4, 3, n as int), 8, n as int);
        }
    }
    proof {
        assert(power(4, 1) == 4 * power(4, 0));
        assert(power(2, 0) == 1);
        lemma_sedgewick_1982_terms(1, n as int);
        let t = sedgewick_1982_from(4, 3, n as int);
        assert forall|i: int| 1 <= i < gaps@.len() implies #[trigger] gaps@[i] == power(4, i as nat) + 3
            * power(2, (i - 1) as nat) + 1 by {
            assert(gaps@[i] == t[i - 1]);
            assert(1 + (i - 1) as nat == i as nat);
            assert((1 + (i - 1) as nat - 1) as nat == (i - 1) as nat);
        }
        assert((1 + t.len() - 1) as nat == (gaps@.len() - 1) as nat);
    }
    gaps
}

// ---- Sedgewick 1986: 9 * 2^k - 9 * 2^(k/2) + 1 and 8 * 2^k - 6 * 2^((k+1)/2) + 1 ----

pub open spec fn pow2(e: nat) -> int
    decreases e,
{
    if e == 0 {
        1
    } else {
        2 * pow2((e - 1) as nat)
    }
}

/// The `k`-th gap of Sedgewick's 1986 sequence, by the parity of `k`.
pub open spec fn sedgewick_1986_term(k: nat) -> int {
    if k % 2 == 0 {
        9 * pow2(k) - 9 * pow2(k / 2) + 1
    } else {
        8 * pow2(k) - 6 * pow2((k + 1) / 2) + 1
    }
}

/// The terms from the `k`-th on that are below `n`. (A term is above its index,
/// so the bound on `k` stops nothing early.)
pub open spec fn sedgewick_1986_from(k: nat, n: int) -> Seq<usize>
    decreases distance_below(k as int, n),
{
    if k >= n || sedgewick_1986_term(k) >= n {
        Seq::empty()
    } else {
        seq![sedgewick_1986_term(k) as usize] + sedgewick_1986_from(k + 1, n)
    }
}

proof fn lemma_pow2_facts(k: nat)
    ensures
        pow2(k) >= k + 1,
        pow2(k) == pow2(k / 2) * pow2((k + 1) / 2),
        pow2((k + 1) / 2) == if k % 2 == 0 { pow2(k / 2) } else { 2 * pow2(k / 2) },
        pow2(k / 2) >= 1,
    decreases k,
{
    if k == 0 {
        assert(pow2(0) == 1);
        assert((k + 1) / 2 == 0);
    }
    if k > 0 {
        lemma_pow2_facts((k - 1) as nat);
        let k1 = (k - 1) as nat;
        if k % 2 == 0 {
            assert(k / 2 == (k1 + 1) / 2);
            assert((k + 1) / 2 == k / 2);
            assert(k1 / 2 + 1 == k / 2);
            assert(pow2(k / 2) == 2 * pow2(k1 / 2));
            assert(pow2(k) == 2 * pow2(k1));
            assert(pow2(k) == pow2(k / 2) * pow2((k + 1) / 2)) by (nonlinear_arith)
                requires
                    pow2(k) == 2 * pow2(k1),
                    pow2(k1) == pow2(k1 / 2) * pow2((k1 + 1) / 2),
                    pow2((k1 + 1) / 2) == 2 * pow2(k1 / 2),
                    pow2(k / 2) == 2 * pow2(k1 / 2),
                    (k + 1) / 2 == k / 2,
            ;
        } else {
            assert(k / 2 == k1 / 2);
            assert((k + 1) / 2 == k1 / 2 + 1);
            assert(pow2((k + 1) / 2) == 2 * pow2(k1 / 2));
            assert(pow2(k) == 2 * pow2(k1));
            assert(pow2(k) == pow2(k / 2) * pow2((k + 1) / 2)) by (nonlinear_arith)
                requires
                    pow2(k) == 2 * pow2(k1),
                    pow2(k1) == pow2(k1 / 2) * pow2((k1 + 1) / 2),
                    pow2((k1 + 1) / 2) == pow2(k1 / 2),
                    pow2((k + 1) / 2) == 2 * pow2(k1 / 2),
                    k / 2 == k1 / 2,
            ;
        }
    }
}

/// A term is at least `2^k`.
proof fn lemma_sedgewick_1986_term(k: nat)
    requires
        k >= 1,
    ensures
        sedgewick_1986_term(k) >= pow2(k),
        sedgewick_1986_term(k) < sedgewick_1986_term(k + 1),
{
    lemma_pow2_facts(k);
    lemma_pow2_facts(k + 1);
    let lo = pow2(k / 2);
    let p = pow2(k);
    assert(pow2(k + 1) == 2 * p);
    if k % 2 == 0 {
        assert(lo >= 2) by {
            assert(k / 2 >= 1);
            lemma_pow2_facts((k / 2) as nat);
        }
        assert((k + 1) / 2 == k / 2);
        assert((k + 2) / 2 == k / 2 + 1);
        assert(pow2((k + 2) / 2) == 2 * lo);
        assert(sedgewick_1986_term(k) >= p) by (nonlinear_arith)
            requires p == lo * lo, lo >= 2, sedgewick_1986_term(k) == 9 * p - 9 * lo + 1;
        assert(sedgewick_1986_term(k) < sedgewick_1986_term(k + 1)) by (nonlinear_arith)
            requires
                p == lo * lo,
                lo >= 2,
                sedgewick_1986_term(k) == 9 * p - 9 * lo + 1,
                sedgewick_1986_term(k + 1) == 8 * (2 * p) - 6 * (2 * lo) + 1,
        ;
    } else {
        assert((k + 1) / 2 == k / 2 + 1);
        assert((k + 1) / 2 == (k + 2) / 2);
        assert(sedgewick_1986_term(k) >= p) by (nonlinear_arith)
            requires p == lo * (2 * lo), lo >= 1, sedgewick_1986_term(k) == 8 * p - 6 * (2 * lo) + 1;
        assert(sedgewick_1986_term(k) < sedgewick_1986_term(k + 1)) by (nonlinear_arith)
            requires
                p == lo * (2 * lo),
                lo >= 1,
                sedgewick_1986_term(k) == 8 * p - 6 * (2 * lo) + 1,
                sedgewick_1986_term(k + 1) == 9 * (2 * p) - 9 * (2 * lo) + 1,
        ;
    }
}

proof fn lemma_sedgewick_1986_from(k: nat, n: int)
    requires
        k >= 1,
        n <= usize::MAX + 1,
    ensures
        run_from(sedgewick_1986_from(k, n), sedgewick_1986_term(k), n),
    decreases distance_below(k as int, n),
{
    lemma_sedgewick_1986_term(k);
    if !(k >= n || sedgewick_1986_term(k) >= n) {
        lemma_sedgewick_1986_from(k + 1, n);
        lemma_run_prepend(
            sedgewick_1986_term(k),
            sedgewick_1986_from(k + 1, n),
            sedgewick_1986_term(k + 1),
            n,
        );
    }
}

/// Sedgewick's 1986 gaps `1, 5, 19, 41, 109, ...` below `array_len`: the `k`-th
/// is `9 * 2^k - 9 * 2^(k/2) + 1` for even `k`, `8 * 2^k - 6 * 2^((k+1)/2) + 1` for odd.
pub fn sedgewick_1986(array_len: usize) -> (r: Vec<usize>)
    ensures
        r@ == seq![1usize] + sedgewick_1986_from(1, array_len as int),
        array_len >= 2 ==> gaps_within(r@, array_len as int),
        r@[0] == 1,
        forall|k: int| 1 <= k < r@.len() ==> #[trigger] r@[k] == sedgewick_1986_term(k as nat),
        sedgewick_1986_term(r@.len()) >= array_len,
{
    let mut gaps: Vec<usize> = Vec::new();
    gaps.push(1);
    let n = array_len as u128;
    let mut k: u128 = 1;
    let mut p: u128 = 2;
    let mut lo: u128 = 1;
    let mut hi: u128 = 2;
    proof {
        assert(pow2(1) == 2 * pow2(0));
    }
    loop
        invariant_except_break
            1 <= k,
            n == array_len,
            p == pow2(k as nat),
            lo == pow2((k / 2) as nat),
            hi == pow2(((k + 1) / 2) as nat),
            p <= 2 * n + 2,
            k <= n + 1,
            gaps@ + sedgewick_1986_from(k as nat, n as int) == seq![1usize] + sedgewick_1986_from(
                1,
                n as int,
            ),
        ensures
            gaps@ == seq![1usize] + sedgewick_1986_from(1, n as int),
        decreases n + 1 - k,
    {
        proof {
            lemma_pow2_facts(k as nat);
            lemma_sedgewick_1986_term(k as nat);
        }
        let gap = if k % 2 == 0 {
            9 * p - 9 * lo + 1
        } else {
            8 * p - 6 * hi + 1
        };
        if gap >= n {
            assert(sedgewick_1986_from(k as nat, n as int) =~= Seq::<usize>::empty());
            assert(gaps@ =~= gaps@ + sedgewick_1986_from(k as nat, n as int));
            break;
        }
        let ghost before = gaps@;
        gaps.push(gap as usize);
        assert(before + sedgewick_1986_from(k as nat, n as int) =~= gaps@ + sedgewick_1986_from(
            (k + 1) as nat,
            n as int,
        ));
        proof {
            assert(pow2((k + 1) as nat) == 2 * pow2(k as nat));
            assert((k + 2) / 2 == k / 2 + 1);
            assert(pow2((k / 2 + 1) as nat) == 2 * pow2((k / 2) as nat));
        }
        let next_lo = hi;
        hi = 2 * lo;
        lo = next_lo;
        p = 2 * p;
        k = k + 1;
    }
    proof {
        lemma_sedgewick_1986_from(1, n as int);
        assert(sedgewick_1986_term(1) == 5) by {
            assert(pow2(1) == 2 * pow2(0));
        }
        if n >= 2 {
            lemma_run_prepend(1, sedgewick_1986_from(1, n as int), 5, n as int);
        }
    }
    proof {
        lemma_sedgewick_1986_terms(1, n as int);
        let t = sedgewick_1986_from(1, n as int);
        assert forall|k: int| 1 <= k < gaps@.len() implies #[trigger] gaps@[k] == sedgewick_1986_term(
            k as nat,
        ) by {
            assert(gaps@[k] == t[k - 1]);
            assert(1 + (k - 1) as nat == k as nat);
        }
    }
    gaps
}

// ---- Gonnet & Baeza-Yates 1991: ceil((5g - 1) / 11) ----

/// `ceil((5g - 1) / 11)`.
pub open spec fn gonnet_baezayates_step(g: int) -> int {
    (5 * g + 9) / 11
}

/// The chain of steps from `g` down to 1, smallest first.
pub open spec fn gonnet_baezayates_spec(g: int) -> Seq<usize>
    decreases g,
{
    let h = gonnet_baezayates_step(g);
    if h <= 1 || g < 0 {
        seq![1usize]
    } else {
        gonnet_baezayates_spec(h).push(h as usize)
    }
}

proof fn lemma_gonnet_baezayates_within(g: int)
    requires
        2 <= g <= usize::MAX,
    ensures
        gaps_within(gonnet_baezayates_spec(g), g),
    decreases g,
{
    let h = gonnet_baezayates_step(g);
    if h > 1 {
        lemma_gonnet_baezayates_within(h);
        let s = gonnet_baezayates_spec(h);
        assert(forall|i: int| 0 <= i < s.len() ==> s.push(h as usize)[i] == s[i]);
    }
}

/// Gonnet and Baeza-Yates's gaps `ceil((5g - 1) / 11)`, from `array_len` down to 1,
/// in ascending order.
pub fn gonnet_baezayates_1991(array_len: usize) -> (r: Vec<usize>)
    ensures
        r@ == gonnet_baezayates_spec(array_len as int),
        array_len >= 2 ==> gaps_within(r@, array_len as int),
{
    let mut gaps: Vec<usize> = Vec::new();
    let mut gap = array_len;
    loop
        invariant_except_break
            gonnet_baezayates_spec(array_len as int) == gonnet_baezayates_spec(gap as int)
                + gaps@.reverse(),
        ensures
            gonnet_baezayates_spec(array_len as int) == gaps@.reverse(),
        decreases gap,
    {
        let ghost before = gaps@;
        let ghost g = gap;
        gap = ((5 * (gap as u128) + 9) / 11) as usize;
        if gap <= 1 {
            gaps.push(1);
            assert(gaps@.reverse() =~= seq![1usize] + before.reverse());
            break;
        }
        gaps.push(gap);
        assert(gaps@.reverse() =~= seq![gap] + before.reverse());
    }
    proof {
        if array_len >= 2 {
            lemma_gonnet_baezayates_within(array_len as int);
        }
    }
    reversed(&gaps)
}

// ---- Ciura 2001: a fixed table ----

pub open spec fn ciura_spec() -> Seq<usize> {
    seq![1usize, 4, 10, 23, 57, 132, 301, 701, 1750]
}

/// Ciura's empirical gaps, the same for every array length.
pub fn ciura_2001() -> (r: Vec<usize>)
    ensures
        r@ == ciura_spec(),
{
    let r: Vec<usize> = vec![1, 4, 10, 23, 57, 132, 301, 701, 1750];
    assert(r@ =~= ciura_spec());
    r
}

// ---- Tokuda 1992 and Lee 2021: geometric growth ----

/// Tokuda's ratio `9/4`.
pub const TOKUDA_NUMERATOR: u64 = 9;

pub const TOKUDA_DENOMINATOR: u64 = 4;

/// Lee's ratio `2.243609061420001`, written as a fraction.
pub const LEE_NUMERATOR: u64 = 2243609061420001;

pub const LEE_DENOMINATOR: u64 = 1000000000000000;

/// Tokuda's gaps `ceil((r^k - 1) / (r - 1))` with `r = 9/4`: `1, 4, 9, 20, 46, ...`
/// below `array_len`.
pub fn tokuda_1992(array_len: usize) -> (r: Vec<usize>)
    ensures
        r@ == geometric_gaps(TOKUDA_NUMERATOR as int, TOKUDA_DENOMINATOR as int, array_len as int),
        array_len >= 2 ==> gaps_within(r@, array_len as int),
{
    geometric_sequence(TOKUDA_NUMERATOR, TOKUDA_DENOMINATOR, array_len)
}

/// Lee's gaps `ceil((r^k - 1) / (r - 1))` with `r = 2.243609061420001`:
/// `1, 4, 9, 20, 45, 102, ...` below `array_len`.
pub fn lee_2021(array_len: usize) -> (r: Vec<usize>)
    ensures
        r@ == geometric_gaps(LEE_NUMERATOR as int, LEE_DENOMINATOR as int, array_len as int),
        array_len >= 2 ==> gaps_within(r@, array_len as int),
{
    geometric_sequence(LEE_NUMERATOR, LEE_DENOMINATOR, array_len)
}

// ---- The named sequences ----

/// A gap sequence: one of the published ones, or a list given by the user.
#[derive(Debug)]
pub enum GapSequence {
    Shell1959,
    FrankLazarus1960,
    Hibbard1963,
    PapernovStasevich1965,
    Pratt1971,
    Knuth1973,
    Sedgewick1982,
    IncerpiSedgewick1985,
    Sedgewick1986,
    GonnetBaezaYates1991,
    Tokuda1992,
    Ciura2001,
    Lee2021,
    Custom(Vec<usize>),
}

/// The gaps that `g` gives for an array of length `n`.
pub open spec fn gap_sequence_spec(g: GapSequence, n: int) -> Seq<usize> {
    match g {
        GapSequence::Shell1959 => shell_spec(n),
        GapSequence::FrankLazarus1960 => frank_lazarus_spec(n),
        GapSequence::Hibbard1963 => seq![1usize] + hibbard_from(3, n),
        GapSequence::PapernovStasevich1965 => seq![1usize] + papernov_stasevich_from(3, n),
        GapSequence::Pratt1971 => smooth_upto(3, n - 1),
        GapSequence::Knuth1973 => seq![1usize] + knuth_from(4, n),
        GapSequence::Sedgewick1982 => seq![1usize] + sedgewick_1982_from(4, 3, n),
        GapSequence::IncerpiSedgewick1985 => incerpi_sedgewick_from(1, n),
        GapSequence::Sedgewick1986 => seq![1usize] + sedgewick_1986_from(1, n),
        GapSequence::GonnetBaezaYates1991 => gonnet_baezayates_spec(n),
        GapSequence::Tokuda1992 => geometric_gaps(TOKUDA_NUMERATOR as int, TOKUDA_DENOMINATOR as int, n),
        GapSequence::Ciura2001 => ciura_spec(),
        GapSequence::Lee2021 => geometric_gaps(LEE_NUMERATOR as int, LEE_DENOMINATOR as int, n),
        GapSequence::Custom(gaps) => gaps@,
    }
}

impl GapSequence {
    /// The gaps for an array of length `array_len`, ascending.
    pub fn to_vec(&self, array_len: usize) -> (r: Vec<usize>)
        ensures
            r@ == gap_sequence_spec(*self, array_len as int),
    {
        match self {
            GapSequence::Shell1959 => shell_1959(array_len),
            GapSequence::FrankLazarus1960 => frank_lazarus_1960(array_len),
            GapSequence::Hibbard1963 => hibbard_1963(array_len),
            GapSequence::PapernovStasevich1965 => papernov_stasevich_1965(array_len),
            GapSequence::Pratt1971 => pratt_1971(array_len),
            GapSequence::Knuth1973 => knuth_1973(array_len),
            GapSequence::Sedgewick1982 => sedgewick_1982(array_len),
            GapSequence::IncerpiSedgewick1985 => incerpi_sedgewick_1985(array_len),
            GapSequence::Sedgewick1986 => sedgewick_1986(array_len),
            GapSequence::GonnetBaezaYates1991 => gonnet_baezayates_1991(array_len),
            GapSequence::Tokuda1992 => tokuda_1992(array_len),
            GapSequence::Ciura2001 => ciura_2001(),
            GapSequence::Lee2021 => lee_2021(array_len),
            GapSequence::Custom(gaps) => copy_gaps(gaps),
        }
    }
}

fn copy_gaps(gaps: &Vec<usize>) -> (r: Vec<usize>)
    ensures
        r@ == gaps@,
{
    let mut r: Vec<usize> = Vec::new();
    let mut i: usize = 0;
    while i < gaps.len()
        invariant
            i <= gaps@.len(),
            r@ == gaps@.take(i as int),
        decreases gaps@.len() - i,
    {
        r.push(gaps[i]);
        assert(gaps@.take(i + 1) =~= gaps@.take(i as int).push(gaps@[i as int]));
        i = i + 1;
    }
    assert(gaps@.take(gaps@.len() as int) =~= gaps@);
    r
}

/// Each named sequence other than Incerpi and Sedgewick's gives, for an array of
/// two or more entries, strictly ascending gaps of at least 1 and below the
/// length (Ciura's fixed table only for arrays longer than its last gap, 1750).
pub proof fn lemma_named_gaps_within(g: GapSequence, n: usize)
    requires
        !(g is Custom),
        !(g is IncerpiSedgewick1985),
        n >= 2,
        g is Ciura2001 ==> n > 1750,
    ensures
        gaps_within(gap_sequence_spec(g, n as int), n as int),
{
    let m = n as int;
    match g {
        GapSequence::Shell1959 => {
            lemma_shell_within(m);
        },
        GapSequence::FrankLazarus1960 => {
            lemma_frank_lazarus_within(m);
        },
        GapSequence::Hibbard1963 => {
            lemma_hibbard_from(3, m);
            lemma_run_prepend(1, hibbard_from(3, m), 3, m);
        },
        GapSequence::PapernovStasevich1965 => {
            lemma_papernov_stasevich_from(3, m);
            lemma_run_prepend(1, papernov_stasevich_from(3, m), 3, m);
        },
        GapSequence::Pratt1971 => {
            lemma_smooth_upto(3, m - 1);
        },
        GapSequence::Knuth1973 => {
            lemma_knuth_from(4, m);
            lemma_run_prepend(1, knuth_from(4, m), 4, m);
        },
        GapSequence::Sedgewick1982 => {
            lemma_sedgewick_1982_from(4, 3, m);
            lemma_run_prepend(1, sedgewick_1982_from(4, 3, m), 8, m);
        },
        GapSequence::Sedgewick1986 => {
            lemma_sedgewick_1986_from(1, m);
            assert(sedgewick_1986_term(1) == 5) by {
                assert(pow2(1) == 2 * pow2(0));
            }
            lemma_run_prepend(1, sedgewick_1986_from(1, m), 5, m);
        },
        GapSequence::GonnetBaezaYates1991 => {
            lemma_gonnet_baezayates_within(m);
        },
        GapSequence::Tokuda1992 => {
            lemma_geometric_gaps_within(TOKUDA_NUMERATOR as int, TOKUDA_DENOMINATOR as int, m);
        },
        GapSequence::Lee2021 => {
            lemma_geometric_gaps_within(LEE_NUMERATOR as int, LEE_DENOMINATOR as int, m);
        },
        GapSequence::Ciura2001 => {
            let c = ciura_spec();
            assert(c.len() == 9);
            assert(c[0] == 1 && c[1] == 4 && c[2] == 10 && c[3] == 23 && c[4] == 57 && c[5] == 132
                && c[6] == 301 && c[7] == 701 && c[8] == 1750);
        },
        _ => {},
    }
}

/// Ciura's gaps do not depend on the array length.
pub proof fn lemma_ciura_fixed(g: GapSequence, n: usize)
    requires
        g is Ciura2001,
    ensures
        gap_sequence_spec(g, n as int) == seq![1usize, 4, 10, 23, 57, 132, 301, 701, 1750],
{
}

// ---- Parsing a sequence from its name or a list of gaps ----

/// The error of reading an integer, passed on as it comes.
#[verifier::external_type_specification]
#[verifier::external_body]
pub struct ExParseIntError(std::num::ParseIntError);

/// What `str::to_lowercase` makes of `s`.
pub uninterp spec fn lower_of(s: Seq<char>) -> Seq<char>;

/// A character with Unicode's White_Space property.
pub open spec fn is_white_space(c: char) -> bool {
    let x = c as int;
    ||| 0x09 <= x <= 0x0d
    ||| x == 0x20
    ||| x == 0x85
    ||| x == 0xa0
    ||| x == 0x1680
    ||| 0x2000 <= x <= 0x200a
    ||| x == 0x2028
    ||| x == 0x2029
    ||| x == 0x202f
    ||| x == 0x205f
    ||| x == 0x3000
}

/// `s` without its leading white space.
pub open spec fn trim_start_of(s: Seq<char>) -> Seq<char>
    decreases s.len(),
{
    if s.len() > 0 && is_white_space(s[0]) {
        trim_start_of(s.drop_first())
    } else {
        s
    }
}

/// `s` without its trailing white space.
pub open spec fn trim_end_of(s: Seq<char>) -> Seq<char>
    decreases s.len(),
{
    if s.len() > 0 && is_white_space(s.last()) {
        trim_end_of(s.drop_last())
    } else {
        s
    }
}

/// `s` without its leading and trailing white space.
pub open spec fn trimmed(s: Seq<char>) -> Seq<char> {
    trim_end_of(trim_start_of(s))
}

/// Relies on `str::to_lowercase`: the result depends on the characters alone.
#[verifier::external_body]
fn lowercase(s: &str) -> (r: String)
    ensures
        r@ == lower_of(s@),
{
    s.to_lowercase()
}

/// Relies on `str::trim`: leading and trailing characters with Unicode's
/// White_Space property are removed, and nothing else.
#[verifier::external_body]
fn trim(s: &str) -> (r: &str)
    ensures
        r@ == trimmed(s@),
{
    s.trim()
}

/// `s` without a leading `+`.
pub open spec fn unsigned_part(s: Seq<char>) -> Seq<char> {
    if s.len() > 0 && s[0] == '+' {
        s.drop_first()
    } else {
        s
    }
}

pub open spec fn is_ascii_digit(c: char) -> bool {
    '0' <= c && c <= '9'
}

/// The number that a string of ASCII digits writes in base 10.
pub open spec fn digits_number(s: Seq<char>) -> int
    decreases s.len(),
{
    if s.len() == 0 {
        0
    } else {
        digits_number(s.drop_last()) * 10 + (s.last() as int - '0' as int)
    }
}

/// `s` is an optional `+` and then one or more ASCII digits whose value fits a `usize`.
pub open spec fn is_usize_text(s: Seq<char>) -> bool {
    let d = unsigned_part(s);
    &&& d.len() > 0
    &&& forall|i: int| 0 <= i < d.len() ==> is_ascii_digit(#[trigger] d[i])
    &&& digits_number(d) <= usize::MAX
}

/// Relies on `str::parse::<usize>` (`usize::from_str_radix` in base 10): an
/// optional `+` followed by ASCII digits, with no other character, whose value
/// fits, is read; anything else is an error.
#[verifier::external_body]
fn parse_usize(s: &str) -> (r: Result<usize, ParseIntError>)
    ensures
        r is Ok <==> is_usize_text(s@),
        r is Ok ==> r->Ok_0 == digits_number(unsigned_part(s@)),
{
    s.parse::<usize>()
}

/// The pieces of `s` between commas, as `str::split(',')` gives them.
pub open spec fn comma_pieces(s: Seq<char>) -> Seq<Seq<char>>
    decreases s.len(),
{
    if s.len() == 0 {
        seq![Seq::<char>::empty()]
    } else {
        let p = comma_pieces(s.drop_last());
        if s.last() == ',' {
            p.push(Seq::<char>::empty())
        } else {
            p.update(p.len() - 1, p.last().push(s.last()))
        }
    }
}

proof fn lemma_comma_pieces_nonempty(s: Seq<char>)
    ensures
        comma_pieces(s).len() >= 1,
    decreases s.len(),
{
    if s.len() > 0 {
        lemma_comma_pieces_nonempty(s.drop_last());
    }
}

/// Every piece of `s`, trimmed, reads as a `usize`.
pub open spec fn gap_list_parses(s: Seq<char>) -> bool {
    forall|j: int|
        0 <= j < comma_pieces(s).len() ==> is_usize_text(trimmed(#[trigger] comma_pieces(s)[j]))
}

/// The values of the trimmed pieces of `s`.
pub open spec fn gap_list_values(s: Seq<char>) -> Seq<usize> {
    comma_pieces(s).map_values(|p: Seq<char>| digits_number(unsigned_part(trimmed(p))) as usize)
}

/// Whether `a` and `b` hold the same characters.
fn same_text(a: &str, b: &str) -> (r: bool)
    ensures
        r == (a@ == b@),
{
    let n = a.unicode_len();
    if n != b.unicode_len() {
        return false;
    }
    let mut i: usize = 0;
    while i < n
        invariant
            n == a@.len(),
            n == b@.len(),
            i <= n,
            forall|j: int| 0 <= j < i ==> a@[j] == b@[j],
        decreases n - i,
    {
        if a.get_char(i) != b.get_char(i) {
            return false;
        }
        i = i + 1;
    }
    assert(a@ =~= b@);
    true
}

/// How many sequences have a name.
pub const NAMED_SEQUENCES: usize = 13;

/// The name of the `i`-th named sequence: the one table of names, shared by
/// the parser and the list of names.
pub open spec fn sequence_name(i: int) -> Seq<char> {
    if i == 0 {
        "shell_1959"@
    } else if i == 1 {
        "frank_lazarus_1960"@
    } else if i == 2 {
        "hibbard_1963"@
    } else if i == 3 {
        "papernov_stasevich_1965"@
    } else if i == 4 {
        "pratt_1971"@
    } else if i == 5 {
        "knuth_1973"@
    } else if i == 6 {
        "sedgewick_1982"@
    } else if i == 7 {
        "incerpi_sedgewick_1985"@
    } else if i == 8 {
        "sedgewick_1986"@
    } else if i == 9 {
        "gonnet_baezayates_1991"@
    } else if i == 10 {
        "tokuda_1992"@
    } else if i == 11 {
        "ciura_2001"@
    } else {
        "lee_2021"@
    }
}

/// The `i`-th named sequence.
pub open spec fn sequence_at(i: int) -> GapSequence {
    if i == 0 {
        GapSequence::Shell1959
    } else if i == 1 {
        GapSequence::FrankLazarus1960
    } else if i == 2 {
        GapSequence::Hibbard1963
    } else if i == 3 {
        GapSequence::PapernovStasevich1965
    } else if i == 4 {
        GapSequence::Pratt1971
    } else if i == 5 {
        GapSequence::Knuth1973
    } else if i == 6 {
        GapSequence::Sedgewick1982
    } else if i == 7 {
        GapSequence::IncerpiSedgewick1985
    } else if i == 8 {
        GapSequence::Sedgewick1986
    } else if i == 9 {
        GapSequence::GonnetBaezaYates1991
    } else if i == 10 {
        GapSequence::Tokuda1992
    } else if i == 11 {
        GapSequence::Ciura2001
    } else {
        GapSequence::Lee2021
    }
}

/// The first named sequence from the `i`-th on that is called `name`.
pub open spec fn named_from(name: Seq<char>, i: int) -> Option<GapSequence>
    decreases NAMED_SEQUENCES - i,
{
    if i < 0 || i >= NAMED_SEQUENCES {
        None
    } else if sequence_name(i) == name {
        Some(sequence_at(i))
    } else {
        named_from(name, i + 1)
    }
}

/// The sequence called `name` (in lower case); the empty name is Lee's.
pub open spec fn named_sequence(name: Seq<char>) -> Option<GapSequence> {
    if name == ""@ {
        Some(GapSequence::Lee2021)
    } else {
        named_from(name, 0)
    }
}

fn sequence_name_exec(i: usize) -> (r: &'static str)
    requires
        i < NAMED_SEQUENCES,
    ensures
        r@ == sequence_name(i as int),
{
    match i {
        0 => "shell_1959",
        1 => "frank_lazarus_1960",
        2 => "hibbard_1963",
        3 => "papernov_stasevich_1965",
        4 => "pratt_1971",
        5 => "knuth_1973",
        6 => "sedgewick_1982",
        7 => "incerpi_sedgewick_1985",
        8 => "sedgewick_1986",
        9 => "gonnet_baezayates_1991",
        10 => "tokuda_1992",
        11 => "ciura_2001",
        _ => "lee_2021",
    }
}

fn sequence_at_exec(i: usize) -> (r: GapSequence)
    requires
        i < NAMED_SEQUENCES,
    ensures
        r == sequence_at(i as int),
{
    match i {
        0 => GapSequence::Shell1959,
        1 => GapSequence::FrankLazarus1960,
        2 => GapSequence::Hibbard1963,
        3 => GapSequence::PapernovStasevich1965,
        4 => GapSequence::Pratt1971,
        5 => GapSequence::Knuth1973,
        6 => GapSequence::Sedgewick1982,
        7 => GapSequence::IncerpiSedgewick1985,
        8 => GapSequence::Sedgewick1986,
        9 => GapSequence::GonnetBaezaYates1991,
        10 => GapSequence::Tokuda1992,
        11 => GapSequence::Ciura2001,
        _ => GapSequence::Lee2021,
    }
}

/// The names are all different, none of them empty, and no two name the same
/// sequence.
pub proof fn lemma_names_distinct()
    ensures
        forall|i: int, j: int|
            0 <= i < j < NAMED_SEQUENCES ==> sequence_name(i) != sequence_name(j) && sequence_at(i)
                != sequence_at(j),
        forall|i: int| 0 <= i < NAMED_SEQUENCES ==> sequence_name(i) != ""@,
{
    reveal_strlit("shell_1959");
    reveal_strlit("frank_lazarus_1960");
    reveal_strlit("hibbard_1963");
    reveal_strlit("papernov_stasevich_1965");
    reveal_strlit("pratt_1971");
    reveal_strlit("knuth_1973");
    reveal_strlit("sedgewick_1982");
    reveal_strlit("incerpi_sedgewick_1985");
    reveal_strlit("sedgewick_1986");
    reveal_strlit("gonnet_baezayates_1991");
    reveal_strlit("tokuda_1992");
    reveal_strlit("ciura_2001");
    reveal_strlit("lee_2021");
    reveal_strlit("");
    assert(sequence_name(0).len() == 10 && sequence_name(0)[0] == 's');
    assert(sequence_name(1).len() == 18 && sequence_name(1)[0] == 'f' && sequence_name(1)[13] == '_');
    assert(sequence_name(2).len() == 12 && sequence_name(2)[0] == 'h');
    assert(sequence_name(3).len() == 23 && sequence_name(3)[0] == 'p' && sequence_name(3)[13] == 'e');
    assert(sequence_name(4).len() == 10 && sequence_name(4)[0] == 'p');
    assert(sequence_name(5).len() == 10 && sequence_name(5)[0] == 'k');
    assert(sequence_name(6).len() == 14 && sequence_name(6)[0] == 's' && sequence_name(6)[13] == '2');
    assert(sequence_name(7).len() == 22 && sequence_name(7)[0] == 'i' && sequence_name(7)[13] == 'w');
    assert(sequence_name(8).len() == 14 && sequence_name(8)[0] == 's' && sequence_name(8)[13] == '6');
    assert(sequence_name(9).len() == 22 && sequence_name(9)[0] == 'g' && sequence_name(9)[13] == 'a');
    assert(sequence_name(10).len() == 11 && sequence_name(10)[0] == 't');
    assert(sequence_name(11).len() == 10 && sequence_name(11)[0] == 'c');
    assert(sequence_name(12).len() == 8 && sequence_name(12)[0] == 'l');
    assert forall|i: int, j: int| 0 <= i < j < NAMED_SEQUENCES implies sequence_name(i)
        != sequence_name(j) && sequence_at(i) != sequence_at(j) by {
        if sequence_name(i) == sequence_name(j) {
            assert(sequence_name(i).len() == sequence_name(j).len());
            assert(sequence_name(i)[0] == sequence_name(j)[0]);
            if sequence_name(i).len() > 13 {
                assert(sequence_name(i)[13] == sequence_name(j)[13]);
            }
        }
    }
    assert(""@.len() == 0);
}

/// Every named sequence, called by its name, is found by that name.
pub proof fn lemma_names_found(i: int)
    requires
        0 <= i < NAMED_SEQUENCES,
    ensures
        named_sequence(sequence_name(i)) == Some(sequence_at(i)),
{
    lemma_names_distinct();
    lemma_named_from(sequence_name(i), 0, i);
}

proof fn lemma_named_from(name: Seq<char>, j: int, i: int)
    requires
        0 <= j <= i < NAMED_SEQUENCES,
        name == sequence_name(i),
        forall|a: int, b: int|
            0 <= a < b < NAMED_SEQUENCES ==> sequence_name(a) != sequence_name(b),
    ensures
        named_from(name, j) == Some(sequence_at(i)),
    decreases i - j,
{
    if j < i {
        lemma_named_from(name, j + 1, i);
    }
}

/// The names that `GapSequence::parse` knows, in the order of the sequences' years.
pub fn sequence_names() -> (r: Vec<&'static str>)
    ensures
        r@.len() == NAMED_SEQUENCES,
        forall|i: int| 0 <= i < r@.len() ==> #[trigger] r@[i]@ == sequence_name(i),
{
    let mut r: Vec<&'static str> = Vec::new();
    let mut i: usize = 0;
    while i < NAMED_SEQUENCES
        invariant
            i <= NAMED_SEQUENCES,
            r@.len() == i,
            forall|k: int| 0 <= k < i ==> #[trigger] r@[k]@ == sequence_name(k),
        decreases NAMED_SEQUENCES - i,
    {
        r.push(sequence_name_exec(i));
        i = i + 1;
    }
    r
}

/// The sequence called `name`, which is already in lower case.
pub fn from_lowercase_name(name: &str) -> (r: Option<GapSequence>)
    ensures
        r == named_sequence(name@),
{
    if same_text(name, "") {
        return Some(GapSequence::Lee2021);
    }
    let mut i: usize = 0;
    while i < NAMED_SEQUENCES
        invariant
            i <= NAMED_SEQUENCES,
            name@ != ""@,
            named_from(name@, 0) == named_from(name@, i as int),
        decreases NAMED_SEQUENCES - i,
    {
        if same_text(name, sequence_name_exec(i)) {
            return Some(sequence_at_exec(i));
        }
        i = i + 1;
    }
    None
}

/// Reads a comma-separated list of gaps; each piece is trimmed and read as a
/// `usize`, and the first piece that does not read gives the error.
pub fn parse_gap_list(value: &str) -> (r: Result<Vec<usize>, ParseIntError>)
    ensures
        r is Ok <==> gap_list_parses(value@),
        r is Ok ==> r->Ok_0@ == gap_list_values(value@),
{
    let n = value.unicode_len();
    let ghost s = value@;
    let mut pieces: Vec<&str> = Vec::new();
    let mut start: usize = 0;
    let mut i: usize = 0;
    assert(s.take(0) =~= Seq::<char>::empty());
    assert(pieces@.map_values(|p: &str| p@).push(s.subrange(0, 0)) =~= seq![Seq::<char>::empty()]);
    while i < n
        invariant
            n == s.len(),
            s == value@,
            start <= i <= n,
            pieces@.map_values(|p: &str| p@).push(s.subrange(start as int, i as int)) == comma_pieces(
                s.take(i as int),
            ),
        decreases n - i,
    {
        let ghost before = pieces@.map_values(|p: &str| p@);
        assert(s.take(i + 1).drop_last() =~= s.take(i as int));
        assert(s.take(i + 1).last() == s[i as int]);
        if value.get_char(i) == ',' {
            let piece = value.substring_char(start, i);
            pieces.push(piece);
            assert(pieces@.map_values(|p: &str| p@) =~= before.push(piece@));
            assert(s.subrange((i + 1) as int, (i + 1) as int) =~= Seq::<char>::empty());
            start = i + 1;
        } else {
            assert(s.subrange(start as int, i + 1) =~= s.subrange(start as int, i as int).push(
                s[i as int],
            ));
            assert(before.push(s.subrange(start as int, i + 1)) =~= before.push(
                s.subrange(start as int, i as int),
            ).update(before.len() as int, s.subrange(start as int, i as int).push(s[i as int])));
        }
        i = i + 1;
    }
    let last = value.substring_char(start, n);
    pieces.push(last);
    assert(s.take(n as int) =~= s);
    let ghost all = pieces@.map_values(|p: &str| p@);
    assert(all == comma_pieces(s));
    let mut gaps: Vec<usize> = Vec::new();
    let mut j: usize = 0;
    while j < pieces.len()
        invariant
            j <= pieces@.len(),
            all == pieces@.map_values(|p: &str| p@),
            all == comma_pieces(s),
            s == value@,
            forall|k: int| 0 <= k < j ==> is_usize_text(trimmed(#[trigger] all[k])),
            gaps@ == all.take(j as int).map_values(
                |p: Seq<char>| digits_number(unsigned_part(trimmed(p))) as usize,
            ),
        decreases pieces@.len() - j,
    {
        let t = trim(pieces[j]);
        assert(all[j as int] == pieces@[j as int]@);
        match parse_usize(t) {
            Ok(v) => {
                gaps.push(v);
                assert(all.take(j + 1) =~= all.take(j as int).push(all[j as int]));
            },
            Err(e) => {
                return Err(e);
            },
        }
        j = j + 1;
    }
    assert(all.take(all.len() as int) =~= all);
    Ok(gaps)
}

impl GapSequence {
    /// The sequence that `value` names, whatever its case, or else the list of
    /// gaps that it writes with commas.
    pub fn parse(value: &str) -> (r: Result<GapSequence, ParseIntError>)
        ensures
            named_sequence(lower_of(value@)) is Some ==> r == Ok::<GapSequence, ParseIntError>(
                named_sequence(lower_of(value@))->Some_0,
            ),
            named_sequence(lower_of(value@)) is None ==> (r is Ok <==> gap_list_parses(value@)),
            named_sequence(lower_of(value@)) is None && r is Ok ==> (r->Ok_0 is Custom
                && r->Ok_0->Custom_0@ == gap_list_values(value@)),
    {
        let lowered = lowercase(value);
        match from_lowercase_name(lowered.as_str()) {
            Some(g) => Ok(g),
            None => match parse_gap_list(value) {
                Ok(gaps) => Ok(GapSequence::Custom(gaps)),
                Err(e) => Err(e),
            },
        }
    }
}

// ---- Closed forms of the doubling and tripling chains ----

/// From `2^m - 1` on, the `i`-th term is `2^(m+i) - 1`, and the first term left
/// out reaches `n`.
proof fn lemma_hibbard_terms(m: nat, n: int)
    requires
        m >= 1,
        n <= usize::MAX + 1,
    ensures
        ({
            let s = hibbard_from(power(2, m) - 1, n);
            &&& forall|i: int| 0 <= i < s.len() ==> s[i] == power(2, m + i as nat) - 1
            &&& power(2, m + s.len()) - 1 >= n
        }),
    decreases distance_below(power(2, m) - 1, n),
{
    let g = power(2, m) - 1;
    assert(power(2, m + 1) == 2 * power(2, m));
    lemma_power_positive_two(m);
    if g < n {
        lemma_hibbard_terms(m + 1, n);
        let t = hibbard_from(power(2, m + 1) - 1, n);
        assert(2 * g + 1 == power(2, m + 1) - 1);
        let s = hibbard_from(g, n);
        assert(s == seq![g as usize] + t);
        assert forall|i: int| 0 <= i < s.len() implies s[i] == power(2, m + i as nat) - 1 by {
            if i > 0 {
                assert(s[i] == t[i - 1]);
                assert((m + 1) + (i - 1) as nat == m + i as nat);
            }
        }
        assert(m + s.len() == (m + 1) + t.len());
    }
}

proof fn lemma_power_positive_two(m: nat)
    ensures
        power(2, m) >= 1,
    decreases m,
{
    if m > 0 {
        lemma_power_positive_two((m - 1) as nat);
    }
}

proof fn lemma_power_positive_three(m: nat)
    ensures
        power(3, m) >= 1,
    decreases m,
{
    if m > 0 {
        lemma_power_positive_three((m - 1) as nat);
    }
}

/// From `2^m + 1` on (`m >= 1`), the `i`-th term is `2^(m+i) + 1`, and the first
/// term left out reaches `n`.
proof fn lemma_papernov_stasevich_terms(m: nat, n: int)
    requires
        m >= 1,
        n <= usize::MAX + 1,
    ensures
        ({
            let s = papernov_stasevich_from(power(2, m) + 1, n);
            &&& forall|i: int| 0 <= i < s.len() ==> s[i] == power(2, m + i as nat) + 1
            &&& power(2, m + s.len()) + 1 >= n
        }),
    decreases distance_below(power(2, m) + 1, n),
{
    let g = power(2, m) + 1;
    assert(power(2, m + 1) == 2 * power(2, m));
    lemma_power_positive_two(m);
    if g < n {
        lemma_papernov_stasevich_terms(m + 1, n);
        let t = papernov_stasevich_from(power(2, m + 1) + 1, n);
        assert(2 * g - 1 == power(2, m + 1) + 1);
        let s = papernov_stasevich_from(g, n);
        assert(s == seq![g as usize] + t);
        assert forall|i: int| 0 <= i < s.len() implies s[i] == power(2, m + i as nat) + 1 by {
            if i > 0 {
                assert(s[i] == t[i - 1]);
                assert((m + 1) + (i - 1) as nat == m + i as nat);
            }
        }
        assert(m + s.len() == (m + 1) + t.len());
    }
}

/// From `(3^m - 1)/2` on, the `i`-th term `t` has `2t + 1 == 3^(m+i)`, and the
/// first term left out reaches `n`.
proof fn lemma_knuth_terms(m: nat, g: int, n: int)
    requires
        m >= 1,
        2 * g + 1 == power(3, m),
        n <= usize::MAX + 1,
    ensures
        ({
            let s = knuth_from(g, n);
            &&& forall|i: int| 0 <= i < s.len() ==> 2 * s[i] + 1 == power(3, m + i as nat)
            &&& power(3, m + s.len()) >= 2 * n + 1
        }),
    decreases distance_below(g, n),
{
    assert(power(3, m + 1) == 3 * power(3, m));
    lemma_power_positive_three(m);
    if g < n {
        lemma_knuth_terms(m + 1, 3 * g + 1, n);
        let t = knuth_from(3 * g + 1, n);
        let s = knuth_from(g, n);
        assert(s == seq![g as usize] + t);
        assert forall|i: int| 0 <= i < s.len() implies 2 * s[i] + 1 == power(3, m + i as nat) by {
            if i > 0 {
                assert(s[i] == t[i - 1]);
                assert((m + 1) + (i - 1) as nat == m + i as nat);
            }
        }
        assert(m + s.len() == (m + 1) + t.len());
    }
}

/// From `a = 4^k`, `b = 3 * 2^(k-1)` on, the `i`-th term is
/// `4^(k+i) + 3 * 2^(k+i-1) + 1`, and the first term left out reaches `n`.
proof fn lemma_sedgewick_1982_terms(k: nat, n: int)
    requires
        k >= 1,
        n <= usize::MAX + 1,
    ensures
        ({
            let s = sedgewick_1982_from(power(4, k), 3 * power(2, (k - 1) as nat), n);
            &&& forall|i: int|
                0 <= i < s.len() ==> s[i] == power(4, k + i as nat) + 3 * power(
                    2,
                    (k + i - 1) as nat,
                ) + 1
            &&& power(4, k + s.len()) + 3 * power(2, (k + s.len() - 1) as nat) + 1 >= n
        }),
    decreases distance_below(power(4, k), n),
{
    let a = power(4, k);
    let b = 3 * power(2, (k - 1) as nat);
    assert(power(4, k + 1) == 4 * a);
    assert(power(2, k) == 2 * power(2, (k - 1) as nat));
    assert((k + 1 - 1) as nat == k);
    lemma_power_positive_two((k - 1) as nat);
    lemma_power_positive_four(k);
    if a + b + 1 < n {
        lemma_sedgewick_1982_terms(k + 1, n);
        let t = sedgewick_1982_from(power(4, k + 1), 3 * power(2, k), n);
        let s = sedgewick_1982_from(a, b, n);
        assert(s == seq![(a + b + 1) as usize] + t);
        assert forall|i: int|
            0 <= i < s.len() implies s[i] == power(4, k + i as nat) + 3 * power(
                2,
                (k + i - 1) as nat,
            ) + 1 by {
            if i > 0 {
                assert(s[i] == t[i - 1]);
                assert((k + 1) + (i - 1) as nat == k + i as nat);
                assert(((k + 1) + (i - 1) as nat - 1) as nat == (k + i - 1) as nat);
            }
        }
        assert(k + s.len() == (k + 1) + t.len());
    }
}

proof fn lemma_power_positive_four(m: nat)
    ensures
        power(4, m) >= 1,
    decreases m,
{
    if m > 0 {
        lemma_power_positive_four((m - 1) as nat);
    }
}

/// From the `k`-th on, the `i`-th term kept is `sedgewick_1986_term(k + i)`,
/// and the first term left out reaches `n`.
proof fn lemma_sedgewick_1986_terms(k: nat, n: int)
    requires
        k >= 1,
        n <= usize::MAX + 1,
    ensures
        ({
            let s = sedgewick_1986_from(k, n);
            &&& forall|i: int| 0 <= i < s.len() ==> s[i] == sedgewick_1986_term(k + i as nat)
            &&& sedgewick_1986_term(k + s.len()) >= n
        }),
    decreases distance_below(k as int, n),
{
    if k >= n || sedgewick_1986_term(k) >= n {
        assert(sedgewick_1986_term(k) >= n) by {
            lemma_sedgewick_1986_term(k);
            lemma_pow2_facts(k);
        }
        assert(sedgewick_1986_from(k, n).len() == 0);
    } else {
        lemma_sedgewick_1986_terms(k + 1, n);
        let t = sedgewick_1986_from(k + 1, n);
        let s = sedgewick_1986_from(k, n);
        assert(sedgewick_1986_term(k) >= 0) by {
            lemma_sedgewick_1986_term(k);
            lemma_pow2_facts(k);
        }
        assert(s == seq![sedgewick_1986_term(k) as usize] + t);
        assert forall|i: int| 0 <= i < s.len() implies s[i] == sedgewick_1986_term(k + i as nat) by {
            if i > 0 {
                assert(s[i] == t[i - 1]);
                assert((k + 1) + (i - 1) as nat == k + i as nat);
            }
        }
        assert(k + s.len() == (k + 1) + t.len());
    }
}

/// The halvings of `g`: the `i`-th of `L` is `g / 2^(L - i)`, and one more
/// halving would reach zero.
proof fn lemma_shell_terms(g: int)
    requires
        0 <= g <= usize::MAX,
    ensures
        ({
            let s = shell_spec(g);
            &&& forall|i: int| 0 <= i < s.len() ==> s[i] == g / power(2, (s.len() - i) as nat)
            &&& g / power(2, (s.len() + 1) as nat) == 0
        }),
    decreases g,
{
    let s = shell_spec(g);
    if g < 2 {
        assert(power(2, 1) == 2 * power(2, 0));
    } else {
        let h = g / 2;
        lemma_shell_terms(h);
        let t = shell_spec(h);
        assert(s == t.push(h as usize));
        assert forall|i: int| 0 <= i < s.len() implies s[i] == g / power(2, (s.len() - i) as nat) by {
            let e = (s.len() - i) as nat;
            lemma_power_positive_two((e - 1) as nat);
            assert(power(2, e) == 2 * power(2, (e - 1) as nat));
            vstd::arithmetic::div_mod::lemma_div_denominator(g, 2, power(2, (e - 1) as nat));
            if i < t.len() {
                assert(s[i] == t[i]);
                assert((t.len() - i) as nat == (e - 1) as nat);
            } else {
                assert(e == 1);
                assert(power(2, 0) == 1);
            }
        }
        let e = (s.len() + 1) as nat;
        lemma_power_positive_two((e - 1) as nat);
        assert(power(2, e) == 2 * power(2, (e - 1) as nat));
        vstd::arithmetic::div_mod::lemma_div_denominator(g, 2, power(2, (e - 1) as nat));
        assert((t.len() + 1) as nat == (e - 1) as nat);
    }
}

} // verus!
