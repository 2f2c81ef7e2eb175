//! Incerpi and Sedgewick's 1985 gaps: products of all but one of a set of
//! pairwise coprime bases that grow by a factor of about 5/2.

use vstd::prelude::*;

use super::geometric::power;
use super::math::{gcd, gcd_spec};

verus! {

/// The last `k` looked at. At `k = 1275` a gap is a product of 49 bases of at
/// least 3 each, far beyond any `usize`.
pub const LAST_INDEX: usize = 1275;

/// `floor(sqrt(x))`.
pub open spec fn floor_sqrt(x: int) -> int {
    choose|r: int| 0 <= r && #[trigger] (r * r) <= x && x < (r + 1) * (r + 1)
}

proof fn lemma_floor_sqrt(x: int, r: int)
    requires
        0 <= r,
        r * r <= x,
        x < (r + 1) * (r + 1),
    ensures
        floor_sqrt(x) == r,
{
    let s = floor_sqrt(x);
    assert(0 <= s && s * s <= x && x < (s + 1) * (s + 1));
    if s < r {
        assert((s + 1) * (s + 1) <= r * r) by (nonlinear_arith)
            requires 0 <= s, s + 1 <= r;
    }
    if s > r {
        assert((r + 1) * (r + 1) <= s * s) by (nonlinear_arith)
            requires 0 <= r, r + 1 <= s;
    }
}

fn floor_sqrt_exec(x: usize) -> (r: usize)
    requires
        x <= 10000,
    ensures
        r * r <= x < (r + 1) * (r + 1),
        r == floor_sqrt(x as int),
        r <= 100,
{
    let mut r: usize = 0;
    loop
        invariant
            r * r <= x,
            x <= 10000,
            r <= 100,
        ensures
            r * r <= x < (r + 1) * (r + 1),
            r <= 100,
        decreases x - r,
    {
        assert((r + 1) * (r + 1) <= 101 * 101) by (nonlinear_arith)
            requires r <= 100, r >= 0;
        if (r + 1) * (r + 1) > x {
            break;
        }
        assert(r + 1 <= 100) by (nonlinear_arith)
            requires (r + 1) * (r + 1) <= x, x <= 10000, r >= 0;
        assert(r + 1 <= x) by (nonlinear_arith)
            requires (r + 1) * (r + 1) <= x, r >= 0;
        r = r + 1;
    }
    proof {
        lemma_floor_sqrt(x as int, r as int);
    }
    r
}

/// `r = floor(sqrt(2k + sqrt(2k)))`: the number of bases that the `k`-th gap draws on.
pub open spec fn base_count(k: int) -> int {
    floor_sqrt(2 * k + floor_sqrt(2 * k))
}

/// The index left out of the `k`-th product, `r(r + 1)/2 - k`; where that is
/// negative, none.
pub open spec fn excluded_index(k: int) -> int {
    let r = base_count(k);
    if k <= r * (r + 1) / 2 {
        r * (r + 1) / 2 - k
    } else {
        r
    }
}

/// `ceil((5/2)^(q+1))`, where the search for the `q`-th base starts; at most `usize::MAX`.
pub open spec fn base_start(q: int) -> int {
    let m = (q + 1) as nat;
    let s = (power(5, m) + power(2, m) - 1) / power(2, m);
    if s > usize::MAX {
        usize::MAX as int
    } else {
        s
    }
}

/// `x` shares no factor with any entry of `prev`.
pub open spec fn coprime_to_all(x: int, prev: Seq<usize>) -> bool {
    forall|i: int| 0 <= i < prev.len() ==> gcd_spec(x as nat, prev[i] as nat) == 1
}

/// The least number from `x` on that is coprime to every entry of `prev`; the
/// search stops at `usize::MAX`.
pub open spec fn base_search(x: int, prev: Seq<usize>) -> int
    decreases usize::MAX - x,
{
    if x >= usize::MAX {
        usize::MAX as int
    } else if coprime_to_all(x, prev) {
        x
    } else {
        base_search(x + 1, prev)
    }
}

/// The first `m` bases: each is the least number from `ceil((5/2)^(q+1))` on
/// that is coprime to all bases before it.
pub open spec fn bases(m: nat) -> Seq<usize>
    decreases m,
{
    if m == 0 {
        Seq::empty()
    } else {
        let prev = bases((m - 1) as nat);
        prev.push(base_search(base_start(m - 1), prev) as usize)
    }
}

/// The product of `s[0..r]` without the entry at `e`.
pub open spec fn product_except(s: Seq<usize>, r: int, e: int) -> int
    decreases r,
{
    if r <= 0 {
        1
    } else {
        product_except(s, r - 1, e) * (if r - 1 == e { 1 } else { s[r - 1] as int })
    }
}

pub open spec fn saturate(x: int) -> int {
    if x > usize::MAX {
        usize::MAX as int
    } else {
        x
    }
}

/// The `k`-th gap: the product of the first `r` bases but the excluded one
/// (at most `usize::MAX`).
pub open spec fn incerpi_sedgewick_term(k: int) -> int {
    let r = base_count(k);
    saturate(product_except(bases(r as nat), r, excluded_index(k)))
}

/// The gaps from the `k`-th on that are below `n`.
pub open spec fn incerpi_sedgewick_from(k: int, n: int) -> Seq<usize>
    decreases LAST_INDEX + 1 - k,
{
    if k > LAST_INDEX || k < 1 || incerpi_sedgewick_term(k) >= n {
        Seq::empty()
    } else {
        seq![incerpi_sedgewick_term(k) as usize] + incerpi_sedgewick_from(k + 1, n)
    }
}

proof fn lemma_power_monotone(b: int, i: nat, j: nat)
    requires
        b >= 1,
        i <= j,
    ensures
        1 <= power(b, i) <= power(b, j),
    decreases j,
{
    if i < j {
        lemma_power_monotone(b, i, (j - 1) as nat);
        assert(power(b, j) == b * power(b, (j - 1) as nat));
        assert(power(b, (j - 1) as nat) <= b * power(b, (j - 1) as nat)) by (nonlinear_arith)
            requires b >= 1, power(b, (j - 1) as nat) >= 1;
    } else {
        lemma_power_at_least_one(b, j);
    }
}

proof fn lemma_power_at_least_one(b: int, j: nat)
    requires
        b >= 1,
    ensures
        power(b, j) >= 1,
    decreases j,
{
    if j > 0 {
        lemma_power_at_least_one(b, (j - 1) as nat);
        assert(b * power(b, (j - 1) as nat) >= 1) by (nonlinear_arith)
            requires b >= 1, power(b, (j - 1) as nat) >= 1;
    }
}

proof fn lemma_power_five_fifty()
    ensures
        power(5, 50) == 88817841970012523233890533447265625,
        power(2, 50) == 1125899906842624,
{
    reveal_with_fuel(power, 51);
    assert(power(5, 50) == 88817841970012523233890533447265625);
    lemma_power_two_fifty();
}

proof fn lemma_power_two_fifty()
    ensures
        power(2, 50) == 1125899906842624,
{
    reveal_with_fuel(power, 51);
    assert(power(2, 50) == 1125899906842624);
}

/// `ceil((5/2)^(q+1))`, at most `usize::MAX`.
fn base_start_exec(q: usize) -> (r: usize)
    requires
        q < 50,
    ensures
        r == base_start(q as int),
{
    let m = q + 1;
    let mut five: u128 = 1;
    let mut two: u128 = 1;
    let mut i: usize = 0;
    proof {
        lemma_power_five_fifty();
    }
    while i < m
        invariant
            i <= m <= 50,
            five == power(5, i as nat),
            two == power(2, i as nat),
            power(5, 50) == 88817841970012523233890533447265625,
            power(2, 50) == 1125899906842624,
        decreases m - i,
    {
        proof {
            lemma_power_monotone(5, (i + 1) as nat, 50);
            lemma_power_monotone(2, (i + 1) as nat, 50);
            assert(power(5, (i + 1) as nat) == 5 * power(5, i as nat));
            assert(power(2, (i + 1) as nat) == 2 * power(2, i as nat));
        }
        five = five * 5;
        two = two * 2;
        i = i + 1;
    }
    proof {
        lemma_power_monotone(2, 0, m as nat);
        lemma_power_monotone(5, m as nat, 50);
        lemma_power_monotone(2, m as nat, 50);
    }
    let s = (five + two - 1) / two;
    if s > usize::MAX as u128 {
        usize::MAX
    } else {
        s as usize
    }
}

/// Whether `x` is coprime to every entry of `prev`, by its gcd with each.
fn coprime_to_all_exec(x: usize, prev: &Vec<usize>) -> (r: bool)
    ensures
        r == coprime_to_all(x as int, prev@),
{
    let mut i: usize = 0;
    while i < prev.len()
        invariant
            i <= prev@.len(),
            forall|j: int| 0 <= j < i ==> gcd_spec(x as nat, prev@[j] as nat) == 1,
        decreases prev@.len() - i,
    {
        if gcd(x, prev[i]) != 1 {
            return false;
        }
        i = i + 1;
    }
    true
}

/// The next base after `prev`.
fn next_base(prev: &Vec<usize>) -> (r: usize)
    requires
        prev@.len() < 50,
    ensures
        r == base_search(base_start(prev@.len() as int), prev@),
{
    let mut x = base_start_exec(prev.len());
    let ghost target = base_search(base_start(prev@.len() as int), prev@);
    while x < usize::MAX && !coprime_to_all_exec(x, prev)
        invariant
            base_search(x as int, prev@) == target,
        decreases usize::MAX - x,
    {
        x = x + 1;
    }
    x
}

proof fn lemma_saturate_product(p: int, x: int)
    requires
        p >= 0,
        x >= 1,
    ensures
        saturate(saturate(p) * x) == saturate(p * x),
{
    if p > usize::MAX {
        assert(p * x >= p) by (nonlinear_arith)
            requires p >= 0, x >= 1;
        assert(usize::MAX * x >= usize::MAX) by (nonlinear_arith)
            requires x >= 1;
    }
}

proof fn lemma_product_nonneg(s: Seq<usize>, r: int, e: int)
    ensures
        product_except(s, r, e) >= 0,
    decreases r,
{
    if r > 0 {
        lemma_product_nonneg(s, r - 1, e);
        let f = if r - 1 == e { 1 } else { s[r - 1] as int };
        assert(product_except(s, r - 1, e) * f >= 0) by (nonlinear_arith)
            requires product_except(s, r - 1, e) >= 0, f >= 0;
    }
}

/// The product of `s[0..r]` without the entry at `e`, at most `usize::MAX`.
fn product_except_exec(s: &Vec<usize>, r: usize, e: usize) -> (p: usize)
    requires
        r <= s@.len(),
        forall|i: int| 0 <= i < s@.len() ==> s@[i] >= 1,
    ensures
        p == saturate(product_except(s@, r as int, e as int)),
{
    let mut p: usize = 1;
    let mut i: usize = 0;
    while i < r
        invariant
            i <= r <= s@.len(),
            forall|j: int| 0 <= j < s@.len() ==> s@[j] >= 1,
            p == saturate(product_except(s@, i as int, e as int)),
        decreases r - i,
    {
        proof {
            lemma_product_nonneg(s@, i as int, e as int);
        }
        if i != e {
            proof {
                lemma_saturate_product(product_except(s@, i as int, e as int), s@[i as int] as int);
            }
            p = match p.checked_mul(s[i]) {
                Some(v) => v,
                None => usize::MAX,
            };
        } else {
            assert(product_except(s@, i + 1, e as int) == product_except(s@, i as int, e as int));
        }
        i = i + 1;
    }
    p
}

/// Incerpi and Sedgewick's gaps `1, 3, 7, 21, 48, 112, 336, ...` below
/// `array_len`: the `k`-th multiplies the first `r = floor(sqrt(2k + sqrt(2k)))`
/// bases but the one at `r(r + 1)/2 - k`.
pub fn incerpi_sedgewick_1985(array_len: usize) -> (r: Vec<usize>)
    ensures
        r@ == incerpi_sedgewick_from(1, array_len as int),
        forall|i: int| 0 <= i < r@.len() ==> 1 <= #[trigger] r@[i] && r@[i] < array_len,
{
    let mut gaps: Vec<usize> = Vec::new();
    let mut found: Vec<usize> = Vec::new();
    let mut k: usize = 1;
    while k <= LAST_INDEX
        invariant_except_break
            1 <= k <= LAST_INDEX + 1,
            found@.len() <= 50,
            found@ == bases(found@.len()),
            forall|i: int| 0 <= i < found@.len() ==> found@[i] >= 1,
            gaps@ + incerpi_sedgewick_from(k as int, array_len as int) == incerpi_sedgewick_from(
                1,
                array_len as int,
            ),
            forall|i: int| 0 <= i < gaps@.len() ==> 1 <= #[trigger] gaps@[i] && gaps@[i] < array_len,
        ensures
            gaps@ == incerpi_sedgewick_from(1, array_len as int),
            forall|i: int| 0 <= i < gaps@.len() ==> 1 <= #[trigger] gaps@[i] && gaps@[i] < array_len,
        decreases LAST_INDEX + 1 - k,
    {
        let s = floor_sqrt_exec(2 * k);
        proof {
            assert(s <= 50) by (nonlinear_arith)
                requires s * s <= 2 * k, k <= 1275, s >= 0;
        }
        let r = floor_sqrt_exec(2 * k + s);
        proof {
            assert(r <= 50) by (nonlinear_arith)
                requires r * r <= 2 * k + s, k <= 1275, s <= 50, r >= 0;
        }
        while found.len() < r
            invariant
                r <= 50,
                found@.len() <= 50,
                found@ == bases(found@.len()),
                forall|i: int| 0 <= i < found@.len() ==> found@[i] >= 1,
            decreases r - found@.len(),
        {
            let b = next_base(&found);
            proof {
                lemma_base_positive(found@.len() as int, found@);
            }
            found.push(b);
        }
        assert(r * (r + 1) <= 2550) by (nonlinear_arith)
            requires r <= 50, r >= 0;
        let t = r * (r + 1) / 2;
        let e = if k <= t {
            t - k
        } else {
            r
        };
        assert(found@.subrange(0, r as int) == bases(r as nat)) by {
            lemma_bases_prefix(found@.len(), r as nat);
            assert(found@.subrange(0, r as int) =~= bases(found@.len()).subrange(0, r as int));
        }
        let gap = product_except_exec(&found, r, e);
        proof {
            lemma_product_prefix(found@, r as int, e as int);
            lemma_product_positive(found@, r as int, e as int);
        }
        if gap >= array_len {
            assert(incerpi_sedgewick_from(k as int, array_len as int) =~= Seq::<usize>::empty());
            assert(gaps@ =~= gaps@ + incerpi_sedgewick_from(k as int, array_len as int));
            break;
        }
        let ghost before = gaps@;
        gaps.push(gap);
        assert(before + incerpi_sedgewick_from(k as int, array_len as int) =~= gaps@
            + incerpi_sedgewick_from(k + 1, array_len as int));
        k = k + 1;
    }
    proof {
        if k > LAST_INDEX {
            assert(incerpi_sedgewick_from(k as int, array_len as int) =~= Seq::<usize>::empty());
            assert(gaps@ =~= gaps@ + incerpi_sedgewick_from(k as int, array_len as int));
        }
    }
    gaps
}

proof fn lemma_base_positive(m: int, prev: Seq<usize>)
    ensures
        base_search(base_start(m), prev) >= 1,
{
    lemma_start_positive(m);
    lemma_search_at_least(base_start(m), prev);
}

proof fn lemma_start_positive(q: int)
    ensures
        base_start(q) >= 1,
{
    let m = (q + 1) as nat;
    lemma_power_monotone(2, 0, m);
    lemma_power_monotone(5, 0, m);
    assert(power(5, m) + power(2, m) - 1 >= power(2, m));
    vstd::arithmetic::div_mod::lemma_div_is_ordered(
        power(2, m),
        power(5, m) + power(2, m) - 1,
        power(2, m),
    );
    vstd::arithmetic::div_mod::lemma_div_by_self(power(2, m));
}

proof fn lemma_search_at_least(x: int, prev: Seq<usize>)
    ensures
        base_search(x, prev) >= x || base_search(x, prev) == usize::MAX,
    decreases usize::MAX - x,
{
    if x < usize::MAX && !coprime_to_all(x, prev) {
        lemma_search_at_least(x + 1, prev);
    }
}

proof fn lemma_bases_prefix(m: nat, r: nat)
    requires
        r <= m,
    ensures
        bases(m).len() == m,
        bases(m).subrange(0, r as int) =~= bases(r),
    decreases m,
{
    if m > 0 {
        lemma_bases_prefix((m - 1) as nat, if r < m { r } else { (m - 1) as nat });
        if r < m {
            assert(bases(m).subrange(0, r as int) =~= bases((m - 1) as nat).subrange(0, r as int));
        }
    }
}

proof fn lemma_product_prefix(s: Seq<usize>, r: int, e: int)
    requires
        0 <= r <= s.len(),
    ensures
        product_except(s, r, e) == product_except(s.subrange(0, r), r, e),
{
    lemma_product_prefix_upto(s, s.subrange(0, r), r, e);
}

proof fn lemma_product_prefix_upto(s: Seq<usize>, t: Seq<usize>, i: int, e: int)
    requires
        0 <= i <= t.len(),
        t.len() <= s.len(),
        forall|j: int| 0 <= j < t.len() ==> s[j] == t[j],
    ensures
        product_except(s, i, e) == product_except(t, i, e),
    decreases i,
{
    if i > 0 {
        lemma_product_prefix_upto(s, t, i - 1, e);
    }
}

proof fn lemma_product_positive(s: Seq<usize>, r: int, e: int)
    requires
        0 <= r <= s.len(),
        forall|j: int| 0 <= j < s.len() ==> s[j] >= 1,
    ensures
        product_except(s, r, e) >= 1,
    decreases r,
{
    if r > 0 {
        lemma_product_positive(s, r - 1, e);
        let f = if r - 1 == e { 1 } else { s[r - 1] as int };
        assert(product_except(s, r - 1, e) * f >= 1) by (nonlinear_arith)
            requires product_except(s, r - 1, e) >= 1, f >= 1;
    }
}

} // verus!
