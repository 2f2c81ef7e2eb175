//! A sieve for the n-smooth numbers: those whose prime factors are all at most n.

use vstd::prelude::*;

verus! {

/// `p` is a prime number.
pub open spec fn is_prime(p: int) -> bool {
    &&& p >= 2
    &&& forall|d: int| 2 <= d < p ==> #[trigger] (p % d) != 0
}

/// `x` is a positive integer whose prime factors are all at most `n`.
pub open spec fn is_smooth(x: int, n: int) -> bool {
    &&& x >= 1
    &&& forall|p: int| is_prime(p) && #[trigger] (x % p) == 0 ==> p <= n
}

/// The n-smooth numbers in `[1, max]`, in ascending order.
pub open spec fn smooth_upto(n: int, max: int) -> Seq<usize>
    decreases max,
{
    if max <= 0 {
        Seq::empty()
    } else if is_smooth(max, n) {
        smooth_upto(n, max - 1).push(max as usize)
    } else {
        smooth_upto(n, max - 1)
    }
}

const COMPOSITE_MASK: u8 = 1;

const NONSMOOTH_MASK: u8 = 2;

const COMPOSITE_NONSMOOTH_MASK: u8 = 3;

/// Where the two bits of candidate `x` sit in its byte.
spec fn shift_of(x: int) -> u8 {
    ((x % 4) * 2) as u8
}

/// The two bits of candidate `x`: four candidates share a byte.
spec fn cell(v: Seq<u8>, x: int) -> u8 {
    (v[x / 4] >> shift_of(x)) & 3
}

spec fn composite_at(v: Seq<u8>, x: int) -> bool {
    cell(v, x) & 1 != 0
}

spec fn nonsmooth_at(v: Seq<u8>, x: int) -> bool {
    cell(v, x) & 2 != 0
}

/// Some prime below `bound` has marked `x` composite: a prime `p <= n` marks
/// its multiples from `p * p` on, a larger prime its multiples from `2 * p` on.
spec fn marked_composite(x: int, bound: int, n: int) -> bool {
    exists|p: int|
        is_prime(p) && p < bound && #[trigger] (x % p) == 0 && x >= 2 * p && (p > n || x >= p * p)
}

/// Some prime in `(n, bound)` divides `x`.
spec fn marked_nonsmooth(x: int, bound: int, n: int) -> bool {
    exists|p: int| is_prime(p) && n < p && p < bound && #[trigger] (x % p) == 0
}

proof fn lemma_or_bits(b: u8, m: u8, s: u8, t: u8)
    requires
        m < 4,
        s == 0 || s == 2 || s == 4 || s == 6,
        t == 0 || t == 2 || t == 4 || t == 6,
    ensures
        s != t ==> ((b | (m << s)) >> t) & 3 == (b >> t) & 3,
        ((((b | (m << s)) >> s) & 3) & 1 != 0) == ((((b >> s) & 3) & 1 != 0) || (m & 1 != 0)),
        ((((b | (m << s)) >> s) & 3) & 2 != 0) == ((((b >> s) & 3) & 2 != 0) || (m & 2 != 0)),
        (m & 1 != 0) == (m == 1 || m == 3),
        (m & 2 != 0) == (m == 2 || m == 3),
{
    assert((m & 1 != 0) == (m == 1 || m == 3)) by (bit_vector)
        requires m < 4;
    assert((m & 2 != 0) == (m == 2 || m == 3)) by (bit_vector)
        requires m < 4;
    assert(s != t ==> ((b | (m << s)) >> t) & 3 == (b >> t) & 3) by (bit_vector)
        requires
            m < 4,
            s == 0 || s == 2 || s == 4 || s == 6,
            t == 0 || t == 2 || t == 4 || t == 6,
    ;
    assert(((((b | (m << s)) >> s) & 3) & 1 != 0) == ((((b >> s) & 3) & 1 != 0) || (m & 1 != 0)))
        by (bit_vector)
        requires
            m < 4,
            s == 0 || s == 2 || s == 4 || s == 6,
    ;
    assert(((((b | (m << s)) >> s) & 3) & 2 != 0) == ((((b >> s) & 3) & 2 != 0) || (m & 2 != 0)))
        by (bit_vector)
        requires
            m < 4,
            s == 0 || s == 2 || s == 4 || s == 6,
    ;
}

/// Sets the bits of `mask` among those of candidate `j`.
fn mark(v: &mut Vec<u8>, j: usize, mask: u8)
    requires
        j / 4 < old(v)@.len(),
        mask == COMPOSITE_MASK || mask == NONSMOOTH_MASK || mask == COMPOSITE_NONSMOOTH_MASK,
    ensures
        final(v)@.len() == old(v)@.len(),
        forall|x: int|
            0 <= x && x / 4 < old(v)@.len() && x != j ==> #[trigger] cell(final(v)@, x) == cell(
                old(v)@,
                x,
            ),
        forall|x: int|
            0 <= x && x / 4 < old(v)@.len() && x != j ==> #[trigger] composite_at(final(v)@, x)
                == composite_at(old(v)@, x),
        forall|x: int|
            0 <= x && x / 4 < old(v)@.len() && x != j ==> #[trigger] nonsmooth_at(final(v)@, x)
                == nonsmooth_at(old(v)@, x),
        composite_at(final(v)@, j as int) == (composite_at(old(v)@, j as int) || mask
            != NONSMOOTH_MASK),
        nonsmooth_at(final(v)@, j as int) == (nonsmooth_at(old(v)@, j as int) || mask
            != COMPOSITE_MASK),
{
    let s: u8 = ((j % 4) * 2) as u8;
    let b = v[j / 4];
    proof {
        assert forall|x: int| 0 <= x && x / 4 < old(v)@.len() && x != j implies #[trigger] cell(
            old(v)@.update((j / 4) as int, b | (mask << s)),
            x,
        ) == cell(old(v)@, x) by {
            if x / 4 == j / 4 {
                assert(shift_of(x) != s);
                lemma_or_bits(b, mask, s, shift_of(x));
            }
        }
        lemma_or_bits(b, mask, s, s);
    }
    v.set(j / 4, b | (mask << s));
}

/// Whether candidate `x` is marked composite.
fn is_composite(v: &Vec<u8>, x: usize) -> (r: bool)
    requires
        x / 4 < v@.len(),
    ensures
        r == composite_at(v@, x as int),
{
    let s: u8 = ((x % 4) * 2) as u8;
    (v[x / 4] >> s) & 3 & 1 != 0
}

/// Whether candidate `x` is marked as having a prime factor above `n`.
fn is_nonsmooth(v: &Vec<u8>, x: usize) -> (r: bool)
    requires
        x / 4 < v@.len(),
    ensures
        r == nonsmooth_at(v@, x as int),
{
    let s: u8 = ((x % 4) * 2) as u8;
    (v[x / 4] >> s) & 3 & 2 != 0
}

proof fn lemma_zero_cells(v: Seq<u8>)
    requires
        forall|k: int| 0 <= k < v.len() ==> v[k] == 0,
    ensures
        forall|x: int|
            0 <= x && x / 4 < v.len() ==> !composite_at(v, x) && !nonsmooth_at(v, x),
{
    assert forall|x: int| 0 <= x && x / 4 < v.len() implies !composite_at(v, x) && !nonsmooth_at(
        v,
        x,
    ) by {
        let z: u8 = v[x / 4];
        let t = shift_of(x);
        assert(((z >> t) & 3) & 1 == 0 && ((z >> t) & 3) & 2 == 0) by (bit_vector)
            requires z == 0;
    }
}

/// The least divisor of `x` that is at least `d`.
spec fn least_divisor_from(x: int, d: int) -> int
    decreases x - d,
{
    if d >= x {
        x
    } else if x % d == 0 {
        d
    } else {
        least_divisor_from(x, d + 1)
    }
}

proof fn lemma_least_divisor(x: int, d: int)
    requires
        2 <= d <= x,
        forall|e: int| 2 <= e < d ==> #[trigger] (x % e) != 0,
    ensures
        d <= least_divisor_from(x, d) <= x,
        x % least_divisor_from(x, d) == 0,
        forall|e: int| 2 <= e < least_divisor_from(x, d) ==> #[trigger] (x % e) != 0,
    decreases x - d,
{
    if d >= x {
        assert(x % x == 0) by (nonlinear_arith)
            requires x >= 2;
    } else if x % d != 0 {
        lemma_least_divisor(x, d + 1);
    }
}

/// A number that is not prime has a prime factor whose square is at most it.
proof fn lemma_small_prime_factor(x: int)
    requires
        x >= 2,
        !is_prime(x),
    ensures
        exists|p: int| is_prime(p) && #[trigger] (x % p) == 0 && p * p <= x && p < x,
{
    lemma_least_divisor(x, 2);
    let p = least_divisor_from(x, 2);
    let e = choose|e: int| 2 <= e < x && #[trigger] (x % e) == 0;
    assert(p <= e);
    assert(p < x);
    assert forall|d: int| 2 <= d < p implies #[trigger] (p % d) != 0 by {
        if p % d == 0 {
            lemma_mod_transitive(x, p, d);
        }
    }
    assert(is_prime(p));
    let q = x / p;
    lemma_exact_div(x, p);
    assert(q >= 2) by (nonlinear_arith)
        requires x == p * q, p < x, p >= 2;
    assert(x % q == 0) by (nonlinear_arith)
        requires x == p * q, q >= 2;
    assert(p <= q) by {
        if q < p {
            assert(x % q != 0);
        }
    }
    assert(p * p <= x) by (nonlinear_arith)
        requires x == p * q, p <= q, p >= 0;
}

proof fn lemma_exact_div(x: int, p: int)
    requires
        p > 0,
        x % p == 0,
    ensures
        x == p * (x / p),
{
    vstd::arithmetic::div_mod::lemma_fundamental_div_mod(x, p);
}

proof fn lemma_mod_transitive(x: int, p: int, d: int)
    requires
        x % p == 0,
        p % d == 0,
        p >= 2,
        d >= 2,
    ensures
        x % d == 0,
{
    let a = x / p;
    let b = p / d;
    lemma_exact_div(x, p);
    lemma_exact_div(p, d);
    assert(x == d * (b * a)) by (nonlinear_arith)
        requires x == p * a, p == d * b;
    vstd::arithmetic::div_mod::lemma_mod_multiples_basic(b * a, d);
    assert((b * a) * d == d * (b * a)) by (nonlinear_arith);
}

/// A number that some prime below it divides is not prime.
proof fn lemma_not_prime(x: int, p: int)
    requires
        is_prime(p),
        x % p == 0,
        x >= 2 * p,
    ensures
        !is_prime(x),
{
    assert(2 <= p < x);
}

/// Lists the `n`-smooth numbers in `[1, max]` in ascending order, with a sieve
/// that keeps two bits per candidate, four candidates to a byte: one marks it
/// composite, the other marks that it has a prime factor greater than `n`.
pub fn list_n_smooth(n: usize, max: usize) -> (r: Vec<usize>)
    requires
        max < usize::MAX,
    ensures
        r@ == smooth_upto(n as int, max as int),
{
    let mut sieve: Vec<u8> = vec![0; max / 4 + 1];
    proof {
        lemma_zero_cells(sieve@);
    }
    let mut i: usize = 2;
    while i <= max
        invariant
            2 <= i <= max + 2,
            max < usize::MAX,
            sieve@.len() == max / 4 + 1,
            forall|x: int|
                1 <= x <= max ==> (#[trigger] composite_at(sieve@, x) <==> marked_composite(
                    x,
                    i as int,
                    n as int,
                )),
            forall|x: int|
                1 <= x <= max ==> (#[trigger] nonsmooth_at(sieve@, x) <==> marked_nonsmooth(
                    x,
                    i as int,
                    n as int,
                )),
        decreases max + 1 - i,
    {
        if !is_composite(&sieve, i) {
            assert(is_prime(i as int)) by {
                if !is_prime(i as int) {
                    lemma_small_prime_factor(i as int);
                    let p = choose|p: int|
                        is_prime(p) && #[trigger] ((i as int) % p) == 0 && p * p <= i && p < i;
                    assert(2 * p <= p * p) by (nonlinear_arith)
                        requires p >= 2;
                    assert(marked_composite(i as int, i as int, n as int));
                }
            }
            if i <= n {
                mark_from_square(&mut sieve, i, n, max);
            } else {
                mark_nonsmooth_multiples(&mut sieve, i, n, max);
            }
        } else {
            assert forall|x: int| 1 <= x <= max implies (#[trigger] composite_at(sieve@, x)
                <==> marked_composite(x, i + 1, n as int)) && (nonsmooth_at(sieve@, x)
                <==> marked_nonsmooth(x, i + 1, n as int)) by {
                let p = choose|p: int|
                    is_prime(p) && p < i && #[trigger] ((i as int) % p) == 0 && i >= 2 * p && (p
                        > n || i >= p * p);
                lemma_not_prime(i as int, p);
                if marked_composite(x, i + 1, n as int) {
                    let q = choose|q: int|
                        is_prime(q) && q < i + 1 && #[trigger] (x % q) == 0 && x >= 2 * q && (q > n
                            || x >= q * q);
                    assert(q != i);
                    assert(marked_composite(x, i as int, n as int));
                }
                if marked_nonsmooth(x, i + 1, n as int) {
                    let q = choose|q: int|
                        is_prime(q) && n < q && q < i + 1 && #[trigger] (x % q) == 0;
                    assert(q != i);
                    assert(marked_nonsmooth(x, i as int, n as int));
                }
            }
        }
        i = i + 1;
    }
    let ghost bound = i as int;
    let mut smooths: Vec<usize> = Vec::new();
    let mut i: usize = 1;
    while i <= max
        invariant
            1 <= i <= max + 1,
            max < usize::MAX,
            sieve@.len() == max / 4 + 1,
            forall|x: int|
                1 <= x <= max ==> (#[trigger] nonsmooth_at(sieve@, x) <==> marked_nonsmooth(
                    x,
                    bound,
                    n as int,
                )),
            bound > max,
            smooths@ == smooth_upto(n as int, i - 1),
        decreases max + 1 - i,
    {
        assert(nonsmooth_at(sieve@, i as int) <==> !is_smooth(i as int, n as int)) by {
            if !is_smooth(i as int, n as int) {
                let p = choose|p: int| is_prime(p) && #[trigger] ((i as int) % p) == 0 && p > n;
                assert(p <= i) by {
                    if p > i {
                        vstd::arithmetic::div_mod::lemma_small_mod(i as nat, p as nat);
                    }
                }
                assert(marked_nonsmooth(i as int, bound, n as int));
            }
        }
        if !is_nonsmooth(&sieve, i) {
            smooths.push(i);
        }
        i = i + 1;
    }
    smooths
}

/// Marks composite every multiple of the prime `p <= n` from `p * p` up to `max`.
fn mark_from_square(sieve: &mut Vec<u8>, p: usize, n: usize, max: usize)
    requires
        2 <= p <= max,
        p <= n,
        max < usize::MAX,
        is_prime(p as int),
        old(sieve)@.len() == max / 4 + 1,
        forall|x: int|
            1 <= x <= max ==> (#[trigger] composite_at(old(sieve)@, x) <==> marked_composite(
                x,
                p as int,
                n as int,
            )),
        forall|x: int|
            1 <= x <= max ==> (#[trigger] nonsmooth_at(old(sieve)@, x) <==> marked_nonsmooth(
                x,
                p as int,
                n as int,
            )),
    ensures
        final(sieve)@.len() == max / 4 + 1,
        forall|x: int|
            1 <= x <= max ==> (#[trigger] composite_at(final(sieve)@, x) <==> marked_composite(
                x,
                p + 1,
                n as int,
            )),
        forall|x: int|
            1 <= x <= max ==> (#[trigger] nonsmooth_at(final(sieve)@, x) <==> marked_nonsmooth(
                x,
                p + 1,
                n as int,
            )),
{
    let ghost old_sieve = sieve@;
    if p <= max / p {
        proof {
            lemma_square_below(p as int, max as int);
            vstd::arithmetic::div_mod::lemma_mod_multiples_basic(p as int, p as int);
        }
        let mut j: usize = p * p;
        mark(sieve, j, COMPOSITE_MASK);
        while j <= max - p
            invariant
                2 <= p <= max,
                max < usize::MAX,
                p * p <= j <= max,
                j % p == 0,
                sieve@.len() == max / 4 + 1,
                old_sieve.len() == max / 4 + 1,
                forall|x: int|
                    1 <= x <= max ==> (#[trigger] composite_at(sieve@, x) <==> (composite_at(old_sieve, x) || (x % p as int == 0 && p * p <= x <= j))),
                forall|x: int|
                    1 <= x <= max ==> (#[trigger] nonsmooth_at(sieve@, x) == nonsmooth_at(old_sieve, x)),
            decreases max - j,
        {
            proof {
                vstd::arithmetic::div_mod::lemma_mod_adds(j as int, p as int, p as int);
                vstd::arithmetic::div_mod::lemma_mod_self_0(p as int);
                assert forall|x: int|
                    1 <= x <= max && #[trigger] (x % p as int) == 0 && j < x < j + p implies false by {
                    lemma_next_multiple(x, j as int, p as int);
                }
            }
            j = j + p;
            mark(sieve, j, COMPOSITE_MASK);
        }
        assert forall|x: int|
            1 <= x <= max && #[trigger] (x % p as int) == 0 && j < x implies false by {
            lemma_next_multiple(x, j as int, p as int);
        }
    }
    assert forall|x: int| 1 <= x <= max implies (#[trigger] composite_at(sieve@, x)
        <==> marked_composite(x, p + 1, n as int)) by {
        if marked_composite(x, p + 1, n as int) && !marked_composite(x, p as int, n as int) {
            let q = choose|q: int|
                is_prime(q) && q < p + 1 && #[trigger] (x % q) == 0 && x >= 2 * q && (q > n || x
                    >= q * q);
            assert(q == p);
            if p > max / p {
                lemma_square_above(p as int, max as int);
            }
        }
        if x % p as int == 0 && p * p <= x {
            assert(2 * p <= p * p) by (nonlinear_arith)
                requires p >= 2;
            assert(marked_composite(x, p + 1, n as int));
        }
        if marked_composite(x, p as int, n as int) {
            let q = choose|q: int|
                is_prime(q) && q < p && #[trigger] (x % q) == 0 && x >= 2 * q && (q > n || x >= q
                    * q);
            assert(marked_composite(x, p + 1, n as int));
        }
    }
    assert forall|x: int| 1 <= x <= max implies (#[trigger] nonsmooth_at(sieve@, x)
        <==> marked_nonsmooth(x, p + 1, n as int)) by {
        if marked_nonsmooth(x, p + 1, n as int) {
            let q = choose|q: int| is_prime(q) && n < q && q < p + 1 && #[trigger] (x % q) == 0;
            assert(marked_nonsmooth(x, p as int, n as int));
        }
        if marked_nonsmooth(x, p as int, n as int) {
            let q = choose|q: int| is_prime(q) && n < q && q < p && #[trigger] (x % q) == 0;
            assert(marked_nonsmooth(x, p + 1, n as int));
        }
    }
}

proof fn lemma_square_below(p: int, max: int)
    requires
        p >= 1,
        max >= 0,
        p <= max / p,
    ensures
        p * p <= max,
{
    vstd::arithmetic::div_mod::lemma_fundamental_div_mod(max, p);
    vstd::arithmetic::mul::lemma_mul_inequality(p, max / p, p);
    vstd::arithmetic::div_mod::lemma_mod_pos_bound(max, p);
    assert(p * (max / p) == (max / p) * p) by (nonlinear_arith);
}

proof fn lemma_square_above(p: int, max: int)
    requires
        p >= 1,
        max >= 0,
        p > max / p,
    ensures
        p * p > max,
{
    vstd::arithmetic::div_mod::lemma_fundamental_div_mod(max, p);
    vstd::arithmetic::div_mod::lemma_mod_pos_bound(max, p);
    vstd::arithmetic::mul::lemma_mul_inequality(max / p + 1, p, p);
    assert(p * (max / p) + p == (max / p + 1) * p) by (nonlinear_arith);
}

/// Between two consecutive multiples of `p` lies no other.
proof fn lemma_next_multiple(x: int, j: int, p: int)
    requires
        p >= 1,
        j % p == 0,
        x % p == 0,
        j < x,
    ensures
        x >= j + p,
{
    let a = j / p;
    let b = x / p;
    lemma_exact_div(j, p);
    lemma_exact_div(x, p);
    assert(a < b) by (nonlinear_arith)
        requires j == p * a, x == p * b, j < x, p >= 1;
    assert(x >= j + p) by (nonlinear_arith)
        requires j == p * a, x == p * b, a + 1 <= b, p >= 1;
}

/// Marks the prime `p > n` non-smooth, and each of its multiples up to `max`
/// both composite and non-smooth.
fn mark_nonsmooth_multiples(sieve: &mut Vec<u8>, p: usize, n: usize, max: usize)
    requires
        2 <= p <= max,
        p > n,
        max < usize::MAX,
        is_prime(p as int),
        old(sieve)@.len() == max / 4 + 1,
        forall|x: int|
            1 <= x <= max ==> (#[trigger] composite_at(old(sieve)@, x) <==> marked_composite(
                x,
                p as int,
                n as int,
            )),
        forall|x: int|
            1 <= x <= max ==> (#[trigger] nonsmooth_at(old(sieve)@, x) <==> marked_nonsmooth(
                x,
                p as int,
                n as int,
            )),
    ensures
        final(sieve)@.len() == max / 4 + 1,
        forall|x: int|
            1 <= x <= max ==> (#[trigger] composite_at(final(sieve)@, x) <==> marked_composite(
                x,
                p + 1,
                n as int,
            )),
        forall|x: int|
            1 <= x <= max ==> (#[trigger] nonsmooth_at(final(sieve)@, x) <==> marked_nonsmooth(
                x,
                p + 1,
                n as int,
            )),
{
    let ghost old_sieve = sieve@;
    proof {
        vstd::arithmetic::div_mod::lemma_mod_self_0(p as int);
    }
    mark(sieve, p, NONSMOOTH_MASK);
    let mut j: usize = p;
    while j <= max - p
        invariant
            2 <= p <= max,
            max < usize::MAX,
            p <= j <= max,
            old_sieve.len() == max / 4 + 1,
            j % p == 0,
            sieve@.len() == max / 4 + 1,
            forall|x: int|
                1 <= x <= max ==> (#[trigger] composite_at(sieve@, x) <==> (composite_at(old_sieve, x) || (x % p as int == 0 && 2 * p <= x <= j))),
            forall|x: int|
                1 <= x <= max ==> (#[trigger] nonsmooth_at(sieve@, x) <==> (nonsmooth_at(old_sieve, x) || (x % p as int == 0 && p <= x <= j))),
        decreases max - j,
    {
        proof {
            vstd::arithmetic::div_mod::lemma_mod_adds(j as int, p as int, p as int);
            assert forall|x: int| 1 <= x <= max && #[trigger] (x % p as int) == 0 && j < x < j + p implies false by {
                lemma_next_multiple(x, j as int, p as int);
            }
        }
        j = j + p;
        mark(sieve, j, COMPOSITE_NONSMOOTH_MASK);
    }
    assert forall|x: int| 1 <= x <= max && #[trigger] (x % p as int) == 0 && j < x implies false by {
        lemma_next_multiple(x, j as int, p as int);
    }
    assert forall|x: int| 1 <= x <= max implies (#[trigger] composite_at(sieve@, x)
        <==> marked_composite(x, p + 1, n as int)) by {
        if marked_composite(x, p + 1, n as int) && !marked_composite(x, p as int, n as int) {
            let q = choose|q: int|
                is_prime(q) && q < p + 1 && #[trigger] (x % q) == 0 && x >= 2 * q && (q > n || x
                    >= q * q);
            assert(q == p);
        }
        if x % p as int == 0 && 2 * p <= x {
            assert(marked_composite(x, p + 1, n as int));
        }
        if marked_composite(x, p as int, n as int) {
            let q = choose|q: int|
                is_prime(q) && q < p && #[trigger] (x % q) == 0 && x >= 2 * q && (q > n || x >= q
                    * q);
            assert(marked_composite(x, p + 1, n as int));
        }
    }
    assert forall|x: int| 1 <= x <= max implies (#[trigger] nonsmooth_at(sieve@, x)
        <==> marked_nonsmooth(x, p + 1, n as int)) by {
        if marked_nonsmooth(x, p + 1, n as int) && !marked_nonsmooth(x, p as int, n as int) {
            let q = choose|q: int| is_prime(q) && n < q && q < p + 1 && #[trigger] (x % q) == 0;
            assert(q == p);
            assert(x >= p) by {
                if x < p {
                    vstd::arithmetic::div_mod::lemma_small_mod(x as nat, p as nat);
                }
            }
        }
        if x % p as int == 0 && p <= x {
            assert(marked_nonsmooth(x, p + 1, n as int));
        }
        if marked_nonsmooth(x, p as int, n as int) {
            let q = choose|q: int| is_prime(q) && n < q && q < p && #[trigger] (x % q) == 0;
            assert(marked_nonsmooth(x, p + 1, n as int));
        }
    }
}

} // verus!
