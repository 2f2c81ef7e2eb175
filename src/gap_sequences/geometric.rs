//! Gaps that grow by a rational ratio `r = a / d`: the `k`-th is
//! `ceil((r^k - 1) / (r - 1)) = ceil(1 + r + ... + r^(k-1))`, computed exactly.

use vstd::prelude::*;

use vstd::arithmetic::div_mod::{lemma_fundamental_div_mod, lemma_fundamental_div_mod_converse};

use super::{distance_below, run_from};

verus! {

pub open spec fn power(b: int, e: nat) -> int
    decreases e,
{
    if e == 0 {
        1
    } else {
        b * power(b, (e - 1) as nat)
    }
}

/// `1 + r + ... + r^(k-1)`, with `r = a / d`, times `d^(k-1)`.
pub open spec fn geometric_numerator(a: int, d: int, k: nat) -> int
    decreases k,
{
    if k <= 1 {
        1
    } else {
        a * geometric_numerator(a, d, (k - 1) as nat) + power(d, (k - 1) as nat)
    }
}

/// The `k`-th gap: `ceil(1 + r + ... + r^(k-1))` with `r = a / d`.
pub open spec fn geometric_term(a: int, d: int, k: nat) -> int {
    (geometric_numerator(a, d, k) + power(d, (k - 1) as nat) - 1) / power(d, (k - 1) as nat)
}

/// The gaps from the `k`-th on that are below `n`. (The `k`-th gap is at least
/// `k`, so the bound on `k` stops nothing early.)
pub open spec fn geometric_from(a: int, d: int, k: nat, n: int) -> Seq<usize>
    decreases distance_below(k as int, n),
{
    if k >= n || geometric_term(a, d, k) >= n {
        Seq::empty()
    } else {
        seq![geometric_term(a, d, k) as usize] + geometric_from(a, d, k + 1, n)
    }
}

/// The gaps of ratio `a / d` below `n`, after the first gap 1.
pub open spec fn geometric_gaps(a: int, d: int, n: int) -> Seq<usize> {
    seq![1usize] + geometric_from(a, d, 2, n)
}

/// The value of little-endian digits in base `d`.
pub open spec fn digits_value(s: Seq<u64>, d: int) -> int
    decreases s.len(),
{
    if s.len() == 0 {
        0
    } else {
        digits_value(s.drop_last(), d) + s.last() * power(d, (s.len() - 1) as nat)
    }
}

pub open spec fn digits_below(s: Seq<u64>, d: int) -> bool {
    forall|i: int| 0 <= i < s.len() ==> s[i] < d
}

proof fn lemma_mul_below(x: int, xm: int, y: int, ym: int)
    requires
        0 <= x <= xm,
        0 <= y <= ym,
    ensures
        x * y <= xm * ym,
{
    vstd::arithmetic::mul::lemma_mul_inequality(x, xm, y);
    vstd::arithmetic::mul::lemma_mul_inequality(y, ym, xm);
    assert(xm * y == y * xm) by (nonlinear_arith);
    assert(xm * ym == ym * xm) by (nonlinear_arith);
}

proof fn lemma_power_positive(b: int, e: nat)
    requires
        b >= 1,
    ensures
        power(b, e) >= 1,
    decreases e,
{
    if e > 0 {
        lemma_power_positive(b, (e - 1) as nat);
        assert(b * power(b, (e - 1) as nat) >= 1) by (nonlinear_arith)
            requires b >= 1, power(b, (e - 1) as nat) >= 1;
    }
}

/// Digits below `d` make a value below `d^len`; it is zero exactly when every digit is.
proof fn lemma_digits_bound(s: Seq<u64>, d: int)
    requires
        d >= 2,
        digits_below(s, d),
    ensures
        0 <= digits_value(s, d) < power(d, s.len()),
        digits_value(s, d) == 0 <==> forall|i: int| 0 <= i < s.len() ==> s[i] == 0,
    decreases s.len(),
{
    if s.len() > 0 {
        let t = s.drop_last();
        lemma_digits_bound(t, d);
        let p = power(d, t.len());
        lemma_power_positive(d, t.len());
        let x = s.last() as int;
        let v = digits_value(t, d);
        assert(power(d, s.len()) == d * p);
        assert(v + x * p < d * p) by (nonlinear_arith)
            requires 0 <= v < p, 0 <= x < d;
        assert(0 <= v + x * p) by (nonlinear_arith)
            requires 0 <= v, 0 <= x, p >= 1;
        if v + x * p == 0 {
            assert(x == 0) by (nonlinear_arith)
                requires v + x * p == 0, v >= 0, x >= 0, p >= 1;
            assert forall|i: int| 0 <= i < s.len() implies s[i] == 0 by {
                if i < t.len() {
                    assert(t[i] == s[i]);
                }
            }
        }
        if forall|i: int| 0 <= i < s.len() ==> s[i] == 0 {
            assert forall|i: int| 0 <= i < t.len() implies t[i] == 0 by {
                assert(t[i] == s[i]);
            }
            assert(x == 0);
            assert(v == 0);
            assert(x * p == 0) by (nonlinear_arith)
                requires x == 0;
            assert(digits_value(s, d) == v + x * p);
        }
    }
}

/// `M(k) >= k * d^(k-1)`, so the `k`-th gap is at least `k`; and each gap is
/// above the one before.
proof fn lemma_geometric_growth(a: int, d: int, k: nat)
    requires
        a > d >= 2,
        k >= 1,
    ensures
        geometric_numerator(a, d, k) >= k * power(d, (k - 1) as nat),
        geometric_term(a, d, k) >= k,
        geometric_term(a, d, k + 1) > geometric_term(a, d, k),
    decreases k,
{
    let p = power(d, (k - 1) as nat);
    let m = geometric_numerator(a, d, k);
    lemma_power_positive(d, (k - 1) as nat);
    if k > 1 {
        lemma_geometric_growth(a, d, (k - 1) as nat);
        let p0 = power(d, (k - 2) as nat);
        let m0 = geometric_numerator(a, d, (k - 1) as nat);
        lemma_power_positive(d, (k - 2) as nat);
        assert(p == d * p0);
        assert(m == a * m0 + p);
        assert(m >= k * p) by (nonlinear_arith)
            requires m == a * m0 + p, p == d * p0, m0 >= (k - 1) * p0, a > d, d >= 2, p0 >= 1, k >= 1;
    } else {
        assert(p == 1);
    }
    let c = geometric_term(a, d, k);
    lemma_fundamental_div_mod(m + p - 1, p);
    vstd::arithmetic::div_mod::lemma_mod_pos_bound(m + p - 1, p);
    assert(c >= k) by (nonlinear_arith)
        requires
            m >= k * p,
            p >= 1,
            m + p - 1 == p * c + (m + p - 1) % p,
            0 <= (m + p - 1) % p < p,
    ;
    // the next gap
    let p1 = power(d, k);
    let m1 = geometric_numerator(a, d, k + 1);
    assert(p1 == d * p);
    assert(m1 == a * m + p1);
    assert(m > (c - 1) * p) by (nonlinear_arith)
        requires
            m + p - 1 == p * c + (m + p - 1) % p,
            0 <= (m + p - 1) % p < p,
    ;
    assert(m1 > c * p1) by (nonlinear_arith)
        requires m1 == a * m + p1, p1 == d * p, m > (c - 1) * p, a > d, d >= 2, p >= 1, m >= 0;
    let c1 = geometric_term(a, d, k + 1);
    lemma_power_positive(d, k);
    lemma_fundamental_div_mod(m1 + p1 - 1, p1);
    vstd::arithmetic::div_mod::lemma_mod_pos_bound(m1 + p1 - 1, p1);
    assert(c1 > c) by (nonlinear_arith)
        requires
            m1 > c * p1,
            p1 >= 1,
            m1 + p1 - 1 == p1 * c1 + (m1 + p1 - 1) % p1,
            0 <= (m1 + p1 - 1) % p1 < p1,
    ;
}

proof fn lemma_geometric_from(a: int, d: int, k: nat, n: int)
    requires
        a > d >= 2,
        k >= 1,
        n <= usize::MAX + 1,
    ensures
        run_from(geometric_from(a, d, k, n), geometric_term(a, d, k), n),
    decreases distance_below(k as int, n),
{
    lemma_geometric_growth(a, d, k);
    if !(k >= n || geometric_term(a, d, k) >= n) {
        lemma_geometric_from(a, d, k + 1, n);
        let s = geometric_from(a, d, k + 1, n);
        let t = seq![geometric_term(a, d, k) as usize] + s;
        assert forall|i: int| 0 < i < t.len() implies t[i] == s[i - 1] by {}
    }
}

/// `M(2) = a + d`, so the second gap is at least 2.
proof fn lemma_second_term(a: int, d: int)
    requires
        a > d >= 2,
    ensures
        geometric_term(a, d, 2) >= 2,
{
    lemma_geometric_growth(a, d, 1);
    assert(geometric_term(a, d, 1) == 1) by {
        assert(power(d, 0) == 1);
    }
}

/// The gaps of ratio `a / d` lie in `[1, n)` in strictly ascending order.
pub proof fn lemma_geometric_gaps_within(a: int, d: int, n: int)
    requires
        a > d >= 2,
        2 <= n <= usize::MAX + 1,
    ensures
        run_from(geometric_gaps(a, d, n), 1, n),
{
    lemma_geometric_from(a, d, 2, n);
    lemma_second_term(a, d);
    let s = geometric_from(a, d, 2, n);
    let t = seq![1usize] + s;
    assert forall|i: int| 0 < i < t.len() implies t[i] == s[i - 1] by {}
}

/// Multiplies the number that `digits` hold in base `d` by `a`: the digits keep
/// the low part, the returned carry is what overflows `d^len`.
fn multiply_digits(digits: &mut Vec<u64>, a: u64, d: u64) -> (carry: u128)
    requires
        2 <= d,
        a < 0x10_0000_0000_0000,
        d < 0x10_0000_0000_0000,
        digits_below(old(digits)@, d as int),
    ensures
        final(digits)@.len() == old(digits)@.len(),
        digits_below(final(digits)@, d as int),
        digits_value(final(digits)@, d as int) + carry * power(d as int, old(digits)@.len())
            == a * digits_value(old(digits)@, d as int),
        carry <= a,
{
    let ghost orig = digits@;
    let mut carry: u128 = 0;
    let mut i: usize = 0;
    while i < digits.len()
        invariant
            2 <= d,
            a < 0x10_0000_0000_0000,
            d < 0x10_0000_0000_0000,
            digits@.len() == orig.len(),
            i <= orig.len(),
            digits_below(orig, d as int),
            digits_below(digits@, d as int),
            forall|j: int| i <= j < orig.len() ==> digits@[j] == orig[j],
            carry <= a,
            digits_value(digits@.take(i as int), d as int) + carry * power(d as int, i as nat) == a
                * digits_value(orig.take(i as int), d as int),
        decreases orig.len() - i,
    {
        proof {
            assert(digits@[i as int] < d);
            lemma_mul_below(
                digits@[i as int] as int,
                0x10_0000_0000_0000,
                a as int,
                0x10_0000_0000_0000,
            );
        }
        let x: u128 = (digits[i] as u128) * (a as u128) + carry;
        let digit = (x % (d as u128)) as u64;
        let next = x / (d as u128);
        proof {
            let di = orig[i as int] as int;
            let pw = power(d as int, i as nat);
            lemma_power_positive(d as int, i as nat);
            lemma_fundamental_div_mod(x as int, d as int);
            vstd::arithmetic::div_mod::lemma_mod_pos_bound(x as int, d as int);
            assert(digits@.take(i + 1).drop_last() =~= digits@.take(i as int));
            assert(orig.take(i + 1).drop_last() =~= orig.take(i as int));
            assert(x == d * next + digit);
            assert(x <= (d - 1) * a + a) by (nonlinear_arith)
                requires x == di * a + carry, di <= d - 1, carry <= a, a >= 0;
            assert(next <= a) by (nonlinear_arith)
                requires x == d * next + digit, x <= (d - 1) * a + a, d >= 2, digit >= 0, a >= 0;
            assert(power(d as int, (i + 1) as nat) == d * pw);
            let vn = digits_value(digits@.take(i as int), d as int);
            let vo = digits_value(orig.take(i as int), d as int);
            assert(vn + digit * pw + next * (d * pw) == a * (vo + di * pw)) by (nonlinear_arith)
                requires vn + carry * pw == a * vo, x == d * next + digit, x == di * a + carry;
        }
        let ghost before_set = digits@;
        digits.set(i, digit);
        proof {
            assert(digits@.take(i + 1).drop_last() =~= before_set.take(i as int));
            assert(digits@.take(i as int) =~= before_set.take(i as int));
            assert(digits@.take(i + 1).last() == digit);
            assert(orig.take(i + 1).last() == orig[i as int]);
            assert(digits_value(digits@.take(i + 1), d as int) == digits_value(
                digits@.take(i as int),
                d as int,
            ) + digit * power(d as int, i as nat));
            assert(digits_value(orig.take(i + 1), d as int) == digits_value(orig.take(i as int), d as int)
                + orig[i as int] * power(d as int, i as nat));
        }
        carry = next;
        i = i + 1;
    }
    assert(digits@.take(orig.len() as int) =~= digits@);
    assert(orig.take(orig.len() as int) =~= orig);
    carry
}

/// Whether any digit is not zero.
fn any_nonzero(digits: &Vec<u64>) -> (r: bool)
    ensures
        r == exists|i: int| 0 <= i < digits@.len() && digits@[i] != 0,
{
    let mut i: usize = 0;
    while i < digits.len()
        invariant
            i <= digits@.len(),
            forall|j: int| 0 <= j < i ==> digits@[j] == 0,
        decreases digits@.len() - i,
    {
        if digits[i] != 0 {
            return true;
        }
        i = i + 1;
    }
    false
}

/// The gaps of ratio `a / d` below `n`, starting with 1, each computed exactly:
/// the sum `1 + r + ... + r^(k-1)` is held as an integer part and a fraction
/// whose base-`d` digits are kept in full.
pub fn geometric_sequence(a: u64, d: u64, n: usize) -> (r: Vec<usize>)
    requires
        2 <= d < a,
        a < 3 * d,
        a < 0x10_0000_0000_0000,
    ensures
        r@ == geometric_gaps(a as int, d as int, n as int),
        n >= 2 ==> run_from(r@, 1, n as int),
{
    let mut gaps: Vec<usize> = Vec::new();
    gaps.push(1);
    let nn = n as u128;
    let mut k: u128 = 2;
    // 1 + r = (a + d) / d
    let mut q: u128 = ((a as u128) + (d as u128)) / (d as u128);
    let mut fraction: Vec<u64> = Vec::new();
    fraction.push((((a as u128) + (d as u128)) % (d as u128)) as u64);
    proof {
        assert(power(d as int, 0) == 1);
        assert(power(d as int, 1) == d * power(d as int, 0));
        assert(geometric_numerator(a as int, d as int, 1) == 1);
        assert(geometric_numerator(a as int, d as int, 2) == a + d);
        lemma_fundamental_div_mod(a + d, d as int);
        assert(fraction@.drop_last() =~= Seq::<u64>::empty());
        assert(digits_value(Seq::<u64>::empty(), d as int) == 0);
        assert(fraction@.last() == fraction@[0]);
        assert(digits_value(fraction@, d as int) == digits_value(fraction@.drop_last(), d as int)
            + fraction@.last() * power(d as int, 0));
        assert(fraction@[0] * 1 == fraction@[0]);
        assert(a + d == d * q + fraction@[0]);
        assert(q * power(d as int, 1) == q * d) by {
            assert(power(d as int, 1) == d);
        }
        assert(q * d == d * q) by (nonlinear_arith);
        assert(q <= 3) by (nonlinear_arith)
            requires q == (a + d) / (d as int), a < 3 * d, d >= 2;
    }
    loop
        invariant_except_break
            2 <= d < a,
            a < 3 * d,
            a < 0x10_0000_0000_0000,
            nn == n,
            2 <= k,
            q <= 3 * nn + 5,
            fraction@.len() == k - 1,
            digits_below(fraction@, d as int),
            geometric_numerator(a as int, d as int, k as nat) == q * power(d as int, (k - 1) as nat)
                + digits_value(fraction@, d as int),
            gaps@ + geometric_from(a as int, d as int, k as nat, n as int) == geometric_gaps(
                a as int,
                d as int,
                n as int,
            ),
        ensures
            gaps@ == geometric_gaps(a as int, d as int, n as int),
        decreases distance_below(k as int, nn as int),
    {
        let ghost p = power(d as int, (k - 1) as nat);
        let ghost f = digits_value(fraction@, d as int);
        let nonzero = any_nonzero(&fraction);
        proof {
            lemma_digits_bound(fraction@, d as int);
            lemma_power_positive(d as int, (k - 1) as nat);
            lemma_geometric_growth(a as int, d as int, k as nat);
            // the gap is the integer part, plus one where the fraction is not zero
            let m = geometric_numerator(a as int, d as int, k as nat);
            let g = q + (if nonzero { 1int } else { 0int });
            assert(nonzero <==> f > 0);
            if nonzero {
                assert(m + p - 1 == g * p + (f - 1)) by (nonlinear_arith)
                    requires m == q * p + f, g == q + 1;
            } else {
                assert(m + p - 1 == g * p + (p - 1)) by (nonlinear_arith)
                    requires m == q * p + f, g == q, f == 0;
            }
            lemma_fundamental_div_mod_converse(
                m + p - 1,
                p,
                g,
                if nonzero { f - 1 } else { p - 1 },
            );
        }
        let gap: u128 = q + if nonzero { 1 } else { 0 };
        assert(gap == geometric_term(a as int, d as int, k as nat));
        if gap >= nn {
            assert(geometric_from(a as int, d as int, k as nat, n as int) =~= Seq::<usize>::empty());
            assert(gaps@ =~= gaps@ + geometric_from(a as int, d as int, k as nat, n as int));
            break;
        }
        let ghost before = gaps@;
        gaps.push(gap as usize);
        assert(before + geometric_from(a as int, d as int, k as nat, n as int) =~= gaps@
            + geometric_from(a as int, d as int, (k + 1) as nat, n as int));
        // r * (q + f / p) + 1, with a * q = d * s + t and a * f = f' + carry * p
        proof {
            assert(q < nn);
            assert(nn <= 0x1_0000_0000_0000_0000);
            lemma_mul_below(a as int, 0x10_0000_0000_0000, q as int, 0x1_0000_0000_0000_0000);
        }
        let aq = (a as u128) * q;
        let s = aq / (d as u128);
        let t = aq % (d as u128);
        let carry = multiply_digits(&mut fraction, a, d);
        let ghost multiplied = fraction@;
        let u = t + carry;
        fraction.push((u % (d as u128)) as u64);
        assert(fraction@.drop_last() =~= multiplied);
        let q_next = s + 1 + u / (d as u128);
        proof {
            let fp = digits_value(fraction@.drop_last(), d as int);
            let m = geometric_numerator(a as int, d as int, k as nat);
            let m1 = geometric_numerator(a as int, d as int, (k + 1) as nat);
            let p1 = power(d as int, k as nat);
            assert(p1 == d * p);
            assert(m1 == a * m + p1);
            lemma_fundamental_div_mod(aq as int, d as int);
            lemma_fundamental_div_mod(u as int, d as int);
            vstd::arithmetic::div_mod::lemma_mod_pos_bound(u as int, d as int);
            assert(fp + carry * p == a * f);
            assert(digits_value(fraction@, d as int) == fp + (u % (d as u128)) * p);
            let w = u / (d as u128);
            let v = u % (d as u128);
            assert(a * m == aq * p + a * f) by (nonlinear_arith)
                requires m == q * p + f, aq == a * q;
            assert(aq * p == p1 * s + t * p) by (nonlinear_arith)
                requires aq == d * s + t, p1 == d * p;
            assert(t * p + carry * p == u * p) by (nonlinear_arith)
                requires u == t + carry;
            assert(u * p == p1 * w + v * p) by (nonlinear_arith)
                requires u == d * w + v, p1 == d * p;
            assert(p1 * s + p1 * w + p1 == q_next * p1) by (nonlinear_arith)
                requires q_next == s + 1 + w;
            assert(m1 == q_next * p1 + digits_value(fraction@, d as int));
            assert(q_next <= 3 * nn + 5) by (nonlinear_arith)
                requires
                    aq == a * q,
                    aq == d * s + t,
                    t >= 0,
                    a < 3 * d,
                    d >= 2,
                    q < nn,
                    u == t + carry,
                    t < d,
                    carry <= a,
                    u == d * (u / (d as u128)) + u % (d as u128),
                    u % (d as u128) >= 0,
                    q_next == s + 1 + u / (d as u128),
            ;
            assert(gap >= k);
        }
        q = q_next;
        k = k + 1;
    }
    proof {
        if n >= 2 {
            lemma_geometric_gaps_within(a as int, d as int, n as int);
        }
    }
    gaps
}

} // verus!
