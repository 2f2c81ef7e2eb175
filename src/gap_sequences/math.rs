//! Number-theoretic helpers used by the gap sequences.

use vstd::prelude::*;

verus! {

/// The greatest common divisor as Euclid's algorithm computes it.
pub open spec fn gcd_spec(a: nat, b: nat) -> nat
    decreases b,
{
    if b == 0 {
        a
    } else {
        gcd_spec(b, a % b)
    }
}

/// Greatest common divisor of `a` and `b`, with `gcd(a, 0) == a`.
pub fn gcd(a: usize, b: usize) -> (r: usize)
    ensures
        r as nat == gcd_spec(a as nat, b as nat),
{
    let ghost (a0, b0) = (a as nat, b as nat);
    let mut a = a;
    let mut b = b;
    while b != 0
        invariant
            gcd_spec(a as nat, b as nat) == gcd_spec(a0, b0),
        decreases b,
    {
        let t = b;
        b = a % b;
        a = t;
    }
    a
}

/// `gcd` does not depend on the order of its arguments.
pub proof fn lemma_gcd_commutative(a: nat, b: nat)
    ensures
        gcd_spec(a, b) == gcd_spec(b, a),
{
    if a != 0 && b != 0 && a != b {
        if a < b {
            assert(a % b == a) by (nonlinear_arith)
                requires a < b;
            assert(gcd_spec(a, b) == gcd_spec(b, a % b));
        } else {
            assert(b % a == b) by (nonlinear_arith)
                requires b < a;
            assert(gcd_spec(b, a) == gcd_spec(a, b % a));
        }
    } else if a == 0 && b != 0 {
        assert(gcd_spec(0, b) == gcd_spec(b, 0nat % b));
    } else if b == 0 && a != 0 {
        assert(gcd_spec(0, a) == gcd_spec(a, 0nat % a));
    }
}

/// A number's `gcd` with itself is that number, and with zero it is the number.
pub proof fn lemma_gcd_self_and_zero(a: nat)
    ensures
        gcd_spec(a, a) == a,
        gcd_spec(a, 0) == a,
        gcd_spec(0, a) == a,
{
    if a != 0 {
        assert(a % a == 0) by (nonlinear_arith)
            requires a != 0;
        assert(gcd_spec(a, a) == gcd_spec(a, 0));
        assert(0nat % a == 0);
        assert(gcd_spec(0, a) == gcd_spec(a, 0));
    }
}

/// `d` is a positive divisor of `x`.
pub open spec fn divides(d: nat, x: nat) -> bool {
    d > 0 && x % d == 0
}

proof fn lemma_divides_combination(d: nat, x: nat, y: nat, q: nat)
    requires
        divides(d, x),
        divides(d, y),
    ensures
        divides(d, x * q + y),
        x * q <= y ==> divides(d, (y - x * q) as nat),
{
    let m = x / d;
    let n = y / d;
    vstd::arithmetic::div_mod::lemma_fundamental_div_mod(x as int, d as int);
    vstd::arithmetic::div_mod::lemma_fundamental_div_mod(y as int, d as int);
    assert(x * q + y == d * (m * q + n)) by (nonlinear_arith)
        requires x == d * m, y == d * n;
    vstd::arithmetic::div_mod::lemma_mod_multiples_basic((m * q + n) as int, d as int);
    assert((m * q + n) * d == d * (m * q + n)) by (nonlinear_arith);
    if x * q <= y {
        assert(y - x * q == d * (n - m * q)) by (nonlinear_arith)
            requires x == d * m, y == d * n;
        assert(n - m * q >= 0) by (nonlinear_arith)
            requires x == d * m, y == d * n, x * q <= y, d > 0;
        vstd::arithmetic::div_mod::lemma_mod_multiples_basic(n - m * q, d as int);
        assert((n - m * q) * d == d * (n - m * q)) by (nonlinear_arith);
    }
}

/// Unless both arguments are zero, `gcd` is a positive common divisor of them
/// that every common divisor divides: their greatest common divisor.
pub proof fn lemma_gcd_divides(a: nat, b: nat)
    requires
        a > 0 || b > 0,
    ensures
        divides(gcd_spec(a, b), a),
        divides(gcd_spec(a, b), b),
        forall|d: nat| divides(d, a) && divides(d, b) ==> #[trigger] divides(d, gcd_spec(a, b)),
    decreases b,
{
    if b == 0 {
        assert(a % a == 0) by (nonlinear_arith)
            requires a > 0;
        assert(0nat % a == 0);
    } else {
        let r = a % b;
        let q = a / b;
        vstd::arithmetic::div_mod::lemma_fundamental_div_mod(a as int, b as int);
        vstd::arithmetic::div_mod::lemma_mod_pos_bound(a as int, b as int);
        lemma_gcd_divides(b, r);
        let g = gcd_spec(a, b);
        assert(g == gcd_spec(b, r));
        assert(a == b * q + r);
        lemma_divides_combination(g, b, r, q);
        assert forall|d: nat| divides(d, a) && divides(d, b) implies #[trigger] divides(d, g) by {
            lemma_divides_combination(d, b, a, q);
            assert(b * q <= a);
            assert((a - b * q) as nat == r);
        }
    }
}

} // verus!
