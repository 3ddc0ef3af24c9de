//! Greatest common divisors, as Euclid's algorithm defines them, and the
//! facts about them that reducing a fraction rests on.

use vstd::prelude::*;
use vstd::arithmetic::div_mod::{
    lemma_fundamental_div_mod, lemma_fundamental_div_mod_converse, lemma_mod_multiples_basic,
};

verus! {

/// The greatest common divisor of two naturals, by Euclid's recurrence.
pub open spec fn gcd(a: nat, b: nat) -> nat
    decreases b,
{
    if b == 0 {
        a
    } else {
        gcd(b, a % b)
    }
}

/// `k` goes into `x` exactly.
pub open spec fn divides(k: int, x: int) -> bool {
    k > 0 && x % k == 0
}

/// The divisor a fraction `n / d` with `d > 0` is reduced by: Euclid's
/// algorithm started on the denominator and the euclidean remainder of the
/// numerator by it.
pub open spec fn common_divisor(n: int, d: int) -> int
    recommends
        d > 0,
{
    gcd(d as nat, (n % d) as nat) as int
}

/// A divisor of both `a` and `b` leaves `gcd(a, b)` positive whenever one of
/// them is.
pub proof fn lemma_gcd_pos(a: nat, b: nat)
    requires
        a > 0 || b > 0,
    ensures
        gcd(a, b) > 0,
    decreases b,
{
    if b > 0 {
        lemma_gcd_pos(b, a % b);
    }
}

/// `x == k * q + r` with `k` dividing the product's other factor and `r`
/// leaves `x` divisible by `k` too.
proof fn lemma_divides_combination(k: int, b: int, q: int, r: int)
    requires
        divides(k, b),
        divides(k, r),
    ensures
        divides(k, b * q + r),
{
    lemma_fundamental_div_mod(b, k);
    lemma_fundamental_div_mod(r, k);
    let qb = (b as int) / k;
    let qr = r / k;
    assert(b * q + r == (qb * q + qr) * k) by (nonlinear_arith)
        requires
            b == k * qb + 0,
            r == k * qr + 0,
    ;
    lemma_mod_multiples_basic(qb * q + qr, k);
}

/// Euclid's result divides both of its arguments.
pub proof fn lemma_gcd_divides(a: nat, b: nat)
    requires
        a > 0 || b > 0,
    ensures
        divides(gcd(a, b) as int, a as int),
        divides(gcd(a, b) as int, b as int),
    decreases b,
{
    lemma_gcd_pos(a, b);
    let g = gcd(a, b) as int;
    if b == 0 {
        lemma_mod_multiples_basic(1, g);
        lemma_mod_multiples_basic(0, g);
    } else {
        lemma_gcd_divides(b, a % b);
        lemma_fundamental_div_mod(a as int, b as int);
        lemma_divides_combination(g, b as int, (a / b) as int, (a % b) as int);
        assert(b * (a / b) + a % b == a);
    }
}

/// Every common divisor of `a` and `b` divides `gcd(a, b)`.
pub proof fn lemma_gcd_greatest(k: int, a: nat, b: nat)
    requires
        divides(k, a as int),
        divides(k, b as int),
    ensures
        (gcd(a, b) as int) % k == 0,
    decreases b,
{
    if b > 0 {
        lemma_fundamental_div_mod(a as int, b as int);
        let q = (a / b) as int;
        let r = (a % b) as int;
        lemma_fundamental_div_mod(b as int, k);
        lemma_fundamental_div_mod(a as int, k);
        let qb = (b as int) / k;
        let qa = (a as int) / k;
        assert(r == (qa - qb * q) * k) by (nonlinear_arith)
            requires
                a == b * q + r,
                b == k * qb + 0,
                a == k * qa + 0,
        ;
        lemma_mod_multiples_basic(qa - qb * q, k);
        lemma_gcd_greatest(k, b, a % b);
    }
}

/// Scaling an integer and a positive modulus by a positive factor scales the
/// euclidean remainder by the same factor.
pub proof fn lemma_mod_scale(g: int, x: int, c: int)
    requires
        g > 0,
        c > 0,
    ensures
        (g * x) % (g * c) == g * (x % c),
{
    lemma_fundamental_div_mod(x, c);
    let q = x / c;
    let r = x % c;
    assert(0 <= g * r < g * c && g * x == q * (g * c) + g * r) by (nonlinear_arith)
        requires
            g > 0,
            0 <= r < c,
            x == c * q + r,
    ;
    lemma_fundamental_div_mod_converse(g * x, g * c, q, g * r);
}

/// Euclid's algorithm commutes with scaling both arguments.
pub proof fn lemma_gcd_scale(k: nat, a: nat, b: nat)
    requires
        k > 0,
    ensures
        gcd(k * a, k * b) == k * gcd(a, b),
    decreases b,
{
    if b > 0 {
        assert(k * b > 0) by (nonlinear_arith)
            requires
                k > 0,
                b > 0,
        ;
        lemma_mod_scale(k as int, a as int, b as int);
        assert((k * a) % (k * b) == k * (a % b));
        lemma_gcd_scale(k, b, a % b);
    } else {
        assert(k * b == 0) by (nonlinear_arith)
            requires
                b == 0,
        ;
    }
}

/// The common divisor of a fraction with a positive denominator is positive
/// and goes into both halves.
pub proof fn lemma_common_divisor_divides(n: int, d: int)
    requires
        d > 0,
    ensures
        common_divisor(n, d) > 0,
        divides(common_divisor(n, d), n),
        divides(common_divisor(n, d), d),
{
    let g = common_divisor(n, d);
    lemma_gcd_divides(d as nat, (n % d) as nat);
    lemma_fundamental_div_mod(n, d);
    lemma_divides_combination(g, d, n / d, n % d);
    assert(d * (n / d) + n % d == n);
}

/// Dividing both halves by their common divisor leaves a pair whose common
/// divisor is one.
pub proof fn lemma_reduced_is_lowest(n: int, d: int)
    requires
        d > 0,
    ensures
        common_divisor(n / common_divisor(n, d), d / common_divisor(n, d)) == 1,
        d / common_divisor(n, d) > 0,
{
    let g = common_divisor(n, d);
    lemma_common_divisor_divides(n, d);
    lemma_fundamental_div_mod(n, g);
    lemma_fundamental_div_mod(d, g);
    let n2 = n / g;
    let d2 = d / g;
    assert(d == g * d2);
    assert(n == g * n2);
    assert(d2 > 0) by (nonlinear_arith)
        requires
            d == g * d2,
            d > 0,
            g > 0,
    ;
    lemma_mod_scale(g, n2, d2);
    assert(n % d == g * (n2 % d2));
    let r2 = n2 % d2;
    assert(r2 >= 0);
    lemma_gcd_scale(g as nat, d2 as nat, r2 as nat);
    assert(g == g * common_divisor(n2, d2));
    assert(common_divisor(n2, d2) == 1) by (nonlinear_arith)
        requires
            g == g * common_divisor(n2, d2),
            g > 0,
    ;
}

/// Every common divisor of a fraction's two halves divides the common
/// divisor it is reduced by.
pub proof fn lemma_common_divisor_greatest(k: int, n: int, d: int)
    requires
        d > 0,
        divides(k, n),
        divides(k, d),
    ensures
        common_divisor(n, d) % k == 0,
{
    lemma_fundamental_div_mod(n, d);
    lemma_divides_combination(k, d, -(n / d), n);
    assert(d * (-(n / d)) + n == n % d) by (nonlinear_arith)
        requires
            n == d * (n / d) + n % d,
    ;
    lemma_gcd_greatest(k, d as nat, (n % d) as nat);
}

/// Two positive integers dividing each other are equal.
pub proof fn lemma_mutual_divisors(a: int, b: int)
    requires
        divides(a, b),
        divides(b, a),
    ensures
        a == b,
{
    lemma_fundamental_div_mod(a, b);
    lemma_fundamental_div_mod(b, a);
    let x = a / b;
    let y = b / a;
    assert(a == b) by (nonlinear_arith)
        requires
            a > 0,
            b > 0,
            a == b * x + 0,
            b == a * y + 0,
    ;
}

/// The common divisor ignores the sign of the numerator.
pub proof fn lemma_common_divisor_neg(n: int, d: int)
    requires
        d > 0,
    ensures
        common_divisor(-n, d) == common_divisor(n, d),
{
    let g1 = common_divisor(n, d);
    let g2 = common_divisor(-n, d);
    lemma_common_divisor_divides(n, d);
    lemma_common_divisor_divides(-n, d);
    assert(divides(g1, -n)) by {
        lemma_fundamental_div_mod(n, g1);
        lemma_divides_combination(g1, n, -2, n);
    }
    assert(divides(g2, n)) by {
        lemma_fundamental_div_mod(-n, g2);
        lemma_divides_combination(g2, -n, -2, -n);
    }
    lemma_common_divisor_greatest(g1, -n, d);
    lemma_common_divisor_greatest(g2, n, d);
    lemma_mutual_divisors(g1, g2);
}

/// Scaling both halves of a fraction scales its common divisor.
pub proof fn lemma_common_divisor_scale(k: int, n: int, d: int)
    requires
        k > 0,
        d > 0,
    ensures
        common_divisor(k * n, k * d) == k * common_divisor(n, d),
{
    assert(k * d > 0) by (nonlinear_arith)
        requires
            k > 0,
            d > 0,
    ;
    lemma_mod_scale(k, n, d);
    lemma_gcd_scale(k as nat, d as nat, (n % d) as nat);
}

/// A positive denominator dividing a numerator times another's denominator,
/// with nothing in common with its own numerator, divides that other
/// denominator.
pub proof fn lemma_coprime_divides(n: int, d: int, m: int)
    requires
        d > 0,
        m > 0,
        common_divisor(n, d) == 1,
        (n * m) % d == 0,
    ensures
        m % d == 0,
{
    lemma_common_divisor_scale(m, n, d);
    assert(m * n == n * m && m * d == d * m) by (nonlinear_arith);
    assert(common_divisor(n * m, d * m) == m);
    lemma_mod_multiples_basic(m, d);
    assert((d * m) % d == 0) by {
        assert(d * m == m * d) by (nonlinear_arith);
    }
    assert(d * m > 0) by (nonlinear_arith)
        requires
            d > 0,
            m > 0,
    ;
    lemma_common_divisor_greatest(d, n * m, d * m);
}

} // verus!
