//! A ratio of two 32-bit integers, and its reduction to lowest terms as
//! `num_rational` performs it.

use vstd::prelude::*;
use vstd::arithmetic::div_mod::{lemma_fundamental_div_mod, lemma_mod_multiples_basic};

verus! {

/// A ratio `numer / denom` of two 32-bit integers.
#[derive(Clone, Copy, Debug, PartialEq, Eq, Structural)]
pub struct Fraction {
    pub numer: i32,
    pub denom: i32,
}

/// Greatest common divisor, by Euclid's rule.
pub open spec fn gcd(a: nat, b: nat) -> nat
    decreases b,
{
    if b == 0 {
        a
    } else {
        gcd(b, a % b)
    }
}

pub open spec fn magnitude(x: int) -> nat {
    if x < 0 {
        (-x) as nat
    } else {
        x as nat
    }
}

/// `n / d` divided through by the greatest common divisor of its terms, with a
/// positive denominator.
pub open spec fn lowest_terms(n: int, d: int) -> (int, int) {
    let g = gcd(magnitude(n), magnitude(d)) as int;
    if d < 0 {
        (-(n / g), -(d / g))
    } else {
        (n / g, d / g)
    }
}

pub open spec fn fits_i32(v: int) -> bool {
    i32::MIN <= v <= i32::MAX
}

/// Both terms of `lowest_terms(n, d)` are 32-bit integers.
pub open spec fn lowest_terms_fit(n: int, d: int) -> bool {
    fits_i32(lowest_terms(n, d).0) && fits_i32(lowest_terms(n, d).1)
}

impl Fraction {
    pub open spec fn has_terms(self, t: (int, int)) -> bool {
        self.numer as int == t.0 && self.denom as int == t.1
    }
}

/// The divisor used in `lowest_terms` is positive and at most `b`.
pub proof fn lemma_gcd_bounds(a: nat, b: nat)
    requires
        b > 0,
    ensures
        1 <= gcd(a, b) <= b,
    decreases b,
{
    assert(gcd(a, b) == gcd(b, a % b));
    if a % b != 0 {
        lemma_gcd_bounds(b, a % b);
    } else {
        assert(gcd(b, 0) == b);
    }
}

/// The divisor used in `lowest_terms` divides both terms.
proof fn lemma_gcd_divides(a: nat, b: nat)
    requires
        a > 0 || b > 0,
    ensures
        gcd(a, b) >= 1,
        a as int % gcd(a, b) as int == 0,
        b as int % gcd(a, b) as int == 0,
    decreases b,
{
    if b == 0 {
        lemma_mod_multiples_basic(1, a as int);
        lemma_mod_multiples_basic(0, a as int);
    } else {
        let g = gcd(b, a % b) as int;
        lemma_gcd_bounds(a, b);
        lemma_gcd_divides(b, a % b);
        lemma_fundamental_div_mod(b as int, g);
        lemma_fundamental_div_mod((a % b) as int, g);
        lemma_fundamental_div_mod(a as int, b as int);
        let kb = b as int / g;
        let kr = (a % b) as int / g;
        let k = kb * (a as int / b as int) + kr;
        assert(a as int == k * g) by (nonlinear_arith)
            requires
                b as int == g * kb,
                (a % b) as int == g * kr,
                a as int == b * (a as int / b as int) + (a % b) as int,
                k == kb * (a as int / b as int) + kr,
        ;
        lemma_mod_multiples_basic(k, g);
    }
}

/// `lowest_terms(n, d)` has the value `n / d`.
pub proof fn lemma_lowest_terms_value(n: int, d: int)
    requires
        d != 0,
    ensures
        lowest_terms(n, d).0 * d == n * lowest_terms(n, d).1,
{
    let g = gcd(magnitude(n), magnitude(d)) as int;
    lemma_gcd_divides(magnitude(n), magnitude(d));
    if n < 0 {
        lemma_fundamental_div_mod(magnitude(n) as int, g);
        lemma_mod_multiples_basic(-(magnitude(n) as int / g), g);
        assert(n == (-(magnitude(n) as int / g)) * g) by (nonlinear_arith)
            requires
                magnitude(n) as int == g * (magnitude(n) as int / g),
                n == -(magnitude(n) as int),
        ;
    }
    if d < 0 {
        lemma_fundamental_div_mod(magnitude(d) as int, g);
        lemma_mod_multiples_basic(-(magnitude(d) as int / g), g);
        assert(d == (-(magnitude(d) as int / g)) * g) by (nonlinear_arith)
            requires
                magnitude(d) as int == g * (magnitude(d) as int / g),
                d == -(magnitude(d) as int),
        ;
    }
    lemma_fundamental_div_mod(n, g);
    lemma_fundamental_div_mod(d, g);
    assert((n / g) * d == n * (d / g)) by (nonlinear_arith)
        requires
            n == g * (n / g) + n % g,
            d == g * (d / g) + d % g,
            n % g == 0,
            d % g == 0,
    ;
    assert((-(n / g)) * d == n * (-(d / g))) by (nonlinear_arith)
        requires
            (n / g) * d == n * (d / g),
    ;
}

/// Reducing a non-negative ratio with a positive denominator shrinks both terms.
pub proof fn lemma_lowest_terms_shrink(n: int, d: int)
    requires
        n >= 0,
        d > 0,
    ensures
        0 <= lowest_terms(n, d).0 <= n,
        1 <= lowest_terms(n, d).1 <= d,
        n <= d ==> lowest_terms(n, d).0 <= lowest_terms(n, d).1,
{
    let g = gcd(magnitude(n), magnitude(d)) as int;
    lemma_gcd_bounds(magnitude(n), magnitude(d));
    vstd::arithmetic::div_mod::lemma_div_non_zero(d, g);
    vstd::arithmetic::div_mod::lemma_div_basics_5(d, g);
    vstd::arithmetic::div_mod::lemma_div_basics_4(n, g);
    vstd::arithmetic::div_mod::lemma_div_basics_5(n, g);
    if n <= d {
        vstd::arithmetic::div_mod::lemma_div_is_ordered(n, d, g);
    }
}

/// The sign of `n / d` moves to the numerator without meeting `i32::MIN`.
pub open spec fn sign_normalizes(n: int, d: int) -> bool {
    !(d < 0 && (n == i32::MIN || d == i32::MIN))
}

/// Dividing by a positive `g` keeps `x` between zero and itself.
proof fn lemma_div_toward_zero(x: int, g: int)
    requires
        g >= 1,
    ensures
        x >= 0 ==> 0 <= x / g <= x,
        x < 0 ==> x <= x / g <= -1,
{
    vstd::arithmetic::div_mod::lemma_fundamental_div_mod(x, g);
    vstd::arithmetic::div_mod::lemma_mod_bound(x, g);
    let q = x / g;
    let r = x % g;
    assert(x == g * q + r);
    if x >= 0 {
        vstd::arithmetic::div_mod::lemma_div_basics_4(x, g);
        vstd::arithmetic::div_mod::lemma_div_basics_5(x, g);
    } else {
        assert(q <= -1) by (nonlinear_arith)
            requires
                x == g * q + r,
                0 <= r < g,
                x < 0,
                g >= 1,
        ;
        assert(x <= q) by (nonlinear_arith)
            requires
                x == g * q + r,
                0 <= r < g,
                q <= -1,
                g >= 1,
        ;
    }
}

/// Where the sign normalizes, both terms of the lowest form are 32-bit.
pub proof fn lemma_lowest_terms_fit(n: int, d: int)
    requires
        fits_i32(n),
        fits_i32(d),
        d != 0,
        sign_normalizes(n, d),
    ensures
        lowest_terms_fit(n, d),
{
    let g = gcd(magnitude(n), magnitude(d)) as int;
    lemma_gcd_bounds(magnitude(n), magnitude(d));
    lemma_div_toward_zero(n, g);
    lemma_div_toward_zero(d, g);
}

/// Relies on `num_rational::Ratio::new`: it divides both terms by their
/// greatest common divisor and then negates both when the denominator is
/// negative. It panics on a zero denominator, and overflows when a term of
/// the result is `2^31`.
#[verifier::external_body]
pub(crate) fn ratio_new(numer: i32, denom: i32) -> (r: Fraction)
    requires
        denom != 0,
        lowest_terms_fit(numer as int, denom as int),
    ensures
        r.has_terms(lowest_terms(numer as int, denom as int)),
{
    let r = num_rational::Ratio::new(numer, denom);
    Fraction { numer: *r.numer(), denom: *r.denom() }
}

/// Relies on `Add<i32>` for `num_rational::Ratio<i32>`: `a/b + k` is
/// `Ratio::new(a + b * k, b)`, with the sum and product taken in `i32`.
#[verifier::external_body]
pub(crate) fn ratio_add_integer(f: Fraction, k: i32) -> (r: Fraction)
    requires
        f.denom != 0,
        fits_i32(f.denom * k),
        fits_i32(f.numer + f.denom * k),
        lowest_terms_fit(f.numer + f.denom * k, f.denom as int),
    ensures
        r.has_terms(lowest_terms(f.numer + f.denom * k, f.denom as int)),
{
    let r = num_rational::Ratio::new_raw(f.numer, f.denom) + k;
    Fraction { numer: *r.numer(), denom: *r.denom() }
}

} // verus!
