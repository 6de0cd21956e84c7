//! Best rational approximation with a bounded denominator, by mediant
//! (Stern-Brocot) search.
//!
//! The search compares the target with the binary64 quotient of each
//! mediant. Both are binary64 values, so the comparison is exact: the target
//! is held as an exact dyadic fraction and the quotient as the correctly
//! rounded significand of `p / q`. Two binary64 values within the tolerance
//! of the search (a difference no larger than epsilon times itself, or below
//! the smallest positive normal) are equal, because every quotient met here
//! is at least `1 / 512`. And when the target `x` is not the quotient
//! `fl(p / q)`, `x > fl(p / q)` holds exactly when `x > p / q`, as rounding
//! is monotone and `x` rounds to itself.

use vstd::prelude::*;
use vstd::arithmetic::power2::*;
use vstd::arithmetic::div_mod::*;
use vstd::arithmetic::mul::*;
use crate::binary64::{Binary64, Dyadic, HIDDEN_BIT};
use crate::fraction::{Fraction, lowest_terms, lemma_lowest_terms_shrink, ratio_new, ratio_add_integer, fits_i32, lowest_terms_fit};

verus! {

/// The largest denominator that the search aims for.
pub const MAX_DENOM: i32 = 200;

/// The largest whole part that the approximation takes: with it, every
/// numerator of the result fits in an `i32`.
pub const MAX_WHOLE: i32 = 10_737_417;

/// Where the target lies with respect to a mediant.
#[derive(Clone, Copy, Debug, PartialEq, Eq, Structural)]
pub enum Placement {
    Below,
    Hit,
    Above,
}

/// The least `j` from `j` on with `p * 2^j >= q`, stopping at 9.
pub open spec fn binade(p: nat, q: nat, j: nat) -> nat
    decreases 9 - j,
{
    if j >= 9 || p * pow2(j) >= q {
        j
    } else {
        binade(p, q, j + 1)
    }
}

/// The scale `s` for which `p * 2^s / q` lies in `[2^52, 2^53]`, for
/// `1 <= p <= q < 2^9`.
pub open spec fn quotient_scale(p: nat, q: nat) -> nat {
    52 + binade(p, q, 1)
}

/// `n / q` rounded to the nearest integer, ties to even.
pub open spec fn round_half_even(n: nat, q: nat) -> nat {
    let f = n / q;
    let r = n % q;
    if 2 * r > q || (2 * r == q && f % 2 == 1) {
        f + 1
    } else {
        f
    }
}

/// The binary64 value nearest to `p / q` is
/// `quotient_significand(p, q) / 2^quotient_scale(p, q)`.
pub open spec fn quotient_significand(p: nat, q: nat) -> nat {
    round_half_even(p * pow2(quotient_scale(p, q)), q)
}

/// Where `x` lies with respect to the binary64 quotient of `p / q`.
pub open spec fn placement(x: Dyadic, p: nat, q: nat) -> Placement {
    if x.num * pow2(quotient_scale(p, q)) == quotient_significand(p, q) * pow2(x.shift as nat) {
        Placement::Hit
    } else if x.num * q > p * pow2(x.shift as nat) {
        Placement::Above
    } else {
        Placement::Below
    }
}

/// `2^e` as a 128-bit integer.
fn power_of_two(e: u32) -> (r: u128)
    requires
        e <= 96,
    ensures
        r as int == pow2(e as nat),
        r >= 1,
{
    let mut r: u128 = 1;
    let mut i: u32 = 0;
    proof {
        lemma2_to64();
        lemma_pow2_adds(64, 32);
    }
    while i < e
        invariant
            i <= e <= 96,
            pow2(96) == 0x1_0000_0000_0000_0000_0000_0000,
            r as int == pow2(i as nat),
            r >= 1,
        decreases e - i,
    {
        proof {
            lemma_pow2_unfold((i + 1) as nat);
            if i + 1 < 96 {
                lemma_pow2_strictly_increases((i + 1) as nat, 96);
            }
        }
        r = r * 2;
        i = i + 1;
    }
    r
}

/// Places `x` against the binary64 quotient of `p / q`.
fn place(x: Dyadic, p: u64, q: u64) -> (r: Placement)
    requires
        x.wf(),
        1 <= p <= q < 512,
    ensures
        r == placement(x, p as nat, q as nat),
{
    proof {
        lemma2_to64();
        lemma2_to64_rest();
    }
    let mut j: u32 = 1;
    let mut scaled: u128 = p as u128 * 2;
    while j < 9 && scaled < q as u128
        invariant
            1 <= j <= 9,
            1 <= p <= q < 512,
            scaled as int == p * pow2(j as nat),
            scaled <= 512 * 512,
            binade(p as nat, q as nat, j as nat) == binade(p as nat, q as nat, 1),
            j > 1 ==> p * pow2((j - 1) as nat) < q,
        decreases 9 - j,
    {
        proof {
            lemma_pow2_unfold((j + 1) as nat);
            lemma_mul_is_associative(p as int, pow2(j as nat) as int, 2);
            lemma_mul_is_commutative(pow2(j as nat) as int, 2);
        }
        scaled = scaled * 2;
        j = j + 1;
    }
    proof {
        if j == 9 {
            lemma_mul_inequality(1, p as int, 512);
        }
        assert(scaled >= q);
        assert(binade(p as nat, q as nat, j as nat) == j);
    }
    let s: u32 = 52 + j;
    let unit: u128 = power_of_two(s);
    proof {
        lemma_pow2_adds(52, j as nat);
        lemma_mul_is_associative(p as int, pow2(j as nat) as int, pow2(52) as int);
        lemma_mul_inequality(q as int, scaled as int, pow2(52) as int);
        lemma_pow2_strictly_increases(s as nat, 64);
        lemma_mul_strict_inequality(p as int, 512, unit as int);
    }
    let n: u128 = p as u128 * unit;
    let f: u128 = n / q as u128;
    let rem: u128 = n % q as u128;
    let m: u128 = if 2 * rem > q as u128 || (2 * rem == q as u128 && f % 2 == 1) {
        f + 1
    } else {
        f
    };
    assert(m == quotient_significand(p as nat, q as nat));
    proof {
        // m is at least 2^52
        lemma_div_is_ordered(q * pow2(52), n as int, q as int);
        lemma_mul_is_commutative(q as int, pow2(52) as int);
        lemma_div_multiples_vanish(pow2(52) as int, q as int);
    }
    assert(m >= HIDDEN_BIT);
    let hit: bool = if x.shift > s {
        proof {
            lemma_pow2_adds((x.shift - s) as nat, s as nat);
            lemma_pow2_strictly_increases(0, (x.shift - s) as nat);
            lemma_pow2_unfold(53);
            lemma_mul_left_inequality(m as int, 2, pow2((x.shift - s) as nat) as int);
            lemma_mul_strict_inequality(
                x.num as int,
                m * pow2((x.shift - s) as nat),
                pow2(s as nat) as int,
            );
            lemma_mul_is_associative(
                m as int,
                pow2((x.shift - s) as nat) as int,
                pow2(s as nat) as int,
            );
        }
        false
    } else {
        let gap: u128 = power_of_two(s - x.shift);
        proof {
            lemma_pow2_adds((s - x.shift) as nat, x.shift as nat);
            lemma_pow2_strictly_increases((s - x.shift) as nat, 64);
            lemma_pow2_pos(x.shift as nat);
            lemma_mul_strict_inequality(x.num as int, HIDDEN_BIT * 2, gap as int);
            lemma_mul_is_associative(x.num as int, gap as int, pow2(x.shift as nat) as int);
            if x.num * gap != m {
                if x.num * gap < m {
                    lemma_mul_strict_inequality(x.num * gap, m as int, pow2(x.shift as nat) as int);
                } else {
                    lemma_mul_strict_inequality(m as int, x.num * gap, pow2(x.shift as nat) as int);
                }
            }
        }
        x.num as u128 * gap == m
    };
    if hit {
        return Placement::Hit;
    }
    let above: bool = if x.shift >= 62 {
        proof {
            if x.shift > 62 {
                lemma_pow2_strictly_increases(62, x.shift as nat);
            }
            lemma_pow2_adds(53, 9);
            lemma_mul_strict_inequality(x.num as int, HIDDEN_BIT * 2, q as int);
            lemma_mul_left_inequality(q as int, x.num as int, HIDDEN_BIT * 2);
            lemma_mul_inequality(1, p as int, pow2(x.shift as nat) as int);
        }
        false
    } else {
        let unit_x: u128 = power_of_two(x.shift);
        proof {
            lemma_pow2_strictly_increases(x.shift as nat, 62);
            lemma_mul_strict_inequality(p as int, 512, unit_x as int);
            lemma_mul_strict_inequality(x.num as int, HIDDEN_BIT * 2, q as int);
        }
        x.num as u128 * q as u128 > p as u128 * unit_x
    };
    if above {
        Placement::Above
    } else {
        Placement::Below
    }
}

/// The search goes on from the bracket with denominators `b` and `d`.
pub open spec fn searching(b: int, d: int) -> bool {
    1 <= b < MAX_DENOM && 1 <= d <= MAX_DENOM
}

/// The bracket `a/b, c/d` after its mediant has taken the place of the bound
/// on the side of the target.
pub open spec fn narrowed(x: Dyadic, a: int, b: int, c: int, d: int) -> (int, int, int, int) {
    if placement(x, (a + c) as nat, (b + d) as nat) == Placement::Above {
        (a + c, b + d, c, d)
    } else {
        (a, b, a + c, b + d)
    }
}

/// `x` lies no farther from `a/b` than from `c/d`:
/// `x - a/b <= c/d - x`, that is `2 x b d <= a d + c b`.
pub open spec fn closer_to_lower(x: Dyadic, a: int, b: int, c: int, d: int) -> bool {
    2 * x.num * b * d <= (a * d + c * b) * pow2(x.shift as nat)
}

/// Decides `closer_to_lower` for the bounds of a bracket of the search.
fn is_closer_to_lower(x: Dyadic, a: i32, b: i32, c: i32, d: i32) -> (r: bool)
    requires
        x.wf(),
        0 <= a <= b < 2 * MAX_DENOM,
        1 <= c <= d < 2 * MAX_DENOM,
        1 <= b,
    ensures
        r == closer_to_lower(x, a as int, b as int, c as int, d as int),
{
    proof {
        lemma2_to64();
        lemma2_to64_rest();
    }
    assert(0 <= (b as int) * (d as int) < 0x40000 && 0 <= (a as int) * (d as int) < 0x40000
        && 0 <= (c as int) * (b as int) < 0x40000) by (nonlinear_arith)
        requires
            0 <= a < 400,
            1 <= b < 400,
            1 <= c < 400,
            1 <= d < 400,
    ;
    let num: u128 = x.num as u128;
    let bd: u128 = b as u128 * d as u128;
    let sum: u128 = a as u128 * d as u128 + c as u128 * b as u128;
    assert(bd < 0x40000) by (nonlinear_arith)
        requires
            bd == b * d,
            1 <= b < 400,
            1 <= d < 400,
    ;
    assert(1 <= sum < 0x80000) by (nonlinear_arith)
        requires
            sum == a * d + c * b,
            0 <= a < 400,
            1 <= b < 400,
            1 <= c < 400,
            1 <= d < 400,
    ;
    assert(2 * num * bd < 0x1_0000_0000_0000_0000_00) by (nonlinear_arith)
        requires
            num < 0x20_0000_0000_0000,
            bd < 0x40000,
    ;
    assert(2 * x.num * b * d == 2 * num * bd) by (nonlinear_arith)
        requires
            num == x.num,
            bd == b * d,
    ;
    if x.shift >= 72 {
        proof {
            if x.shift > 72 {
                lemma_pow2_strictly_increases(72, x.shift as nat);
            }
            lemma_pow2_adds(64, 8);
            lemma_mul_inequality(1, sum as int, pow2(x.shift as nat) as int);
        }
        true
    } else {
        let unit: u128 = power_of_two(x.shift);
        proof {
            lemma_pow2_strictly_increases(x.shift as nat, 72);
            lemma_pow2_adds(64, 8);
            lemma_mul_strict_inequality(sum as int, 0x80000, unit as int);
            lemma_mul_inequality(0x80000, 0x80000, unit as int);
        }
        2 * num * bd <= sum * unit
    }
}

/// The ratio, not yet reduced, that the search for `x` settles on from the
/// lower bound `a/b` and the upper bound `c/d`.
///
/// When the denominators run out, the bound still within `MAX_DENOM` is
/// taken; when the lower denominator lands on `MAX_DENOM` itself, both are
/// within it and the nearer one is taken, the lower one on a tie.
pub open spec fn mediant_search(x: Dyadic, a: int, b: int, c: int, d: int) -> (int, int)
    decreases 3 * MAX_DENOM - b - d,
{
    if searching(b, d) {
        if placement(x, (a + c) as nat, (b + d) as nat) == Placement::Hit {
            if b + d <= MAX_DENOM {
                (a + c, b + d)
            } else if d > b {
                (c, d)
            } else {
                (a, b)
            }
        } else {
            let t = narrowed(x, a, b, c, d);
            mediant_search(x, t.0, t.1, t.2, t.3)
        }
    } else if d > MAX_DENOM {
        (a, b)
    } else if b > MAX_DENOM {
        (c, d)
    } else if closer_to_lower(x, a, b, c, d) {
        (a, b)
    } else {
        (c, d)
    }
}

/// The bracket `a/b, c/d` holds the target: `a/b <= x <= c/d`.
pub open spec fn brackets(x: Dyadic, a: int, b: int, c: int, d: int) -> bool {
    &&& a * pow2(x.shift as nat) <= x.num * b
    &&& x.num * d <= c * pow2(x.shift as nat)
}

/// The bounds that every bracket of the search keeps.
pub open spec fn bracket_bounds(a: int, b: int, c: int, d: int) -> bool {
    &&& 0 <= a <= b < 2 * MAX_DENOM
    &&& 1 <= c <= d < 2 * MAX_DENOM
    &&& 1 <= b
    &&& b < MAX_DENOM || d <= MAX_DENOM
}

/// The search starts from `0/1, 1/1`, which holds every target in `[0, 1)`,
/// and each narrowing step keeps the target inside the bracket while the sum
/// of the denominators grows.
pub proof fn lemma_bracket_contains_target(x: Dyadic, a: int, b: int, c: int, d: int)
    requires
        x.wf(),
        bracket_bounds(a, b, c, d),
        searching(b, d),
        brackets(x, a, b, c, d),
        placement(x, (a + c) as nat, (b + d) as nat) != Placement::Hit,
    ensures
        brackets(x, 0, 1, 1, 1),
        ({
            let t = narrowed(x, a, b, c, d);
            &&& brackets(x, t.0, t.1, t.2, t.3)
            &&& t.1 + t.3 > b + d
        }),
{
    let k = pow2(x.shift as nat) as int;
    lemma_pow2_pos(x.shift as nat);
    if placement(x, (a + c) as nat, (b + d) as nat) == Placement::Above {
        assert(x.num * (b + d) > (a + c) * k);
    } else {
        assert(x.num * (b + d) <= (a + c) * k);
    }
}

/// The denominator that the search settles on is at most `MAX_DENOM`, and
/// its numerator lies between zero and it.
pub proof fn lemma_search_bounds(x: Dyadic, a: int, b: int, c: int, d: int)
    requires
        bracket_bounds(a, b, c, d),
    ensures
        0 <= mediant_search(x, a, b, c, d).0 <= mediant_search(x, a, b, c, d).1,
        1 <= mediant_search(x, a, b, c, d).1 <= MAX_DENOM,
    decreases 3 * MAX_DENOM - b - d,
{
    if searching(b, d) && placement(x, (a + c) as nat, (b + d) as nat) != Placement::Hit {
        let t = narrowed(x, a, b, c, d);
        lemma_search_bounds(x, t.0, t.1, t.2, t.3);
    }
}

/// The bracket in which the search for `x` from `a/b, c/d` stops.
pub open spec fn final_bracket(x: Dyadic, a: int, b: int, c: int, d: int) -> (int, int, int, int)
    decreases 3 * MAX_DENOM - b - d,
{
    if searching(b, d) && placement(x, (a + c) as nat, (b + d) as nat) != Placement::Hit {
        let t = narrowed(x, a, b, c, d);
        final_bracket(x, t.0, t.1, t.2, t.3)
    } else {
        (a, b, c, d)
    }
}

/// `a/b` and `c/d` are neighbours in the Stern-Brocot tree: `b c - a d = 1`.
pub open spec fn neighbours(a: int, b: int, c: int, d: int) -> bool {
    c * b - a * d == 1
}

/// From a bracket of neighbours that holds the target, the search stops in
/// such a bracket, and settles on one of its ends or on its mediant, which
/// the target then hits.
proof fn lemma_settles_in_bracket(x: Dyadic, a: int, b: int, c: int, d: int)
    requires
        x.wf(),
        bracket_bounds(a, b, c, d),
        brackets(x, a, b, c, d),
        neighbours(a, b, c, d),
    ensures
        ({
            let f = final_bracket(x, a, b, c, d);
            let r = mediant_search(x, a, b, c, d);
            &&& brackets(x, f.0, f.1, f.2, f.3)
            &&& neighbours(f.0, f.1, f.2, f.3)
            &&& (r == (f.0, f.1) || r == (f.2, f.3) || (r == (f.0 + f.2, f.1 + f.3)
                && placement(x, r.0 as nat, r.1 as nat) == Placement::Hit))
        }),
    decreases 3 * MAX_DENOM - b - d,
{
    if searching(b, d) && placement(x, (a + c) as nat, (b + d) as nat) != Placement::Hit {
        lemma_bracket_contains_target(x, a, b, c, d);
        let t = narrowed(x, a, b, c, d);
        assert(neighbours(t.0, t.1, t.2, t.3)) by (nonlinear_arith)
            requires
                neighbours(a, b, c, d),
                t == (a + c, b + d, c, d) || t == (a, b, a + c, b + d),
        ;
        lemma_settles_in_bracket(x, t.0, t.1, t.2, t.3);
    }
}

/// The search for a target in `[0, 1)` stops in a bracket `a/b <= x <= c/d`
/// whose ends are neighbours, and returns one of those ends or their
/// mediant, which the target then hits.
pub proof fn lemma_search_settles_in_bracket(x: Dyadic)
    requires
        x.wf(),
    ensures
        ({
            let f = final_bracket(x, 0, 1, 1, 1);
            let r = mediant_search(x, 0, 1, 1, 1);
            &&& brackets(x, f.0, f.1, f.2, f.3)
            &&& neighbours(f.0, f.1, f.2, f.3)
            &&& (r == (f.0, f.1) || r == (f.2, f.3) || (r == (f.0 + f.2, f.1 + f.3)
                && placement(x, r.0 as nat, r.1 as nat) == Placement::Hit))
        }),
{
    lemma_pow2_pos(x.shift as nat);
    lemma_settles_in_bracket(x, 0, 1, 1, 1);
}

/// Searches `[0, 1]` for the ratio nearest to `x` with a denominator up to
/// `MAX_DENOM`.
fn farey(x: Dyadic) -> (r: Fraction)
    requires
        x.wf(),
    ensures
        r.has_terms(
            lowest_terms(mediant_search(x, 0, 1, 1, 1).0, mediant_search(x, 0, 1, 1, 1).1),
        ),
        0 <= r.numer <= r.denom,
        1 <= r.denom <= MAX_DENOM,
{
    let mut a: i32 = 0;
    let mut b: i32 = 1;
    let mut c: i32 = 1;
    let mut d: i32 = 1;
    proof {
        lemma_search_bounds(x, 0, 1, 1, 1);
    }
    while b < MAX_DENOM && d <= MAX_DENOM
        invariant
            x.wf(),
            bracket_bounds(a as int, b as int, c as int, d as int),
            brackets(x, a as int, b as int, c as int, d as int),
            mediant_search(x, a as int, b as int, c as int, d as int) == mediant_search(x, 0, 1, 1, 1),
        decreases 3 * MAX_DENOM - b - d,
    {
        let placed = place(x, (a + c) as u64, (b + d) as u64);
        proof {
            if placed != Placement::Hit {
                lemma_bracket_contains_target(x, a as int, b as int, c as int, d as int);
            }
        }
        match placed {
            Placement::Hit => {
                let (n, q) = if b + d <= MAX_DENOM {
                    (a + c, b + d)
                } else if d > b {
                    (c, d)
                } else {
                    (a, b)
                };
                proof {
                    lemma_lowest_terms_shrink(n as int, q as int);
                }
                return ratio_new(n, q);
            },
            Placement::Above => {
                a = a + c;
                b = b + d;
            },
            Placement::Below => {
                c = c + a;
                d = d + b;
            },
        }
    }
    let (n, q) = if d > MAX_DENOM {
        (a, b)
    } else if b > MAX_DENOM {
        (c, d)
    } else if is_closer_to_lower(x, a, b, c, d) {
        (a, b)
    } else {
        (c, d)
    };
    proof {
        lemma_lowest_terms_shrink(n as int, q as int);
    }
    ratio_new(n, q)
}

/// `x` lies in the domain of the approximation: finite, not negative, and
/// with a whole part no larger than `MAX_WHOLE`.
pub open spec fn approximable(x: Binary64) -> bool {
    &&& x.finite()
    &&& x.nonnegative()
    &&& x.whole_part() <= MAX_WHOLE
}

/// The fraction part of `x`, searched and reduced.
pub open spec fn fraction_approximation(x: Binary64) -> (int, int) {
    let s = mediant_search(x.fraction_part(), 0, 1, 1, 1);
    lowest_terms(s.0, s.1)
}

/// The approximation of `x`: its whole part added to the approximation of
/// its fraction part, in lowest terms.
pub open spec fn approximation(x: Binary64) -> (int, int) {
    let f = fraction_approximation(x);
    lowest_terms(f.0 + f.1 * x.whole_part(), f.1)
}

/// The ratio nearest to `x` that the mediant search finds, with the whole
/// part of `x` taken exactly.
pub fn get_approximate_rational(x: Binary64) -> (r: Fraction)
    requires
        approximable(x),
    ensures
        r.has_terms(approximation(x)),
        1 <= r.denom <= MAX_DENOM,
{
    let (whole, frac) = x.split();
    let f = farey(frac);
    proof {
        lemma_mul_inequality(f.denom as int, MAX_DENOM as int, whole as int);
        lemma_mul_inequality(whole as int, MAX_WHOLE as int, MAX_DENOM as int);
        lemma_mul_is_commutative(f.denom as int, whole as int);
        lemma_lowest_terms_shrink(f.numer + f.denom * whole, f.denom as int);
    }
    ratio_add_integer(f, whole)
}

/// The denominator of an approximation lies between one and `MAX_DENOM`.
pub proof fn lemma_denominator_bound(x: Binary64)
    requires
        approximable(x),
    ensures
        1 <= approximation(x).1 <= MAX_DENOM,
{
    let s = mediant_search(x.fraction_part(), 0, 1, 1, 1);
    let f = fraction_approximation(x);
    lemma_search_bounds(x.fraction_part(), 0, 1, 1, 1);
    lemma_lowest_terms_shrink(s.0, s.1);
    assert(x.whole_part() >= 0) by {
        if x.scale() >= 0 {
            lemma_pow2_pos(x.scale() as nat);
            lemma_mul_nonnegative(x.significand(), pow2(x.scale() as nat) as int);
        } else {
            lemma_pow2_pos((-x.scale()) as nat);
            lemma_div_pos_is_pos(x.significand(), pow2((-x.scale()) as nat) as int);
        }
    }
    lemma_mul_nonnegative(f.1, x.whole_part());
    lemma_lowest_terms_shrink(f.0 + f.1 * x.whole_part(), f.1);
}

} // verus!
