use tuning::approx::{get_approximate_rational, MAX_DENOM};
use tuning::binary64::Binary64;
use tuning::fraction::Fraction;

fn value(x: f64) -> Binary64 {
    Binary64 { bits: x.to_bits() }
}

fn approximate(x: f64) -> (i32, i32) {
    let r = get_approximate_rational(value(x));
    (r.numer, r.denom)
}

#[test]
fn exact_halves_and_quarters() {
    assert_eq!(approximate(0.5), (1, 2));
    assert_eq!(approximate(0.75), (3, 4));
    assert_eq!(approximate(1.25), (5, 4));
    assert_eq!(approximate(1.5), (3, 2));
}

#[test]
fn whole_part_is_added_to_the_fraction() {
    assert_eq!(approximate(2.5), (5, 2));
    assert_eq!(approximate(3.999), (4, 1));
    assert_eq!(approximate(2.0), (2, 1));
}

#[test]
fn nearest_binary64_quotient_counts_as_a_hit() {
    assert_eq!(approximate(1.0 / 3.0), (1, 3));
    assert_eq!(approximate(0.1), (1, 10));
    assert_eq!(approximate(2.0 / 3.0), (2, 3));
}

#[test]
fn zero_is_zero_over_one() {
    assert_eq!(approximate(0.0), (0, 1));
    assert_eq!(approximate(-0.0), (0, 1));
}

#[test]
fn search_ending_on_the_upper_bound() {
    assert_eq!(approximate(0.9999), (1, 1));
    assert_eq!(approximate(0.999), (1, 1));
}

#[test]
fn denominators_stay_within_the_bound() {
    let mut i: u32 = 0;
    while i < 2000 {
        let x = i as f64 / 997.0 + 0.000123;
        let r: Fraction = get_approximate_rational(value(x));
        assert!(r.denom >= 1);
        assert!(r.denom <= MAX_DENOM);
        i += 1;
    }
}

#[test]
fn result_lies_near_the_target() {
    let mut i: u32 = 1;
    while i < 500 {
        let x = i as f64 / 211.0;
        let r = get_approximate_rational(value(x));
        let diff = (r.numer as f64 / r.denom as f64 - x).abs();
        assert!(diff <= 1.0 / (MAX_DENOM as f64));
        i += 1;
    }
}

fn gcd(a: i32, b: i32) -> i32 {
    if b == 0 {
        a
    } else {
        gcd(b, a % b)
    }
}

#[test]
fn ratios_within_the_bound_are_recovered() {
    for q in 1..=200 {
        for p in 0..=5 * q {
            let g = gcd(p, q);
            assert_eq!(approximate(p as f64 / q as f64), (p / g, q / g));
        }
    }
}

#[test]
fn lower_denominator_landing_on_the_bound_takes_the_nearer_end() {
    assert_eq!(approximate(200.0 / 201.0), (199, 200));
    assert_eq!(approximate(102413.0 / 200.0), (102413, 200));
    assert_eq!(approximate(1.0 / 201.0), (1, 200));
}
