use tuning::binary64::Binary64;
use tuning::fraction::Fraction;
use tuning::interval::{InvalidInterval, TuningInterval};

fn value(x: f64) -> Binary64 {
    Binary64 { bits: x.to_bits() }
}

fn cents_of_ratio(f: Fraction) -> Binary64 {
    value((f.numer as f64 / f.denom as f64).log2() * 1200.0)
}

fn proportion_of_cents(c: Binary64) -> Binary64 {
    value(2.0f64.powf(f64::from_bits(c.bits) / 1200.0))
}

fn cents_value(v: TuningInterval) -> f64 {
    match v {
        TuningInterval::Cents(c) => f64::from_bits(c.bits),
        TuningInterval::Ratio(_) => panic!("not cents"),
    }
}

fn ratio_value(v: TuningInterval) -> (i32, i32) {
    match v {
        TuningInterval::Ratio(f) => (f.numer, f.denom),
        TuningInterval::Cents(_) => panic!("not a ratio"),
    }
}

fn to_cents(v: TuningInterval) -> Result<TuningInterval, InvalidInterval> {
    match v {
        TuningInterval::Ratio(f) => v.to_cents(cents_of_ratio(f)),
        TuningInterval::Cents(c) => v.to_cents(c),
    }
}

fn to_ratio(v: TuningInterval) -> TuningInterval {
    match v {
        TuningInterval::Cents(c) => v.to_ratio(proportion_of_cents(c)),
        TuningInterval::Ratio(_) => v.to_ratio(value(1.0)),
    }
}

#[test]
fn cents_as_cents_is_identity() {
    let xs = vec![
        0.0,
        -0.0,
        0.7,
        1.0,
        3.14,
        f64::INFINITY,
        -f64::INFINITY,
        f64::MIN,
        f64::MAX - f64::MIN,
        f64::MIN_POSITIVE,
    ];

    for x in xs {
        match TuningInterval::new_cents(value(x)) {
            Ok(c) => assert_eq!(Ok(c), c.to_cents(value(f64::NAN))),
            Err(e) => {
                assert!(x.is_infinite());
                assert_eq!(e, InvalidInterval::NonFiniteCents);
            }
        }
    }
}

#[test]
fn cents_constructor_refuses_exactly_the_non_finite() {
    for x in [0.0, -0.0, 1e-310, -5.5, f64::MAX, f64::MIN, 701.955] {
        assert_eq!(TuningInterval::new_cents(value(x)), Ok(TuningInterval::Cents(value(x))));
    }
    for x in [f64::NAN, -f64::NAN, f64::INFINITY, f64::NEG_INFINITY] {
        assert_eq!(TuningInterval::new_cents(value(x)), Err(InvalidInterval::NonFiniteCents));
    }
}

#[test]
fn nan_cents_are_refused() {
    assert_eq!(
        TuningInterval::new_cents(value(f64::NAN)),
        Err(InvalidInterval::NonFiniteCents)
    );
}

#[test]
fn zero_denominator_is_refused() {
    assert_eq!(TuningInterval::new_ratio(5, 0), Err(InvalidInterval::ZeroDenominator));
    assert_eq!(TuningInterval::new_ratio(0, 0), Err(InvalidInterval::ZeroDenominator));
}

#[test]
fn ratio_constructor_reduces() {
    assert_eq!(ratio_value(TuningInterval::new_ratio(6, -4).unwrap()), (-3, 2));
    assert_eq!(ratio_value(TuningInterval::new_ratio(0, -5).unwrap()), (0, 1));
    assert_eq!(ratio_value(TuningInterval::new_ratio(-7, -7).unwrap()), (1, 1));
    assert_eq!(ratio_value(TuningInterval::new_ratio(3, 2).unwrap()), (3, 2));
    assert_eq!(ratio_value(TuningInterval::new_ratio(i32::MIN, 2).unwrap()), (-1073741824, 1));
}

#[test]
fn ratio_constructor_keeps_terms_that_cannot_change_sign() {
    assert_eq!(ratio_value(TuningInterval::new_ratio(i32::MIN, -1).unwrap()), (i32::MIN, -1));
    assert_eq!(ratio_value(TuningInterval::new_ratio(1, i32::MIN).unwrap()), (1, i32::MIN));
    assert_eq!(ratio_value(TuningInterval::new_ratio(i32::MIN, -3).unwrap()), (i32::MIN, -3));
    assert_eq!(ratio_value(TuningInterval::new_ratio(-6, 4).unwrap()), (-3, 2));
}

#[test]
fn fifth_in_cents() {
    let fifth = TuningInterval::new_ratio(3, 2).unwrap();
    let cents = cents_value(to_cents(fifth).unwrap());
    assert!((cents - 701.955).abs() < 1e-3);
}

#[test]
fn octave_cents_to_ratio() {
    let octave = TuningInterval::new_cents(value(1200.0)).unwrap();
    assert_eq!(ratio_value(to_ratio(octave)), (2, 1));
}

#[test]
fn fifth_cents_to_ratio() {
    let fifth = TuningInterval::new_cents(value(701.955)).unwrap();
    assert_eq!(ratio_value(to_ratio(fifth)), (3, 2));
}

#[test]
fn negative_ratio_has_no_cents() {
    let v = TuningInterval::new_ratio(-3, 2).unwrap();
    assert_eq!(to_cents(v), Err(InvalidInterval::NonFiniteCents));
    let zero = TuningInterval::new_ratio(0, 7).unwrap();
    assert_eq!(to_cents(zero), Err(InvalidInterval::NonFiniteCents));
}

#[test]
fn conversions_are_idempotent() {
    let r = TuningInterval::new_ratio(5, 4).unwrap();
    let c = to_cents(r).unwrap();
    assert_eq!(to_cents(c), Ok(c));
    let back = to_ratio(c);
    assert_eq!(to_ratio(back), back);
    assert_eq!(to_ratio(r), r);
    let d = TuningInterval::new_cents(value(386.3137)).unwrap();
    assert_eq!(to_cents(d), Ok(d));
}

#[test]
fn small_ratios_survive_a_round_trip() {
    for n in 1..=50 {
        for d in 1..=50 {
            let v = TuningInterval::new_ratio(n, d).unwrap();
            let back = ratio_value(to_ratio(to_cents(v).unwrap()));
            let expected = n as f64 / d as f64;
            let got = back.0 as f64 / back.1 as f64;
            assert!(((got - expected) / expected).abs() < 1e-9);
        }
    }
}
