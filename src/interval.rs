//! A musical interval, held either as cents or as a frequency ratio.
//!
//! Cents are binary64 values held by their encoding. The logarithm and the
//! exponential that take one form to the other are computed by the caller in
//! binary64 and handed in; what follows from them is decided here.

use vstd::prelude::*;
use crate::binary64::Binary64;
use crate::fraction::{
    Fraction, lowest_terms, sign_normalizes, lemma_lowest_terms_fit, lemma_lowest_terms_value,
    ratio_new,
};
use crate::approx::{approximable, approximation, get_approximate_rational};

verus! {

/// Why an interval could not be formed.
#[derive(Clone, Copy, Debug, PartialEq, Eq, Structural)]
pub enum InvalidInterval {
    NonFiniteCents,
    ZeroDenominator,
}

/// An interval: a number of cents (1200 to the octave), or a ratio of
/// frequencies.
#[derive(Clone, Copy, Debug, PartialEq, Eq, Structural)]
pub enum TuningInterval {
    Cents(Binary64),
    Ratio(Fraction),
}

/// The interval of `cents`, when `cents` is finite.
pub open spec fn cents_interval(cents: Binary64) -> Result<TuningInterval, InvalidInterval> {
    if cents.finite() {
        Ok(TuningInterval::Cents(cents))
    } else {
        Err(InvalidInterval::NonFiniteCents)
    }
}

/// The ratio is above zero.
pub open spec fn positive(f: Fraction) -> bool {
    (f.numer > 0 && f.denom > 0) || (f.numer < 0 && f.denom < 0)
}

impl TuningInterval {
    pub open spec fn wf(self) -> bool {
        match self {
            TuningInterval::Cents(c) => c.finite(),
            TuningInterval::Ratio(f) => f.denom != 0,
        }
    }

    /// The cents form, given the cents `ratio_cents` that a ratio measures.
    pub open spec fn converted_to_cents(self, ratio_cents: Binary64) -> Result<
        TuningInterval,
        InvalidInterval,
    > {
        match self {
            TuningInterval::Cents(_) => Ok(self),
            TuningInterval::Ratio(f) => if positive(f) {
                cents_interval(ratio_cents)
            } else {
                Err(InvalidInterval::NonFiniteCents)
            },
        }
    }

    /// The ratio form, given the proportion `2^(cents / 1200)` of a cents value.
    pub open spec fn converted_to_ratio(self, proportion: Binary64) -> TuningInterval {
        match self {
            TuningInterval::Cents(_) => TuningInterval::Ratio(
                Fraction {
                    numer: approximation(proportion).0 as i32,
                    denom: approximation(proportion).1 as i32,
                },
            ),
            TuningInterval::Ratio(_) => self,
        }
    }

    /// An interval of `cents`; an infinity or a NaN is refused.
    pub fn new_cents(cents: Binary64) -> (r: Result<Self, InvalidInterval>)
        ensures
            r == cents_interval(cents),
            r is Err <==> !cents.finite(),
            r matches Ok(v) ==> v.wf(),
    {
        if cents.is_finite() {
            Ok(TuningInterval::Cents(cents))
        } else {
            Err(InvalidInterval::NonFiniteCents)
        }
    }

    /// The interval `numer / denom`; a zero denominator is refused. It is
    /// held in lowest terms with a positive denominator, except where moving
    /// the sign could meet `i32::MIN`: then the terms are held as given.
    pub fn new_ratio(numer: i32, denom: i32) -> (r: Result<Self, InvalidInterval>)
        ensures
            r is Err <==> denom == 0,
            r matches Ok(TuningInterval::Ratio(f)) ==> f.numer * denom == numer * f.denom,
            match r {
                Ok(TuningInterval::Ratio(f)) => if sign_normalizes(numer as int, denom as int) {
                    f.has_terms(lowest_terms(numer as int, denom as int))
                } else {
                    f.numer == numer && f.denom == denom
                },
                Ok(TuningInterval::Cents(_)) => false,
                Err(e) => e == InvalidInterval::ZeroDenominator,
            },
    {
        if denom == 0 {
            Err(InvalidInterval::ZeroDenominator)
        } else if denom < 0 && (numer == i32::MIN || denom == i32::MIN) {
            Ok(TuningInterval::Ratio(Fraction { numer, denom }))
        } else {
            proof {
                lemma_lowest_terms_fit(numer as int, denom as int);
                lemma_lowest_terms_value(numer as int, denom as int);
            }
            Ok(TuningInterval::Ratio(ratio_new(numer, denom)))
        }
    }

    /// The cents form. A cents value stays as it is. A ratio takes
    /// `ratio_cents`, its binary-logarithm times 1200, when the ratio is above
    /// zero and `ratio_cents` is finite; otherwise it has no cents.
    pub fn to_cents(self, ratio_cents: Binary64) -> (r: Result<Self, InvalidInterval>)
        ensures
            r == self.converted_to_cents(ratio_cents),
    {
        match self {
            TuningInterval::Cents(_) => Ok(self),
            TuningInterval::Ratio(f) => {
                if (f.numer > 0 && f.denom > 0) || (f.numer < 0 && f.denom < 0) {
                    Self::new_cents(ratio_cents)
                } else {
                    Err(InvalidInterval::NonFiniteCents)
                }
            },
        }
    }

    /// The ratio form. A ratio stays as it is. A cents value becomes the
    /// approximation of `proportion`, its frequency proportion.
    pub fn to_ratio(self, proportion: Binary64) -> (r: Self)
        requires
            self is Cents ==> approximable(proportion),
        ensures
            r == self.converted_to_ratio(proportion),
            r is Ratio,
    {
        match self {
            TuningInterval::Cents(_) => TuningInterval::Ratio(get_approximate_rational(proportion)),
            TuningInterval::Ratio(_) => self,
        }
    }
}

/// Converting to cents a second time changes nothing.
pub proof fn lemma_to_cents_idempotent(v: TuningInterval, first: Binary64, second: Binary64)
    ensures
        v.converted_to_cents(first) matches Ok(w) ==> w.converted_to_cents(second) == Ok::<
            TuningInterval,
            InvalidInterval,
        >(w),
{
}

/// Converting to a ratio a second time changes nothing.
pub proof fn lemma_to_ratio_idempotent(v: TuningInterval, first: Binary64, second: Binary64)
    ensures
        v.converted_to_ratio(first).converted_to_ratio(second) == v.converted_to_ratio(first),
{
}

} // verus!
