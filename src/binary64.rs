//! A binary64 (IEEE 754 double precision) value held as its bit pattern, and
//! the exact split of a non-negative value into whole and fractional parts.

use vstd::prelude::*;
use vstd::arithmetic::power2::*;
use vstd::arithmetic::div_mod::*;
use vstd::arithmetic::mul::*;

verus! {

/// Two to the power of the width of the fraction field.
pub const HIDDEN_BIT: u64 = 0x10_0000_0000_0000;

/// The biased exponent that marks an infinity or a NaN.
pub const EXPONENT_ALL_ONES: u64 = 0x7ff;

/// A binary64 value, held as the 64 bits of its IEEE 754 encoding.
#[derive(Clone, Copy, Debug, PartialEq, Eq, Structural)]
pub struct Binary64 {
    pub bits: u64,
}

/// A non-negative number `num / 2^shift` below one.
#[derive(Clone, Copy, Debug, PartialEq, Eq, Structural)]
pub struct Dyadic {
    pub num: u64,
    pub shift: u32,
}

impl Dyadic {
    pub open spec fn wf(self) -> bool {
        &&& self.num < HIDDEN_BIT * 2
        &&& self.num < pow2(self.shift as nat)
    }
}

impl Binary64 {
    pub open spec fn sign_field(self) -> int {
        self.bits as int / 0x8000_0000_0000_0000
    }

    pub open spec fn exponent_field(self) -> int {
        (self.bits as int / HIDDEN_BIT as int) % 0x800
    }

    pub open spec fn fraction_field(self) -> int {
        self.bits as int % HIDDEN_BIT as int
    }

    /// Neither an infinity nor a NaN.
    pub open spec fn finite(self) -> bool {
        self.exponent_field() != EXPONENT_ALL_ONES
    }

    /// The integer significand: the magnitude is `significand * 2^scale`.
    pub open spec fn significand(self) -> int {
        if self.exponent_field() == 0 {
            self.fraction_field()
        } else {
            self.fraction_field() + HIDDEN_BIT
        }
    }

    pub open spec fn scale(self) -> int {
        if self.exponent_field() == 0 {
            -1074
        } else {
            self.exponent_field() - 1075
        }
    }

    /// Positive sign, or a zero of either sign.
    pub open spec fn nonnegative(self) -> bool {
        self.sign_field() == 0 || self.significand() == 0
    }

    /// The largest integer not above the magnitude.
    pub open spec fn whole_part(self) -> int {
        if self.scale() >= 0 {
            self.significand() * pow2(self.scale() as nat)
        } else {
            self.significand() / pow2((-self.scale()) as nat) as int
        }
    }

    /// The magnitude minus its whole part, exactly.
    pub open spec fn fraction_part(self) -> Dyadic {
        if self.scale() >= 0 {
            Dyadic { num: 0, shift: 0 }
        } else {
            Dyadic {
                num: (self.significand() % pow2((-self.scale()) as nat) as int) as u64,
                shift: (-self.scale()) as u32,
            }
        }
    }

    pub fn is_finite(self) -> (r: bool)
        ensures
            r == self.finite(),
    {
        self.bits / HIDDEN_BIT % 0x800 != EXPONENT_ALL_ONES
    }

    /// Splits a finite non-negative value into its whole part and the exact
    /// fraction that remains.
    pub fn split(self) -> (r: (i32, Dyadic))
        requires
            self.finite(),
            self.whole_part() <= i32::MAX,
        ensures
            r.0 >= 0,
            r.0 as int == self.whole_part(),
            r.1 == self.fraction_part(),
            r.1.wf(),
    {
        let exponent: u64 = self.bits / HIDDEN_BIT % 0x800;
        let fraction: u64 = self.bits % HIDDEN_BIT;
        let significand: u64 = if exponent == 0 { fraction } else { fraction + HIDDEN_BIT };
        assert(significand as int == self.significand());
        proof {
            lemma2_to64();
            lemma2_to64_rest();
        }
        assert(significand < HIDDEN_BIT * 2);
        if exponent >= 1075 {
            let scale: u64 = exponent - 1075;
            let mut whole: u64 = significand;
            let mut i: u64 = 0;
            while i < scale
                invariant
                    i <= scale,
                    scale as int == self.scale(),
                    significand as int == self.significand(),
                    whole as int == significand * pow2(i as nat),
                    self.whole_part() <= i32::MAX,
                decreases scale - i,
            {
                proof {
                    lemma_pow2_unfold((i + 1) as nat);
                    if i + 1 < scale {
                        lemma_pow2_strictly_increases((i + 1) as nat, scale as nat);
                    }
                    lemma_mul_inequality(
                        pow2((i + 1) as nat) as int,
                        pow2(scale as nat) as int,
                        significand as int,
                    );
                    lemma_mul_is_commutative(significand as int, pow2((i + 1) as nat) as int);
                    lemma_mul_is_commutative(significand as int, pow2(scale as nat) as int);
                    lemma_mul_is_associative(significand as int, pow2(i as nat) as int, 2);
                }
                whole = whole * 2;
                i = i + 1;
            }
            (whole as i32, Dyadic { num: 0, shift: 0 })
        } else {
            let shift: u64 = if exponent == 0 { 1074 } else { 1075 - exponent };
            assert(shift as int == -self.scale());
            if shift >= 64 {
                proof {
                    if shift > 53 {
                        lemma_pow2_strictly_increases(53, shift as nat);
                    }
                    lemma_pow2_pos(shift as nat);
                    lemma_small_mod(significand as nat, pow2(shift as nat));
                    lemma_basic_div(significand as int, pow2(shift as nat) as int);
                }
                (0, Dyadic { num: significand, shift: shift as u32 })
            } else {
                let mut unit: u64 = 1;
                let mut i: u64 = 0;
                while i < shift
                    invariant
                        i <= shift < 64,
                        unit as int == pow2(i as nat),
                        unit >= 1,
                    decreases shift - i,
                {
                    proof {
                        lemma_pow2_unfold((i + 1) as nat);
                        lemma_pow2_strictly_increases((i + 1) as nat, 64);
                        lemma2_to64();
                    }
                    unit = unit * 2;
                    i = i + 1;
                }
                proof {
                    lemma_mod_bound(significand as int, unit as int);
                    lemma_mod_decreases(significand as nat, unit as nat);
                }
                ((significand / unit) as i32, Dyadic { num: significand % unit, shift: shift as u32 })
            }
        }
    }
}

} // verus!
