//! Musical intervals held either as cents or as a frequency ratio, with the
//! conversion from a frequency proportion to the nearest small-denominator
//! ratio found by a bounded mediant search.

pub mod binary64;
pub mod fraction;
pub mod approx;
pub mod interval;
