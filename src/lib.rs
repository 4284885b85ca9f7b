//! Parsing of fixed-point literals: text in base 2, 8, 10 or 16 becomes the
//! raw bits of a fixed-point number of 8 to 128 bits, rounded to nearest
//! with halves up, with exact overflow detection.
use vstd::prelude::*;

pub mod convert;
pub mod digits;
pub mod fraction;
pub mod rounding;
pub mod tokenizer;
pub mod wide;

verus! {

/// The widest raw value of any fixed-point type: an unsigned value may use
/// all 128 bits, a negative one lies in `-2^127 <= x < 0`.
pub enum Widest {
    Unsigned(u128),
    Negative(i128),
}

} // verus!
