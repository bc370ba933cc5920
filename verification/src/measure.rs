//! Measured quantities.
//!
//! Lengths, ratios and angles are measured by the caller in floating point. The
//! library sees each as an `Ordinal`, an integer that orders as the measured
//! number does: the bit pattern of a single precision number, negated below
//! zero. A measurement that gave no number at all is `None`; such a measure is
//! neither above nor below anything.

use vstd::arithmetic::power2::{lemma2_to64, pow2};
use vstd::prelude::*;

use crate::ordering::Ordinal;

verus! {

/// A measured number, or none.
pub type Measure = Option<Ordinal>;

/// The ordinal of 0.05.
pub const TWENTIETH: Ordinal = 0x3D4C_CCCD;

/// The ordinal of three degrees in radians.
pub const THREE_DEGREES: Ordinal = 0x3D56_7750;

/// The ordinal of 0.1.
pub const TENTH: Ordinal = 0x3DCC_CCCD;

/// The ordinal of 0.3.
pub const THREE_TENTHS: Ordinal = 0x3E99_999A;

/// The ordinal of 0.4.
pub const FOUR_TENTHS: Ordinal = 0x3ECC_CCCD;

/// The ordinal of 0.44.
pub const FORTY_FOUR_HUNDREDTHS: Ordinal = 0x3EE1_47AE;

/// The ordinal of 0.5.
pub const HALF: Ordinal = 0x3F00_0000;

/// The ordinal of 0.6.
pub const SIX_TENTHS: Ordinal = 0x3F19_999A;

/// The ordinal of 0.7.
pub const SEVEN_TENTHS: Ordinal = 0x3F33_3333;

/// The ordinal of an eighth of a turn in radians.
pub const EIGHTH_TURN: Ordinal = 0x3F49_0FDB;

/// The ordinal of 1.5.
pub const ONE_AND_A_HALF: Ordinal = 0x3FC0_0000;

/// The ordinal of 15.
pub const FIFTEEN: Ordinal = 0x4170_0000;

/// The ordinal of 30.
pub const THIRTY: Ordinal = 0x41F0_0000;

/// The ordinal of 40.
pub const FORTY: Ordinal = 0x4220_0000;

/// The ordinal of 60.
pub const SIXTY: Ordinal = 0x4270_0000;

/// The ordinal of 120.
pub const HUNDRED_AND_TWENTY: Ordinal = 0x42F0_0000;

/// The ordinal of 150.
pub const HUNDRED_AND_FIFTY: Ordinal = 0x4316_0000;

/// The ordinal of 165.
pub const HUNDRED_AND_SIXTY_FIVE: Ordinal = 0x4325_0000;

/// The ordinal of the largest finite number.
pub const LARGEST: Ordinal = 0x7F7F_FFFF;

/// `a` is a number above the number `b`.
pub open spec fn exceeds(a: Measure, b: Measure) -> bool {
    a is Some && b is Some && a->0 > b->0
}

/// `a` is a number that is at least the number `b`.
pub open spec fn reaches(a: Measure, b: Measure) -> bool {
    a is Some && b is Some && a->0 >= b->0
}

/// The larger of two measures; one that is no number gives way to the other.
pub open spec fn larger(a: Measure, b: Measure) -> Measure {
    if a is None || exceeds(b, a) {
        b
    } else {
        a
    }
}

/// Tells whether `a` is a number above the number `b`.
pub fn is_above(a: Measure, b: Measure) -> (above: bool)
    ensures
        above == exceeds(a, b),
{
    match (a, b) {
        (Some(x), Some(y)) => x > y,
        _ => false,
    }
}

/// Tells whether `a` is a number that is at least the number `b`.
pub fn is_at_least(a: Measure, b: Measure) -> (at_least: bool)
    ensures
        at_least == reaches(a, b),
{
    match (a, b) {
        (Some(x), Some(y)) => x >= y,
        _ => false,
    }
}

/// The larger of two measures.
pub fn larger_of(a: Measure, b: Measure) -> (larger_one: Measure)
    ensures
        larger_one == larger(a, b),
{
    if a.is_none() || is_above(b, a) {
        b
    } else {
        a
    }
}

/// Of two numbers either one is above the other or they are equal; what is no
/// number compares with nothing.
pub proof fn law_numbers_compare(a: Ordinal, b: Ordinal, m: Measure)
    ensures
        exceeds(Some(a), Some(b)) <==> !reaches(Some(b), Some(a)),
        exceeds(Some(a), Some(b)) || exceeds(Some(b), Some(a)) || a == b,
        !exceeds(Some(a), Some(a)) && reaches(Some(a), Some(a)),
        a < i32::MAX ==> exceeds(Some((a + 1) as Ordinal), Some(a)),
        !exceeds(None, m) && !exceeds(m, None) && !reaches(None, m) && !reaches(m, None),
{
}

/// The larger of two measures is one of them and no number is above it; it is no
/// number only if neither is.
pub proof fn law_larger_is_above_both(a: Measure, b: Measure)
    ensures
        larger(a, b) == a || larger(a, b) == b,
        forall|x: Ordinal| a == Some(x) || b == Some(x) ==> larger(a, b) is Some && larger(a, b)->0 >= x,
{
}

/// The positive number with this ordinal is the single precision number nearest to
/// `above / below`: the ordinal's upper bits are the exponent, to the base two and
/// offset by 150, of a mantissa of twenty-four bits, of which the ordinal holds all
/// but the first.
pub open spec fn is_nearest(o: Ordinal, above: int, below: int) -> bool {
    let exponent = o as int / 0x80_0000;
    let mantissa = o as int % 0x80_0000 + 0x80_0000;
    let target = above * pow2((150 - exponent) as nat);
    &&& 0 < o
    &&& exponent <= 150
    &&& -below <= 2 * (mantissa * below - target) <= below
}

/// The fractions and numbers that measures are compared with are what their names
/// say, to the nearest single precision number.
pub proof fn law_limits_are_nearest()
    ensures
        is_nearest(TWENTIETH, 1, 20),
        is_nearest(TENTH, 1, 10),
        is_nearest(THREE_TENTHS, 3, 10),
        is_nearest(FOUR_TENTHS, 4, 10),
        is_nearest(FORTY_FOUR_HUNDREDTHS, 44, 100),
        is_nearest(HALF, 1, 2),
        is_nearest(SIX_TENTHS, 6, 10),
        is_nearest(SEVEN_TENTHS, 7, 10),
        is_nearest(ONE_AND_A_HALF, 3, 2),
        is_nearest(FIFTEEN, 15, 1),
        is_nearest(THIRTY, 30, 1),
        is_nearest(FORTY, 40, 1),
        is_nearest(SIXTY, 60, 1),
        is_nearest(HUNDRED_AND_TWENTY, 120, 1),
        is_nearest(HUNDRED_AND_FIFTY, 150, 1),
        is_nearest(HUNDRED_AND_SIXTY_FIVE, 165, 1),
{
    lemma2_to64();
}

} // verus!
