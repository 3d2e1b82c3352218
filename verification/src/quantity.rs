//! The scale on which distances and thresholds are weighed.
//!
//! A threshold arrives as a binary32 number, and so does the colour
//! difference that a perceptual distance is made of. Neither is ever
//! rounded here: both are counted in units of `1 / (5100 * 2^149)`, in
//! which every finite binary32 number and every alpha gap is whole. In
//! these units one `2^-149` step of a threshold weighs 5100, one such step
//! of colour difference weighs 51, an alpha gap of one weighs `20 * 2^149`,
//! and the distance one is `5100 * 2^149`.

use vstd::prelude::*;
use vstd::arithmetic::power2::{lemma_pow2_pos, pow2};
use crate::binary32::{reading_of, Reading, UNIT_SHIFT};
use crate::dyadic::{balance_of, weigh_sum, Balance, MANTISSA_LIMIT};

verus! {

/// The weight, in units, of one `2^-149` step of colour difference.
pub const COLOUR_WEIGHT: u64 = 51;

/// The weight, in units of `2^149`, of an alpha gap of one.
pub const ALPHA_WEIGHT: u64 = 20;

/// The weight, in units, of one `2^-149` step of a threshold.
pub const FULL_SCALE: u64 = 5100;

/// The distance 0.05, in units of `2^149`: two pixels closer than this
/// count as the same colour when looking for a shifted neighbour.
pub const CLOSE_LIMIT: u64 = 255;

/// A value on the distance scale: a whole number of units, an infinity,
/// or nothing that can be ordered.
pub enum Quantity {
    /// Not a number: neither below nor above anything.
    Undefined,
    /// Below every number.
    NegInfinity,
    /// A whole number of units.
    Finite(int),
    /// Above every number.
    Infinity,
}

impl Quantity {
    /// The quantity taken `factor` times, for a positive factor.
    pub open spec fn times(self, factor: int) -> Quantity {
        match self {
            Quantity::Finite(units) => Quantity::Finite(factor * units),
            other => other,
        }
    }

    /// How this quantity stands to another one; nothing where either is
    /// undefined.
    pub open spec fn against(self, other: Quantity) -> Option<Balance> {
        match (self, other) {
            (Quantity::Undefined, _) => None,
            (_, Quantity::Undefined) => None,
            (Quantity::NegInfinity, Quantity::NegInfinity) => Some(Balance::Level),
            (Quantity::Infinity, Quantity::Infinity) => Some(Balance::Level),
            (Quantity::NegInfinity, _) => Some(Balance::Below),
            (_, Quantity::Infinity) => Some(Balance::Below),
            (Quantity::Infinity, _) => Some(Balance::Above),
            (_, Quantity::NegInfinity) => Some(Balance::Above),
            (Quantity::Finite(mine), Quantity::Finite(theirs)) => Some(balance_of(mine - theirs)),
        }
    }

    /// Strictly below: false wherever either side is undefined.
    pub open spec fn below(self, other: Quantity) -> bool {
        self.against(other) == Some(Balance::Below)
    }

    /// Below or equal: false wherever either side is undefined.
    pub open spec fn at_most(self, other: Quantity) -> bool {
        self.against(other) == Some(Balance::Below) || self.against(other) == Some(Balance::Level)
    }

    /// The distance nought.
    pub open spec fn zero() -> Quantity {
        Quantity::Finite(0)
    }

    /// The distance 0.05.
    pub open spec fn close_limit() -> Quantity {
        Quantity::Finite(CLOSE_LIMIT * pow2(UNIT_SHIFT as nat))
    }
}

/// The quantity `weight * number + offset`, for a binary32 reading of the
/// number and a positive weight.
pub open spec fn weighted(reading: Reading, weight: int, offset: int) -> Quantity {
    match reading {
        Reading::NotANumber => Quantity::Undefined,
        Reading::Infinite { negative } => if negative {
            Quantity::NegInfinity
        } else {
            Quantity::Infinity
        },
        Reading::Finite { negative, mantissa, shift } => Quantity::Finite(
            weight * reading.steps() + offset,
        ),
    }
}

/// Taking a weighted quantity several times multiplies weight and offset.
pub proof fn lemma_weighted_times(reading: Reading, weight: int, offset: int, factor: int)
    ensures
        weighted(reading, weight, offset).times(factor) == weighted(
            reading,
            factor * weight,
            factor * offset,
        ),
{
    let steps = reading.steps();
    assert(factor * (weight * steps + offset) == (factor * weight) * steps + factor * offset)
        by (nonlinear_arith);
}

/// Weighs `weight * number + extra` against `other_weight * other_number`,
/// where the two numbers are binary32 readings and `extra` counts whole
/// ones. Nothing comes back where either reading is not a number.
pub(crate) fn weigh_readings(
    number: Reading,
    weight: u64,
    extra: u64,
    other_number: Reading,
    other_weight: u64,
) -> (balance: Option<Balance>)
    requires
        number is Finite ==> number.is_regular(),
        other_number is Finite ==> other_number.is_regular(),
        1 <= weight <= 0x8000,
        1 <= other_weight <= 0x8000,
        extra < MANTISSA_LIMIT,
    ensures
        balance == weighted(number, weight as int, extra * pow2(UNIT_SHIFT as nat)).against(
            weighted(other_number, other_weight as int, 0),
        ),
{
    match (number, other_number) {
        (Reading::NotANumber, _) => None,
        (_, Reading::NotANumber) => None,
        (Reading::Infinite { negative }, Reading::Infinite { negative: other_negative }) => {
            if negative == other_negative {
                Some(Balance::Level)
            } else if negative {
                Some(Balance::Below)
            } else {
                Some(Balance::Above)
            }
        },
        (Reading::Infinite { negative }, Reading::Finite { .. }) => {
            if negative {
                Some(Balance::Below)
            } else {
                Some(Balance::Above)
            }
        },
        (Reading::Finite { .. }, Reading::Infinite { negative: other_negative }) => {
            if other_negative {
                Some(Balance::Above)
            } else {
                Some(Balance::Below)
            }
        },
        (
            Reading::Finite { negative, mantissa, shift },
            Reading::Finite {
                negative: other_negative,
                mantissa: other_mantissa,
                shift: other_shift,
            },
        ) => {
            assert(weight * mantissa < 0x8000 * 0x100_0000 + 1) by (nonlinear_arith)
                requires
                    0 <= weight <= 0x8000,
                    0 <= mantissa < 0x100_0000,
            ;
            assert(other_weight * other_mantissa < 0x8000 * 0x100_0000 + 1) by (nonlinear_arith)
                requires
                    0 <= other_weight <= 0x8000,
                    0 <= other_mantissa < 0x100_0000,
            ;
            let mine: u64 = weight * (mantissa as u64);
            let theirs: u64 = other_weight * (other_mantissa as u64);
            proof {
                let grain = pow2(shift as nat) as int;
                let other_grain = pow2(other_shift as nat) as int;
                lemma_pow2_pos(shift as nat);
                lemma_pow2_pos(other_shift as nat);
                lemma_pow2_pos(UNIT_SHIFT as nat);
                assert(weight * (mantissa * grain) == mine * grain) by (nonlinear_arith)
                    requires
                        mine == weight * mantissa,
                ;
                assert(weight * (-(mantissa * grain)) == -(mine * grain)) by (nonlinear_arith)
                    requires
                        mine == weight * mantissa,
                ;
                assert(other_weight * (other_mantissa * other_grain) == theirs * other_grain)
                    by (nonlinear_arith)
                    requires
                        theirs == other_weight * other_mantissa,
                ;
                assert(other_weight * (-(other_mantissa * other_grain)) == -(theirs * other_grain))
                    by (nonlinear_arith)
                    requires
                        theirs == other_weight * other_mantissa,
                ;
                assert(mine * grain >= 0 && (mine > 0 ==> mine * grain > 0) && (mine == 0
                    ==> mine * grain == 0)) by (nonlinear_arith)
                    requires
                        mine >= 0,
                        grain > 0,
                ;
                assert(theirs * other_grain >= 0 && (theirs > 0 ==> theirs * other_grain > 0) && (
                theirs == 0 ==> theirs * other_grain == 0)) by (nonlinear_arith)
                    requires
                        theirs >= 0,
                        other_grain > 0,
                ;
                let one = pow2(UNIT_SHIFT as nat) as int;
                assert(extra * one >= 0 && (extra > 0 ==> extra * one > 0) && (extra == 0 ==> extra
                    * one == 0)) by (nonlinear_arith)
                    requires
                        extra >= 0,
                        one > 0,
                ;
            }
            if !negative && !other_negative {
                Some(weigh_sum(mine, shift, extra, UNIT_SHIFT, theirs, other_shift))
            } else if !negative && other_negative {
                if mine > 0 || extra > 0 || theirs > 0 {
                    Some(Balance::Above)
                } else {
                    Some(Balance::Level)
                }
            } else if negative && !other_negative {
                let turned = weigh_sum(mine, shift, theirs, other_shift, extra, UNIT_SHIFT);
                Some(turned.reversed())
            } else {
                Some(weigh_sum(theirs, other_shift, extra, UNIT_SHIFT, mine, shift))
            }
        },
    }
}

/// The threshold above which two pixels count as different, given as
/// the bit pattern of a binary32 number. Any pattern is accepted: a
/// not-a-number is exceeded by nothing, a negative threshold by every
/// distance that is a number.
#[derive(Clone, Copy, Debug)]
pub struct Threshold {
    pub bits: u32,
}

impl View for Threshold {
    type V = Quantity;

    /// The threshold on the distance scale.
    open spec fn view(&self) -> Quantity {
        weighted(reading_of(self.bits), FULL_SCALE as int, 0)
    }
}

impl Threshold {
    /// The threshold with the given binary32 bit pattern.
    pub fn from_bits(bits: u32) -> (threshold: Threshold)
        ensures
            threshold.bits == bits,
    {
        Threshold { bits }
    }
}

} // verus!
