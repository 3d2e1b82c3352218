//! Reading IEEE 754 binary32 bit patterns as exact numbers.
//!
//! Every finite binary32 number is a whole multiple of `2^-149`. A pattern
//! is read here as its sign, a mantissa below `2^24` and a shift, so that
//! the number's magnitude is `mantissa * 2^shift` steps of `2^-149`.

use vstd::prelude::*;
use vstd::arithmetic::power2::pow2;

verus! {

/// The binary exponent of the smallest step: a finite pattern counts
/// multiples of `2^-149`, so the number one is `2^149` steps.
pub const UNIT_SHIFT: u32 = 149;

/// What a binary32 bit pattern encodes.
#[derive(Clone, Copy, Debug, PartialEq, Eq, Structural)]
pub enum Reading {
    /// No number at all.
    NotANumber,
    /// An infinity, with its sign.
    Infinite { negative: bool },
    /// The finite number `mantissa * 2^shift * 2^-149`, with its sign.
    Finite { negative: bool, mantissa: u32, shift: u32 },
}

/// The eight exponent bits of a pattern.
pub open spec fn exponent_field(bits: u32) -> int {
    (bits as int / 0x80_0000) % 0x100
}

/// The twenty-three fraction bits of a pattern.
pub open spec fn fraction_field(bits: u32) -> int {
    bits as int % 0x80_0000
}

/// The sign bit of a pattern.
pub open spec fn sign_bit(bits: u32) -> bool {
    bits >= 0x8000_0000
}

/// What the pattern `bits` encodes: all ones in the exponent mark an
/// infinity or a not-a-number, all zeros a subnormal without the hidden
/// bit, anything else a normal number.
pub open spec fn reading_of(bits: u32) -> Reading {
    let exponent = exponent_field(bits);
    let fraction = fraction_field(bits);
    if exponent == 0xff {
        if fraction == 0 {
            Reading::Infinite { negative: sign_bit(bits) }
        } else {
            Reading::NotANumber
        }
    } else if exponent == 0 {
        Reading::Finite { negative: sign_bit(bits), mantissa: fraction as u32, shift: 0 }
    } else {
        Reading::Finite {
            negative: sign_bit(bits),
            mantissa: (fraction + 0x80_0000) as u32,
            shift: (exponent - 1) as u32,
        }
    }
}

impl Reading {
    /// A finite reading within the bounds of the format.
    pub open spec fn is_regular(self) -> bool {
        match self {
            Reading::Finite { negative, mantissa, shift } => mantissa < 0x100_0000 && shift <= 253,
            _ => false,
        }
    }

    /// The number of `2^-149` steps in a finite reading, without its sign.
    pub open spec fn magnitude(self) -> int {
        match self {
            Reading::Finite { negative, mantissa, shift } => mantissa * pow2(shift as nat),
            _ => 0,
        }
    }

    /// The number of `2^-149` steps in a finite reading, with its sign.
    pub open spec fn steps(self) -> int {
        match self {
            Reading::Finite { negative, mantissa, shift } => if negative {
                -self.magnitude()
            } else {
                self.magnitude()
            },
            _ => 0,
        }
    }
}

/// Reads a binary32 bit pattern.
pub fn decode(bits: u32) -> (reading: Reading)
    ensures
        reading == reading_of(bits),
        reading is Finite ==> reading.is_regular(),
{
    let exponent: u32 = (bits / 0x80_0000) % 0x100;
    let fraction: u32 = bits % 0x80_0000;
    let negative = bits >= 0x8000_0000;
    if exponent == 0xff {
        if fraction == 0 {
            Reading::Infinite { negative }
        } else {
            Reading::NotANumber
        }
    } else if exponent == 0 {
        Reading::Finite { negative, mantissa: fraction, shift: 0 }
    } else {
        Reading::Finite { negative, mantissa: fraction + 0x80_0000, shift: exponent - 1 }
    }
}

} // verus!
