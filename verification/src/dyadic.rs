//! Exact comparison of dyadic numbers: whole multiples of powers of two,
//! held as a mantissa and a binary exponent.

use vstd::prelude::*;
use vstd::assert_by_contradiction;
use vstd::arithmetic::power2::{
    lemma2_to64,
    lemma2_to64_rest,
    lemma_pow2_adds,
    lemma_pow2_pos,
    lemma_pow2_strictly_increases,
    lemma_pow2_unfold,
    pow2,
};

verus! {

/// How a first number stands to a second one.
#[derive(Clone, Copy, Debug, PartialEq, Eq, Structural)]
pub enum Balance {
    /// The first is smaller.
    Below,
    /// The two are equal.
    Level,
    /// The first is larger.
    Above,
}

/// The balance of two numbers, read off the sign of their difference.
pub open spec fn balance_of(difference: int) -> Balance {
    if difference < 0 {
        Balance::Below
    } else if difference == 0 {
        Balance::Level
    } else {
        Balance::Above
    }
}

/// Mantissas handed to [`weigh_sum`] stay below this bound, `2^40`.
pub const MANTISSA_LIMIT: u64 = 0x100_0000_0000;

impl Balance {
    /// The balance seen from the other side.
    pub open spec fn mirror(self) -> Balance {
        match self {
            Balance::Below => Balance::Above,
            Balance::Level => Balance::Level,
            Balance::Above => Balance::Below,
        }
    }

    /// Swaps the roles of the two numbers.
    pub fn reversed(self) -> (turned: Balance)
        ensures
            turned == self.mirror(),
    {
        match self {
            Balance::Below => Balance::Above,
            Balance::Level => Balance::Level,
            Balance::Above => Balance::Below,
        }
    }
}

/// Scaling a difference by a positive factor keeps its sign.
pub proof fn lemma_balance_scales(difference: int, factor: int)
    requires
        factor > 0,
    ensures
        balance_of(difference * factor) == balance_of(difference),
{
    assert(difference < 0 ==> difference * factor < 0) by (nonlinear_arith)
        requires
            factor > 0,
    ;
    assert(difference > 0 ==> difference * factor > 0) by (nonlinear_arith)
        requires
            factor > 0,
    ;
    assert(difference == 0 ==> difference * factor == 0) by (nonlinear_arith);
}

/// `2^(low + gap)` splits into `2^gap * 2^low`.
proof fn lemma_pow2_split(low: nat, gap: nat)
    ensures
        pow2(low + gap) == pow2(gap) * pow2(low),
        pow2(low) > 0,
        pow2(gap) > 0,
{
    lemma_pow2_adds(gap, low);
    lemma_pow2_pos(low);
    lemma_pow2_pos(gap);
}

/// Powers of two never decrease with the exponent.
proof fn lemma_pow2_monotone(small: nat, large: nat)
    requires
        small <= large,
    ensures
        pow2(small) <= pow2(large),
{
    if small < large {
        lemma_pow2_strictly_increases(small, large);
    }
}

/// The concrete powers of two that bound the mantissas.
proof fn lemma_pow2_landmarks()
    ensures
        pow2(39) == 0x80_0000_0000,
        pow2(40) == 0x100_0000_0000,
        pow2(80) == 0x1_0000_0000_0000_0000_0000,
        pow2(128) == 0x1_0000_0000_0000_0000_0000_0000_0000_0000,
{
    lemma2_to64();
    lemma2_to64_rest();
    lemma_pow2_adds(40, 40);
    lemma_pow2_adds(64, 64);
}

/// Shifting one to the left by fewer than 128 places gives the power
/// of two.
proof fn lemma_shifted_one_is_power(shift: u32)
    requires
        shift < 128,
    ensures
        (1u128 << shift) == pow2(shift as nat),
    decreases shift,
{
    if shift == 0 {
        assert((1u128 << 0u32) == 1u128) by (bit_vector);
        lemma2_to64();
    } else {
        let before = (shift - 1) as u32;
        lemma_shifted_one_is_power(before);
        assert((1u128 << shift) == 2 * (1u128 << before) && (1u128 << before)
            <= 0x4000_0000_0000_0000_0000_0000_0000_0000u128) by (bit_vector)
            requires
                0 < shift < 128,
                before == shift - 1,
        ;
        lemma_pow2_unfold(shift as nat);
    }
}

/// The power of two with the given exponent, below 128.
pub fn power_of_two(exponent: u32) -> (power: u128)
    requires
        exponent < 128,
    ensures
        power == pow2(exponent as nat),
{
    proof {
        lemma_shifted_one_is_power(exponent);
    }
    1u128 << exponent
}

/// `mantissa * 2^shift`, when that still fits in 128 bits.
pub fn scaled_up(mantissa: u128, shift: u32) -> (scaled: Option<u128>)
    ensures
        match scaled {
            Some(value) => value == mantissa * pow2(shift as nat),
            None => mantissa * pow2(shift as nat) > u128::MAX,
        },
{
    if mantissa == 0 {
        assert(0 * pow2(shift as nat) == 0) by (nonlinear_arith);
        return Some(0);
    }
    if shift >= 128 {
        proof {
            lemma_pow2_landmarks();
            lemma_pow2_monotone(128, shift as nat);
            assert(mantissa * pow2(shift as nat) >= pow2(128)) by (nonlinear_arith)
                requires
                    mantissa >= 1,
                    pow2(shift as nat) >= pow2(128),
            ;
        }
        return None;
    }
    mantissa.checked_mul(power_of_two(shift))
}

/// Weighs `first * 2^first_exp` against `second * 2^second_exp`.
pub fn weigh(first: u128, first_exp: u32, second: u128, second_exp: u32) -> (balance: Balance)
    ensures
        balance == balance_of(
            first * pow2(first_exp as nat) - second * pow2(second_exp as nat),
        ),
{
    if first_exp >= second_exp {
        let gap: u32 = first_exp - second_exp;
        let lifted = scaled_up(first, gap);
        proof {
            let low = pow2(second_exp as nat) as int;
            let high = pow2(gap as nat) as int;
            lemma_pow2_split(second_exp as nat, gap as nat);
            assert(first * (high * low) - second * low == (first * high - second) * low)
                by (nonlinear_arith);
            lemma_balance_scales(first * high - second, low);
        }
        match lifted {
            Some(value) => {
                if value < second {
                    Balance::Below
                } else if value == second {
                    Balance::Level
                } else {
                    Balance::Above
                }
            },
            None => Balance::Above,
        }
    } else {
        let gap: u32 = second_exp - first_exp;
        let lifted = scaled_up(second, gap);
        proof {
            let low = pow2(first_exp as nat) as int;
            let high = pow2(gap as nat) as int;
            lemma_pow2_split(first_exp as nat, gap as nat);
            assert(first * low - second * (high * low) == (first - second * high) * low)
                by (nonlinear_arith);
            lemma_balance_scales(first - second * high, low);
        }
        match lifted {
            Some(value) => {
                if first < value {
                    Balance::Below
                } else if first == value {
                    Balance::Level
                } else {
                    Balance::Above
                }
            },
            None => Balance::Below,
        }
    }
}

/// Where the leading term alone falls short of the other side, and the
/// trailing term lies more than eighty binary places below the leading
/// one, the trailing term cannot close the gap.
proof fn lemma_trailing_term_is_lost(
    lead: int,
    lead_exp: nat,
    trail: int,
    trail_exp: nat,
    other: int,
    other_exp: nat,
)
    requires
        1 <= lead,
        0 <= trail < MANTISSA_LIMIT,
        0 <= other < MANTISSA_LIMIT,
        trail_exp + 81 <= lead_exp,
        lead * pow2(lead_exp) < other * pow2(other_exp),
    ensures
        lead * pow2(lead_exp) + trail * pow2(trail_exp) < other * pow2(other_exp),
{
    lemma_pow2_landmarks();
    let top = pow2(lead_exp) as int;
    let far = pow2(other_exp) as int;
    lemma_pow2_pos(lead_exp);
    lemma_pow2_pos(other_exp);
    // The other side reaches past `2^lead_exp`, so its exponent is close.
    assert_by_contradiction!(other_exp + 40 > lead_exp, {
        lemma_pow2_adds(40, other_exp);
        lemma_pow2_monotone(40 + other_exp, lead_exp);
        assert(other * far <= pow2(40) * far) by (nonlinear_arith)
            requires
                other < pow2(40),
                far > 0,
        ;
        assert(top <= lead * top) by (nonlinear_arith)
            requires
                lead >= 1,
                top > 0,
        ;
    });
    let grain_exp = (lead_exp - 39) as nat;
    let grain = pow2(grain_exp) as int;
    lemma_pow2_pos(grain_exp);
    lemma_pow2_split(grain_exp, 39);
    assert(grain_exp + 39 == lead_exp);
    let rest = (other_exp - grain_exp) as nat;
    lemma_pow2_split(grain_exp, rest);
    assert(grain_exp + rest == other_exp);
    let lead_steps = lead * pow2(39);
    let other_steps = other * pow2(rest);
    assert(lead * top == lead_steps * grain) by (nonlinear_arith)
        requires
            top == pow2(39) * grain,
            lead_steps == lead * pow2(39),
    ;
    assert(other * far == other_steps * grain) by (nonlinear_arith)
        requires
            far == pow2(rest) * grain,
            other_steps == other * pow2(rest),
    ;
    assert(lead_steps < other_steps) by (nonlinear_arith)
        requires
            lead_steps * grain < other_steps * grain,
            grain > 0,
    ;
    assert(other_steps * grain - lead_steps * grain >= grain) by (nonlinear_arith)
        requires
            lead_steps + 1 <= other_steps,
            grain > 0,
    ;
    // The trailing term stays below one grain.
    let low = pow2(trail_exp) as int;
    lemma_pow2_pos(trail_exp);
    lemma_pow2_adds(40, trail_exp);
    lemma_pow2_strictly_increases(40 + trail_exp, grain_exp);
    assert(trail * low < pow2(40) * low) by (nonlinear_arith)
        requires
            0 <= trail < pow2(40),
            low > 0,
    ;
}

/// Weighs the sum `lead * 2^lead_exp + trail * 2^trail_exp`, whose leading
/// exponent is not the smaller one, against `other * 2^other_exp`.
fn weigh_ordered_sum(
    lead: u64,
    lead_exp: u32,
    trail: u64,
    trail_exp: u32,
    other: u64,
    other_exp: u32,
) -> (balance: Balance)
    requires
        lead < MANTISSA_LIMIT,
        trail < MANTISSA_LIMIT,
        other < MANTISSA_LIMIT,
        trail_exp <= lead_exp,
    ensures
        balance == balance_of(
            lead * pow2(lead_exp as nat) + trail * pow2(trail_exp as nat) - other * pow2(
                other_exp as nat,
            ),
        ),
{
    let gap: u32 = lead_exp - trail_exp;
    if gap <= 80 {
        proof {
            lemma_pow2_landmarks();
            lemma_pow2_monotone(gap as nat, 80);
            lemma_pow2_split(trail_exp as nat, gap as nat);
            let low = pow2(trail_exp as nat) as int;
            let high = pow2(gap as nat) as int;
            assert(lead * high <= MANTISSA_LIMIT * pow2(80)) by (nonlinear_arith)
                requires
                    0 <= lead < MANTISSA_LIMIT,
                    0 < high <= pow2(80),
            ;
            assert(lead * (high * low) + trail * low == (lead * high + trail) * low)
                by (nonlinear_arith);
        }
        let whole: u128 = (lead as u128) * power_of_two(gap) + trail as u128;
        weigh(whole, trail_exp, other as u128, other_exp)
    } else if lead == 0 {
        proof {
            assert(0 * pow2(lead_exp as nat) == 0) by (nonlinear_arith);
        }
        weigh(trail as u128, trail_exp, other as u128, other_exp)
    } else {
        let leading = weigh(lead as u128, lead_exp, other as u128, other_exp);
        proof {
            lemma_pow2_pos(trail_exp as nat);
            assert(trail * pow2(trail_exp as nat) >= 0) by (nonlinear_arith)
                requires
                    trail >= 0,
                    pow2(trail_exp as nat) > 0,
            ;
            assert(trail > 0 ==> trail * pow2(trail_exp as nat) > 0) by (nonlinear_arith)
                requires
                    pow2(trail_exp as nat) > 0,
            ;
            assert(trail == 0 ==> trail * pow2(trail_exp as nat) == 0) by (nonlinear_arith);
            if leading == Balance::Below {
                lemma_trailing_term_is_lost(
                    lead as int,
                    lead_exp as nat,
                    trail as int,
                    trail_exp as nat,
                    other as int,
                    other_exp as nat,
                );
            }
        }
        match leading {
            Balance::Below => Balance::Below,
            Balance::Level => if trail > 0 {
                Balance::Above
            } else {
                Balance::Level
            },
            Balance::Above => Balance::Above,
        }
    }
}

/// Weighs the sum `first * 2^first_exp + second * 2^second_exp` against
/// `other * 2^other_exp`, exactly, whatever the three exponents are.
pub fn weigh_sum(
    first: u64,
    first_exp: u32,
    second: u64,
    second_exp: u32,
    other: u64,
    other_exp: u32,
) -> (balance: Balance)
    requires
        first < MANTISSA_LIMIT,
        second < MANTISSA_LIMIT,
        other < MANTISSA_LIMIT,
    ensures
        balance == balance_of(
            first * pow2(first_exp as nat) + second * pow2(second_exp as nat) - other * pow2(
                other_exp as nat,
            ),
        ),
{
    if first_exp >= second_exp {
        weigh_ordered_sum(first, first_exp, second, second_exp, other, other_exp)
    } else {
        weigh_ordered_sum(second, second_exp, first, first_exp, other, other_exp)
    }
}

} // verus!
