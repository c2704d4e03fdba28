use crate::ordering::{
    is_finite, magnitude_bits, scaled_magnitude, FRACTION_RANGE, INFINITY_BITS, SIGN_BIT,
};
use vstd::arithmetic::div_mod::{
    lemma_div_multiples_vanish_quotient, lemma_fundamental_div_mod, lemma_fundamental_div_mod_converse,
};
use vstd::arithmetic::power2::{
    lemma2_to64, lemma2_to64_rest, lemma_pow2_adds, lemma_pow2_pos, lemma_pow2_strictly_increases,
    lemma_pow2_unfold, pow2,
};
use vstd::prelude::*;

verus! {

/// `halves / 2^1075`, rounded to the nearest integer, a half being rounded
/// up: the number of units in an absolute value of which
/// `steps = halves / 2` is the multiple of `2^-1074` of a unit.
pub open spec fn rounded_steps(steps: int) -> int {
    (2 * steps + pow2(1074)) / (pow2(1075) as int)
}

/// The binary64 value with bit pattern `bits`, counted in parts of which
/// `unit` make one, rounded to the nearest count and away from zero where
/// it lies half-way.
pub open spec fn rounded_count(bits: u64, unit: u64) -> int {
    let count = rounded_steps(scaled_magnitude(magnitude_bits(bits)) * unit);
    if bits >= SIGN_BIT {
        -count
    } else {
        count
    }
}

/// `rounded_steps` rounds to the nearest unit: the rounded count, taken
/// back to steps of `2^-1074`, is at most half a unit away from `steps`, and
/// less than half a unit above it.
pub proof fn lemma_rounded_steps_nearest(steps: int)
    ensures
        ({
            let unit = pow2(1074) as int;
            let back = rounded_steps(steps) * unit;
            2 * steps - unit < 2 * back <= 2 * steps + unit
        }),
{
    let unit = pow2(1074) as int;
    let twice = pow2(1075) as int;
    lemma_pow2_pos(1074);
    lemma_pow2_unfold(1075);
    lemma_fundamental_div_mod(2 * steps + unit, twice);
    let count = rounded_steps(steps);
    assert(twice * count == 2 * (count * unit)) by (nonlinear_arith)
        requires
            twice == 2 * unit,
    ;
}

/// Two to the power of 117, as a number.
proof fn lemma_pow2_117()
    ensures
        pow2(117) == 0x20_0000_0000_0000_0000_0000_0000_0000,
        pow2(63) == 0x8000_0000_0000_0000,
{
    lemma2_to64();
    lemma2_to64_rest();
    lemma_pow2_adds(64, 53);
}

/// Two to the power of `exponent`.
fn power_of_two(exponent: u64) -> (power: u128)
    requires
        exponent <= 117,
    ensures
        power == pow2(exponent as nat),
        1 <= power <= 0x20_0000_0000_0000_0000_0000_0000_0000,
{
    let mut power: u128 = 1;
    let mut t: u64 = 0;
    proof {
        lemma2_to64();
        lemma_pow2_117();
    }
    while t < exponent
        invariant
            t <= exponent <= 117,
            power == pow2(t as nat),
            1 <= power <= pow2(117) == 0x20_0000_0000_0000_0000_0000_0000_0000,
        decreases exponent - t,
    {
        proof {
            lemma_pow2_unfold((t + 1) as nat);
            if t + 1 < 117 {
                lemma_pow2_strictly_increases((t + 1) as nat, 117);
            }
        }
        power = power * 2;
        t += 1;
    }
    power
}

/// `product * 2^doublings`, taken as a multiple of `2^-1074`, rounded to the
/// nearest integer, or `None` where that is more than `i64::MAX`.
fn round_scaled(product: u128, doublings: u64) -> (rounded: Option<u128>)
    requires
        product < 0x20_0000_0000_0000_0000_0000_0000_0000,
        doublings <= 2045,
    ensures
        match rounded {
            Some(r) => r == rounded_steps(product * pow2(doublings as nat)) && r <= i64::MAX,
            None => rounded_steps(product * pow2(doublings as nat)) > i64::MAX,
        },
{
    let ghost scale = pow2(doublings as nat) as int;
    let ghost whole = pow2(1075) as int;
    let ghost p = product as int;
    proof {
        lemma_pow2_117();
        lemma_pow2_pos(doublings as nat);
        lemma_pow2_pos(1075);
        lemma_pow2_pos(1074);
        lemma_pow2_unfold((doublings + 1) as nat);
        lemma_pow2_strictly_increases(1074, 1075);
    }
    if product == 0 {
        proof {
            assert(p * scale == 0) by (nonlinear_arith)
                requires
                    p == 0,
            ;
            lemma_fundamental_div_mod_converse(pow2(1074) as int, whole, 0, pow2(1074) as int);
        }
        Some(0)
    } else if doublings >= 1074 {
        let t: u64 = doublings - 1074;
        let ghost high = pow2(t as nat) as int;
        proof {
            lemma_pow2_pos(t as nat);
            lemma_pow2_adds(t as nat, 1075);
            assert(2 * scale == high * whole);
            assert(2 * (p * scale) == (p * high) * whole) by (nonlinear_arith)
                requires
                    2 * scale == high * whole,
            ;
            lemma_fundamental_div_mod_converse(
                2 * (p * scale) + pow2(1074),
                whole,
                p * high,
                pow2(1074) as int,
            );
            assert(rounded_steps(p * scale) == p * high);
        }
        if t >= 63 {
            proof {
                if t > 63 {
                    lemma_pow2_strictly_increases(63, t as nat);
                }
                assert(p * high >= 0x8000_0000_0000_0000) by (nonlinear_arith)
                    requires
                        p >= 1,
                        high >= 0x8000_0000_0000_0000,
                ;
            }
            None
        } else {
            let power: u128 = power_of_two(t);
            let most: u128 = 0x7FFF_FFFF_FFFF_FFFF;
            let limit: u128 = most / power;
            proof {
                lemma_fundamental_div_mod(most as int, power as int);
            }
            if product > limit {
                proof {
                    assert(p * high > most) by (nonlinear_arith)
                        requires
                            p >= limit + 1,
                            high > 0,
                            most == high * limit + most % (high as u128),
                            0 <= most % (high as u128) < high,
                    ;
                }
                None
            } else {
                proof {
                    assert(p * high <= most) by (nonlinear_arith)
                        requires
                            0 <= p <= limit,
                            high > 0,
                            most == high * limit + most % (high as u128),
                            0 <= most % (high as u128) < high,
                    ;
                }
                Some(product * power)
            }
        }
    } else {
        let s: u64 = 1074 - doublings;
        let ghost half = pow2((s - 1) as nat) as int;
        let ghost full = pow2(s as nat) as int;
        let ghost common = pow2((doublings + 1) as nat) as int;
        proof {
            lemma_pow2_pos((s - 1) as nat);
            lemma_pow2_pos(s as nat);
            lemma_pow2_pos((doublings + 1) as nat);
            lemma_pow2_unfold(s as nat);
            lemma_pow2_adds((doublings + 1) as nat, (s - 1) as nat);
            lemma_pow2_adds((doublings + 1) as nat, s as nat);
            assert(pow2(1074) == common * half);
            assert(whole == common * full);
            assert(2 * (p * scale) + common * half == common * (p + half)) by (nonlinear_arith)
                requires
                    common == 2 * scale,
            ;
            lemma_div_multiples_vanish_quotient(common, p + half, full);
            assert(rounded_steps(p * scale) == (p + half) / full);
        }
        if s > 118 {
            proof {
                lemma_pow2_strictly_increases(117, (s - 1) as nat);
                lemma_fundamental_div_mod_converse(p + half, full, 0, p + half);
            }
            Some(0)
        } else {
            let half_step: u128 = power_of_two(s - 1);
            let step: u128 = half_step * 2;
            let r: u128 = (product + half_step) / step;
            if r > 0x7FFF_FFFF_FFFF_FFFF {
                None
            } else {
                Some(r)
            }
        }
    }
}

/// Counts the binary64 value with bit pattern `bits` in parts of which
/// `unit` make one, rounding to the nearest count and away from zero where
/// the value lies half-way. `None` for an infinity or a NaN, and where the
/// count is beyond `i64::MAX` in magnitude.
pub fn to_count(bits: u64, unit: u64) -> (count: Option<i64>)
    ensures
        match count {
            Some(c) => is_finite(bits) && c == rounded_count(bits, unit) && -i64::MAX <= c,
            None => !is_finite(bits) || rounded_count(bits, unit) > i64::MAX || rounded_count(
                bits,
                unit,
            ) < -i64::MAX,
        },
{
    let negative: bool = bits >= SIGN_BIT;
    let magnitude: u64 = if negative {
        bits - SIGN_BIT
    } else {
        bits
    };
    if magnitude >= INFINITY_BITS {
        return None;
    }
    let exponent: u64 = magnitude / FRACTION_RANGE;
    let fraction: u64 = magnitude % FRACTION_RANGE;
    let mantissa: u64 = if exponent == 0 {
        fraction
    } else {
        FRACTION_RANGE + fraction
    };
    let doublings: u64 = if exponent == 0 {
        0
    } else {
        exponent - 1
    };
    assert(mantissa * unit < 0x20_0000_0000_0000_0000_0000_0000_0000) by (nonlinear_arith)
        requires
            0 <= mantissa < 0x20_0000_0000_0000,
            0 <= unit < 0x1_0000_0000_0000_0000,
    ;
    let product: u128 = (mantissa as u128) * (unit as u128);
    proof {
        lemma2_to64();
        let scale = pow2(doublings as nat) as int;
        if exponent == 0 {
            assert(mantissa * scale == mantissa) by (nonlinear_arith)
                requires
                    scale == 1,
            ;
        } else {
            assert((magnitude as int) / (FRACTION_RANGE as int) == exponent);
            assert((magnitude as int) % (FRACTION_RANGE as int) == fraction);
        }
        assert(scaled_magnitude(magnitude as int) == mantissa * scale);
        assert((mantissa * scale) * unit == (mantissa * unit) * scale) by (nonlinear_arith);
    }
    match round_scaled(product, doublings) {
        Some(r) => {
            if negative {
                Some(-(r as i64))
            } else {
                Some(r as i64)
            }
        },
        None => None,
    }
}

} // verus!
