use vstd::arithmetic::power2::{lemma_pow2_pos, lemma_pow2_strictly_increases, lemma_pow2_unfold, pow2};
use vstd::prelude::*;

verus! {

/// The sign bit of an IEEE 754 binary64 bit pattern.
pub const SIGN_BIT: u64 = 0x8000_0000_0000_0000;

/// The bit pattern of positive infinity. A larger magnitude is a NaN.
pub const INFINITY_BITS: u64 = 0x7FF0_0000_0000_0000;

/// The rank given to every NaN: one above that of positive infinity.
pub const NAN_RANK: i64 = 0x7FF0_0000_0000_0001;

/// The bit pattern without its sign bit: exponent and fraction.
pub open spec fn magnitude_bits(bits: u64) -> int {
    if bits >= SIGN_BIT {
        bits - SIGN_BIT
    } else {
        bits as int
    }
}

/// The bit pattern is that of a NaN.
pub open spec fn is_nan(bits: u64) -> bool {
    magnitude_bits(bits) > INFINITY_BITS
}

/// Where a binary64 value stands among all of them: a value that is
/// numerically smaller has a smaller rank, the two zeros share rank 0, and
/// every NaN has the one rank above positive infinity.
pub open spec fn rank(bits: u64) -> int {
    if is_nan(bits) {
        NAN_RANK as int
    } else if bits >= SIGN_BIT {
        -magnitude_bits(bits)
    } else {
        magnitude_bits(bits)
    }
}

/// The rank of a binary64 bit pattern.
pub fn float_rank(bits: u64) -> (r: i64)
    ensures
        r == rank(bits),
{
    let negative: bool = bits >= SIGN_BIT;
    let magnitude: u64 = if negative {
        bits - SIGN_BIT
    } else {
        bits
    };
    if magnitude > INFINITY_BITS {
        NAN_RANK
    } else if negative {
        -(magnitude as i64)
    } else {
        magnitude as i64
    }
}

/// Two to the power of 52: the weight of the lowest exponent bit.
pub const FRACTION_RANGE: u64 = 0x10_0000_0000_0000;

/// The bit pattern is that of a number: neither an infinity nor a NaN.
pub open spec fn is_finite(bits: u64) -> bool {
    magnitude_bits(bits) < INFINITY_BITS
}

/// The absolute value, times two to the power of 1074, of the number whose
/// bit pattern without the sign is `magnitude`: the fraction itself for a
/// subnormal number, and otherwise the fraction with its leading one,
/// doubled once for every step of the exponent above 1.
pub open spec fn scaled_magnitude(magnitude: int) -> int {
    let exponent = magnitude / (FRACTION_RANGE as int);
    let fraction = magnitude % (FRACTION_RANGE as int);
    if exponent == 0 {
        fraction
    } else {
        (FRACTION_RANGE + fraction) * pow2((exponent - 1) as nat)
    }
}

/// The value of a finite binary64 bit pattern, times two to the power of
/// 1074.
pub open spec fn scaled_value(bits: u64) -> int {
    if bits >= SIGN_BIT {
        -scaled_magnitude(magnitude_bits(bits))
    } else {
        scaled_magnitude(magnitude_bits(bits))
    }
}

/// A larger bit pattern, the sign left out, is that of a larger absolute
/// value.
pub proof fn lemma_scaled_magnitude_increases(m1: int, m2: int)
    requires
        0 <= m1 < m2,
    ensures
        0 <= scaled_magnitude(m1) < scaled_magnitude(m2),
{
    let range = FRACTION_RANGE as int;
    let e1 = m1 / range;
    let f1 = m1 % range;
    let e2 = m2 / range;
    let f2 = m2 % range;
    assert(m1 == e1 * range + f1 && m2 == e2 * range + f2);
    assert(0 <= e1 <= e2);
    if e1 > 0 {
        lemma_pow2_pos((e1 - 1) as nat);
        let lower = pow2((e1 - 1) as nat) as int;
        assert(0 <= (range + f1) * lower) by (nonlinear_arith)
            requires
                0 <= f1,
                range > 0,
                lower > 0,
        ;
    }
    if e1 == e2 {
        assert(f1 < f2);
        if e1 > 0 {
            let p = pow2((e1 - 1) as nat) as int;
            assert((range + f1) * p < (range + f2) * p) by (nonlinear_arith)
                requires
                    f1 < f2,
                    p > 0,
            ;
        }
    } else {
        lemma_pow2_pos((e2 - 1) as nat);
        let upper = pow2((e2 - 1) as nat) as int;
        assert(range * upper <= (range + f2) * upper) by (nonlinear_arith)
            requires
                0 <= f2,
                upper > 0,
        ;
        if e1 == 0 {
            assert(range <= range * upper) by (nonlinear_arith)
                requires
                    range > 0,
                    upper >= 1,
            ;
        } else {
            let lower = pow2((e1 - 1) as nat) as int;
            lemma_pow2_unfold(e1 as nat);
            if e1 < e2 - 1 {
                lemma_pow2_strictly_increases(e1 as nat, (e2 - 1) as nat);
            }
            assert(2 * lower <= upper);
            assert((range + f1) * lower < range * upper) by (nonlinear_arith)
                requires
                    0 <= f1 < range,
                    lower > 0,
                    2 * lower <= upper,
            ;
        }
    }
}

/// Among numbers the rank orders as the value does.
pub proof fn lemma_rank_orders_by_value(x: u64, y: u64)
    requires
        is_finite(x),
        is_finite(y),
    ensures
        rank(x) <= rank(y) <==> scaled_value(x) <= scaled_value(y),
        rank(x) == rank(y) <==> scaled_value(x) == scaled_value(y),
{
    let mx = magnitude_bits(x);
    let my = magnitude_bits(y);
    if mx < my {
        lemma_scaled_magnitude_increases(mx, my);
    } else if my < mx {
        lemma_scaled_magnitude_increases(my, mx);
    }
    if 0 < mx {
        lemma_scaled_magnitude_increases(0, mx);
    }
    if 0 < my {
        lemma_scaled_magnitude_increases(0, my);
    }
    assert(scaled_magnitude(0) == 0);
}

/// Every number ranks above negative infinity and below positive infinity,
/// and a NaN ranks above positive infinity.
pub proof fn lemma_rank_of_extremes(x: u64, nan: u64)
    requires
        is_finite(x),
        is_nan(nan),
    ensures
        rank((SIGN_BIT + INFINITY_BITS) as u64) < rank(x) < rank(INFINITY_BITS) < rank(nan),
{
}

} // verus!
