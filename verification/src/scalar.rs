//! The order of single-precision values, read from their bits.
//!
//! A scalar is the 32 bits of an IEEE-754 single-precision number: one sign
//! bit, then eight exponent and twenty-three fraction bits. For numbers that
//! are not NaN the numeric order is the order of the signed magnitudes, with
//! the two zeros equal. [`rank`] is that signed magnitude; it places a NaN
//! beyond the infinity of its sign, so every pair of scalars is ordered.

use vstd::arithmetic::power2::pow2;
use vstd::prelude::*;

verus! {

/// The bit that holds the sign.
pub const SIGN_BIT: u32 = 0x8000_0000;

/// The bits of positive infinity: the largest magnitude that is a number.
pub const INFINITY_BITS: u32 = 0x7f80_0000;

/// Whether the sign bit is set.
pub open spec fn is_negative(bits: u32) -> bool {
    bits >= SIGN_BIT
}

/// The bits without the sign.
pub open spec fn magnitude(bits: u32) -> nat {
    if bits >= SIGN_BIT {
        (bits - SIGN_BIT) as nat
    } else {
        bits as nat
    }
}

/// Whether the bits encode no number.
pub open spec fn is_nan(bits: u32) -> bool {
    magnitude(bits) > INFINITY_BITS
}

/// Whether the bits encode a number that is not an infinity.
pub open spec fn is_finite(bits: u32) -> bool {
    magnitude(bits) < INFINITY_BITS
}

/// The signed magnitude, by which scalars are ordered.
pub open spec fn rank(bits: u32) -> int {
    if is_negative(bits) {
        -(magnitude(bits) as int)
    } else {
        magnitude(bits) as int
    }
}

/// Whether the bits encode a number that is zero or below.
pub open spec fn non_positive(bits: u32) -> bool {
    !is_nan(bits) && rank(bits) <= 0
}

/// How many values the fraction of a scalar takes: two to the power 23.
pub const FRACTION_RANGE: u32 = 0x80_0000;

/// The exponent field of a magnitude.
pub open spec fn exponent(magnitude: nat) -> nat {
    magnitude / (FRACTION_RANGE as nat)
}

/// The fraction field of a magnitude.
pub open spec fn fraction(magnitude: nat) -> nat {
    magnitude % (FRACTION_RANGE as nat)
}

/// What a magnitude is worth, in units of the smallest positive number:
/// the fraction itself for the exponent zero, and else the fraction with its
/// hidden bit, doubled once for each step of the exponent above one.
pub open spec fn worth(magnitude: nat) -> nat {
    if exponent(magnitude) == 0 {
        fraction(magnitude)
    } else {
        ((FRACTION_RANGE + fraction(magnitude)) * pow2((exponent(magnitude) - 1) as nat)) as nat
    }
}

/// The number that a scalar encodes, in units of the smallest positive
/// number. For the bits of an infinity or a NaN it is what the same formula
/// gives.
pub open spec fn value(bits: u32) -> int {
    if is_negative(bits) {
        -(worth(magnitude(bits)) as int)
    } else {
        worth(magnitude(bits)) as int
    }
}

/// Computes the rank of a scalar.
pub fn rank_of(bits: u32) -> (r: i64)
    ensures
        r == rank(bits),
{
    if bits >= SIGN_BIT {
        let m: u32 = bits - SIGN_BIT;
        let wide: i64 = m as i64;
        0 - wide
    } else {
        bits as i64
    }
}

/// Tells whether a scalar encodes no number.
pub fn is_not_a_number(bits: u32) -> (b: bool)
    ensures
        b == is_nan(bits),
{
    if bits >= SIGN_BIT {
        bits - SIGN_BIT > INFINITY_BITS
    } else {
        bits > INFINITY_BITS
    }
}

/// Tells whether a scalar encodes a number that is not an infinity.
pub fn is_finite_number(bits: u32) -> (b: bool)
    ensures
        b == is_finite(bits),
{
    if bits >= SIGN_BIT {
        bits - SIGN_BIT < INFINITY_BITS
    } else {
        bits < INFINITY_BITS
    }
}

/// Tells whether `a` is strictly below `b`.
pub fn is_below(a: u32, b: u32) -> (r: bool)
    ensures
        r == (rank(a) < rank(b)),
{
    rank_of(a) < rank_of(b)
}

/// Tells whether a scalar is a number that is zero or below.
pub fn is_non_positive(bits: u32) -> (b: bool)
    ensures
        b == non_positive(bits),
{
    !is_not_a_number(bits) && rank_of(bits) <= 0
}

/// Two scalars share a rank exactly when they are the same bits or both are
/// zeros.
pub proof fn lemma_rank_identifies(a: u32, b: u32)
    ensures
        rank(a) == rank(b) <==> (a == b || (magnitude(a) == 0 && magnitude(b) == 0)),
{
}

/// A greater magnitude is worth more.
pub proof fn lemma_worth_increases(a: nat, b: nat)
    requires
        a < b,
    ensures
        worth(a) < worth(b),
{
    let range = FRACTION_RANGE as nat;
    let (ea, fa) = (exponent(a), fraction(a));
    let (eb, fb) = (exponent(b), fraction(b));
    assert(a == range * ea + fa && b == range * eb + fb) by {
        vstd::arithmetic::div_mod::lemma_fundamental_div_mod(a as int, range as int);
        vstd::arithmetic::div_mod::lemma_fundamental_div_mod(b as int, range as int);
    }
    assert(ea <= eb) by {
        vstd::arithmetic::div_mod::lemma_div_is_ordered(a as int, b as int, range as int);
    }
    if ea == eb {
        assert(fa < fb);
        if ea > 0 {
            let scale = pow2((ea - 1) as nat);
            vstd::arithmetic::power2::lemma_pow2_pos((ea - 1) as nat);
            assert((range + fa) * scale < (range + fb) * scale) by (nonlinear_arith)
                requires
                    fa < fb,
                    scale > 0,
            ;
        }
    } else {
        let high = pow2((eb - 1) as nat);
        vstd::arithmetic::power2::lemma_pow2_pos((eb - 1) as nat);
        assert(range * high <= (range + fb) * high) by (nonlinear_arith)
            requires
                high > 0,
                fb >= 0,
        ;
        if ea == 0 {
            assert(range * 1 <= range * high) by (nonlinear_arith)
                requires
                    high >= 1,
            ;
        } else {
            let low = pow2((ea - 1) as nat);
            vstd::arithmetic::power2::lemma_pow2_pos((ea - 1) as nat);
            vstd::arithmetic::power2::lemma_pow2_unfold(ea);
            assert(pow2(ea) <= high) by {
                if ea < eb - 1 {
                    vstd::arithmetic::power2::lemma_pow2_strictly_increases(ea, (eb - 1) as nat);
                }
            }
            assert((range + fa) * low < range * high) by (nonlinear_arith)
                requires
                    fa < range,
                    2 * low <= high,
                    low > 0,
            ;
        }
    }
}

/// The rank orders scalars as the numbers that they encode: one ranks below
/// another exactly when it is worth less, and two share a rank exactly when
/// they are worth the same.
pub proof fn lemma_rank_is_numeric_order(a: u32, b: u32)
    ensures
        rank(a) < rank(b) <==> value(a) < value(b),
        rank(a) == rank(b) <==> value(a) == value(b),
{
    let (ma, mb) = (magnitude(a), magnitude(b));
    if ma < mb {
        lemma_worth_increases(ma, mb);
    } else if mb < ma {
        lemma_worth_increases(mb, ma);
    }
    if ma > 0 {
        lemma_worth_increases(0, ma);
    }
    if mb > 0 {
        lemma_worth_increases(0, mb);
    }
    assert(worth(0) == 0);
}

/// Every rank lies strictly between the two powers of two that bound a
/// 32-bit signed magnitude.
pub proof fn lemma_rank_bounds(bits: u32)
    ensures
        -0x8000_0000 < rank(bits) < 0x8000_0000,
{
}

/// Among numbers, nothing ranks above positive infinity or below negative
/// infinity.
pub proof fn lemma_numbers_between_infinities(bits: u32)
    requires
        !is_nan(bits),
    ensures
        -(INFINITY_BITS as int) <= rank(bits) <= INFINITY_BITS as int,
{
}

} // verus!
