//! A bit-level reading of IEEE-754 binary64 numbers.
//!
//! A finite pattern stands for `(-1)^sign * mantissa * 2^exponent`, with the
//! mantissa and exponent given by `float_mantissa` and `float_exponent`.
//! Everything is computed on the pattern with integer arithmetic.
use vstd::prelude::*;
use vstd::arithmetic::power2::pow2;
use vstd::arithmetic::power2::lemma_pow2_pos;
use vstd::arithmetic::power2::lemma_pow2_strictly_increases;
use vstd::arithmetic::power2::lemma2_to64;
use vstd::arithmetic::power2::lemma2_to64_rest;
use vstd::arithmetic::div_mod::lemma_fundamental_div_mod;
use vstd::arithmetic::div_mod::lemma_basic_div;
use vstd::arithmetic::div_mod::lemma_small_mod;
use vstd::bits::lemma_u64_shr_is_div;
use vstd::bits::lemma_u64_shl_is_mul;
use crate::interpreter::number::SIGN_BIT;
use crate::interpreter::number::HIDDEN_BIT;
use crate::interpreter::number::EXPONENT_SPECIAL;

verus! {

/// Whether the sign bit is set.
pub open spec fn float_sign(bits: u64) -> bool {
    bits >= SIGN_BIT
}

/// The eleven exponent bits, read as a number.
pub open spec fn float_biased_exponent(bits: u64) -> nat {
    ((bits / HIDDEN_BIT) % 2048) as nat
}

/// The low 52 bits.
pub open spec fn float_fraction(bits: u64) -> nat {
    (bits % HIDDEN_BIT) as nat
}

/// Not a number.
pub open spec fn float_is_nan(bits: u64) -> bool {
    float_biased_exponent(bits) == 2047 && float_fraction(bits) != 0
}

/// Plus or minus infinity.
pub open spec fn float_is_infinite(bits: u64) -> bool {
    float_biased_exponent(bits) == 2047 && float_fraction(bits) == 0
}

/// Zero, subnormal or normal.
pub open spec fn float_is_finite(bits: u64) -> bool {
    float_biased_exponent(bits) < 2047
}

/// The integer `m` of a finite pattern's magnitude `m * 2^e`.
pub open spec fn float_mantissa(bits: u64) -> nat {
    if float_biased_exponent(bits) == 0 {
        float_fraction(bits)
    } else {
        float_fraction(bits) + HIDDEN_BIT as nat
    }
}

/// The exponent `e` of a finite pattern's magnitude `m * 2^e`.
pub open spec fn float_exponent(bits: u64) -> int {
    if float_biased_exponent(bits) == 0 {
        -1074
    } else {
        float_biased_exponent(bits) - 1075
    }
}

/// Plus or minus zero.
pub open spec fn float_is_zero(bits: u64) -> bool {
    float_is_finite(bits) && float_mantissa(bits) == 0
}

/// The magnitude of a finite pattern, rounded down to a whole number.
pub open spec fn float_whole_magnitude(bits: u64) -> nat {
    if float_exponent(bits) >= 0 {
        float_mantissa(bits) * pow2(float_exponent(bits) as nat)
    } else {
        float_mantissa(bits) / pow2((-float_exponent(bits)) as nat)
    }
}

/// Whether a finite pattern stands for a number that is not whole.
pub open spec fn float_has_fraction(bits: u64) -> bool {
    &&& float_is_finite(bits)
    &&& float_exponent(bits) < 0
    &&& float_mantissa(bits) % pow2((-float_exponent(bits)) as nat) != 0
}

/// Whether the pattern stands for a finite whole number.
pub open spec fn float_is_whole(bits: u64) -> bool {
    float_is_finite(bits) && !float_has_fraction(bits)
}

/// The largest whole number not above the value of a finite pattern.
pub open spec fn float_floor(bits: u64) -> int {
    if !float_sign(bits) {
        float_whole_magnitude(bits) as int
    } else if float_has_fraction(bits) {
        -(float_whole_magnitude(bits) as int) - 1
    } else {
        -(float_whole_magnitude(bits) as int)
    }
}

/// The smallest whole number not below the value of a finite pattern.
pub open spec fn float_ceil(bits: u64) -> int {
    if float_sign(bits) {
        -(float_whole_magnitude(bits) as int)
    } else if float_has_fraction(bits) {
        float_whole_magnitude(bits) as int + 1
    } else {
        float_whole_magnitude(bits) as int
    }
}

/// The nearest 64-bit signed integer to a whole number.
pub open spec fn saturate(value: int) -> i64 {
    if value > i64::MAX {
        i64::MAX
    } else if value < i64::MIN {
        i64::MIN
    } else {
        value as i64
    }
}

/// A whole number of any pattern as a 64-bit integer: NaN gives zero, and
/// what does not fit gives the nearest bound.
pub open spec fn float_to_i64(bits: u64, whole: int) -> i64 {
    if float_is_nan(bits) {
        0
    } else if float_is_infinite(bits) {
        if float_sign(bits) {
            i64::MIN
        } else {
            i64::MAX
        }
    } else {
        saturate(whole)
    }
}

/// The floor of any pattern as a 64-bit integer.
pub open spec fn float_floor_i64(bits: u64) -> i64 {
    float_to_i64(bits, float_floor(bits))
}

/// The ceiling of any pattern as a 64-bit integer.
pub open spec fn float_ceil_i64(bits: u64) -> i64 {
    float_to_i64(bits, float_ceil(bits))
}

/// Whether the pattern compares equal to zero.
pub fn is_zero(bits: u64) -> (r: bool)
    ensures
        r == float_is_zero(bits),
{
    bits % SIGN_BIT == 0
}

/// Whether the sign bit is set.
pub fn sign(bits: u64) -> (r: bool)
    ensures
        r == float_sign(bits),
{
    bits >= SIGN_BIT
}

/// Whether the pattern is a NaN.
pub fn is_nan(bits: u64) -> (r: bool)
    ensures
        r == float_is_nan(bits),
{
    (bits / HIDDEN_BIT) % 2048 == EXPONENT_SPECIAL && bits % HIDDEN_BIT != 0
}

/// Whether the pattern is an infinity.
pub fn is_infinite(bits: u64) -> (r: bool)
    ensures
        r == float_is_infinite(bits),
{
    (bits / HIDDEN_BIT) % 2048 == EXPONENT_SPECIAL && bits % HIDDEN_BIT == 0
}

/// The whole part of a finite pattern's magnitude, capped at two to the 63rd,
/// and whether a fraction is left over.
pub fn whole_magnitude(bits: u64) -> (r: (u64, bool))
    requires
        float_is_finite(bits),
    ensures
        r.0 == if float_whole_magnitude(bits) < SIGN_BIT {
            float_whole_magnitude(bits)
        } else {
            SIGN_BIT as nat
        },
        r.1 == float_has_fraction(bits),
{
    let biased: u64 = (bits / HIDDEN_BIT) % 2048;
    let fraction: u64 = bits % HIDDEN_BIT;
    proof {
        lemma2_to64();
        lemma2_to64_rest();
    }
    if biased == 0 {
        proof {
            lemma_pow2_strictly_increases(52, 1074);
            lemma_basic_div(fraction as int, pow2(1074) as int);
            lemma_small_mod(fraction as nat, pow2(1074));
        }
        (0, fraction != 0)
    } else {
        let mantissa: u64 = fraction + HIDDEN_BIT;
        if biased >= 1075 {
            let up: u64 = biased - 1075;
            if up >= 11 {
                proof {
                    if up > 11 {
                        lemma_pow2_strictly_increases(11, up as nat);
                    }
                    let p = pow2(up as nat) as int;
                    assert(mantissa as int * p >= 0x8000_0000_0000_0000) by (nonlinear_arith)
                        requires
                            mantissa >= 0x0010_0000_0000_0000,
                            p >= 2048,
                    ;
                }
                (SIGN_BIT, false)
            } else {
                proof {
                    if up < 10 {
                        lemma_pow2_strictly_increases(up as nat, 10);
                    }
                    let p = pow2(up as nat) as int;
                    lemma_pow2_pos(up as nat);
                    assert(mantissa as int * p < 0x8000_0000_0000_0000) by (nonlinear_arith)
                        requires
                            mantissa < 0x0020_0000_0000_0000,
                            0 < p <= 1024,
                    ;
                    lemma_u64_shl_is_mul(mantissa, up);
                }
                (mantissa << up, false)
            }
        } else {
            let down: u64 = 1075 - biased;
            if down >= 53 {
                proof {
                    if down > 53 {
                        lemma_pow2_strictly_increases(53, down as nat);
                    }
                    lemma_basic_div(mantissa as int, pow2(down as nat) as int);
                    lemma_small_mod(mantissa as nat, pow2(down as nat));
                }
                (0, true)
            } else {
                let quotient: u64 = mantissa >> down;
                proof {
                    let p = pow2(down as nat) as int;
                    lemma_pow2_pos(down as nat);
                    lemma_u64_shr_is_div(mantissa, down);
                    lemma_fundamental_div_mod(mantissa as int, p);
                    assert(quotient as int * p <= mantissa) by (nonlinear_arith)
                        requires
                            mantissa as int == p * (mantissa as int / p) + (mantissa as int % p),
                            quotient as int == mantissa as int / p,
                            0 <= mantissa as int % p,
                    ;
                    assert(quotient as int * p == mantissa <==> mantissa as int % p == 0)
                        by (nonlinear_arith)
                        requires
                            mantissa as int == p * (mantissa as int / p) + (mantissa as int % p),
                            quotient as int == mantissa as int / p,
                    ;
                    lemma_u64_shl_is_mul(quotient, down);
                }
                let back: u64 = quotient << down;
                (quotient, back != mantissa)
            }
        }
    }
}

/// Whether the pattern stands for a finite number that is not whole.
pub fn has_fraction(bits: u64) -> (r: bool)
    ensures
        r == float_has_fraction(bits),
{
    if (bits / HIDDEN_BIT) % 2048 == EXPONENT_SPECIAL {
        false
    } else {
        whole_magnitude(bits).1
    }
}

/// The floor of the pattern as a 64-bit integer, as a saturating cast gives it.
pub fn floor_i64(bits: u64) -> (r: i64)
    ensures
        r == float_floor_i64(bits),
{
    if is_nan(bits) {
        0
    } else if is_infinite(bits) {
        if bits >= SIGN_BIT {
            i64::MIN
        } else {
            i64::MAX
        }
    } else {
        let (whole, partial) = whole_magnitude(bits);
        if bits < SIGN_BIT {
            if whole >= SIGN_BIT {
                i64::MAX
            } else {
                whole as i64
            }
        } else if whole >= SIGN_BIT {
            i64::MIN
        } else if partial {
            -(whole as i64) - 1
        } else {
            -(whole as i64)
        }
    }
}

/// The ceiling of the pattern as a 64-bit integer, as a saturating cast gives it.
pub fn ceil_i64(bits: u64) -> (r: i64)
    ensures
        r == float_ceil_i64(bits),
{
    if is_nan(bits) {
        0
    } else if is_infinite(bits) {
        if bits >= SIGN_BIT {
            i64::MIN
        } else {
            i64::MAX
        }
    } else {
        let (whole, partial) = whole_magnitude(bits);
        if bits >= SIGN_BIT {
            if whole >= SIGN_BIT {
                i64::MIN
            } else {
                -(whole as i64)
            }
        } else if whole >= SIGN_BIT {
            i64::MAX
        } else if partial {
            if whole == 0x7fff_ffff_ffff_ffff {
                i64::MAX
            } else {
                (whole as i64) + 1
            }
        } else {
            whole as i64
        }
    }
}

} // verus!
