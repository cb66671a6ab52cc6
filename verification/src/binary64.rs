//! IEEE 754 binary64 values handled as raw 64-bit patterns.
//!
//! A pattern holds a sign bit, an 11-bit exponent field and a 52-bit fraction
//! field. Every finite value is an integer multiple of `2^-1074`; the
//! specifications below speak of that integer, so that rounding and ordering
//! are statements about plain integers. This module decodes patterns and
//! turns a number of such units into a byte.

use vstd::prelude::*;
use vstd::arithmetic::power2::*;
use vstd::arithmetic::div_mod::*;
use vstd::arithmetic::mul::*;
use vstd::bits::*;

verus! {

/// The pattern of the number one.
pub const ONE: u64 = 0x3ff0_0000_0000_0000;

/// The pattern of the number zero.
pub const ZERO: u64 = 0;

/// The exponent field whose patterns are infinities and NaNs.
pub const EXPONENT_SPECIAL: u64 = 0x7ff;

/// The implicit leading bit of a normal significand, `2^52`.
pub const HIDDEN_BIT: u64 = 0x0010_0000_0000_0000;

/// Mask of the 52 fraction bits.
pub const FRACTION_MASK: u64 = 0x000f_ffff_ffff_ffff;

/// The 11-bit exponent field of a pattern.
pub open spec fn exponent_field(bits: u64) -> u64 {
    (bits >> 52) & 0x7ff
}

/// The 52-bit fraction field of a pattern.
pub open spec fn fraction_field(bits: u64) -> u64 {
    bits & 0x000f_ffff_ffff_ffff
}

/// Whether the sign bit of a pattern is set.
pub open spec fn sign_negative(bits: u64) -> bool {
    (bits >> 63) == 1
}

/// Whether a pattern encodes a finite number (neither infinity nor NaN).
pub open spec fn is_finite_bits(bits: u64) -> bool {
    exponent_field(bits) != 0x7ff
}

/// The integer significand: the fraction, plus the hidden bit unless the
/// pattern is subnormal or zero.
pub open spec fn significand(bits: u64) -> nat {
    if exponent_field(bits) == 0 {
        fraction_field(bits) as nat
    } else {
        (fraction_field(bits) + 0x0010_0000_0000_0000) as nat
    }
}

/// The power of two by which the significand is multiplied to give the
/// magnitude in units of `2^-1074`.
pub open spec fn binade(bits: u64) -> nat {
    if exponent_field(bits) == 0 {
        0
    } else {
        (exponent_field(bits) - 1) as nat
    }
}

/// The encoded number multiplied by `2^1074`, for a pattern that encodes a
/// finite number.
pub open spec fn scaled_value(bits: u64) -> int {
    let magnitude = (significand(bits) * pow2(binade(bits))) as int;
    if sign_negative(bits) {
        -magnitude
    } else {
        magnitude
    }
}

/// `numerator / denominator` rounded to the nearest integer, ties going away
/// from zero. The denominator is positive.
pub open spec fn round_half_away(numerator: int, denominator: int) -> int {
    if numerator >= 0 {
        (2 * numerator + denominator) / (2 * denominator)
    } else {
        -((2 * (-numerator) + denominator) / (2 * denominator))
    }
}

/// An integer saturated to the range of a byte.
pub open spec fn clamp_to_byte(value: int) -> int {
    if value < 0 {
        0
    } else if value > 255 {
        255
    } else {
        value
    }
}

/// A byte for a number given in units of `2^-1074`: the number rounded to
/// the nearest integer, ties away from zero, then saturated to `0..=255`.
pub open spec fn adjust_spec(units: int) -> int {
    clamp_to_byte(round_half_away(units, pow2(1074) as int))
}

/// The number `mantissa * 2^exponent`, negated if `negative`, in units of
/// `2^-1074`.
pub open spec fn signed_units(negative: bool, mantissa: nat, exponent: nat) -> int {
    if negative {
        -((mantissa * pow2(exponent)) as int)
    } else {
        (mantissa * pow2(exponent)) as int
    }
}

/// Tells whether a pattern encodes a finite number.
pub fn is_finite(bits: u64) -> (finite: bool)
    ensures
        finite == is_finite_bits(bits),
{
    (bits >> 52) & 0x7ff != EXPONENT_SPECIAL
}

/// Takes a pattern apart into sign, integer significand and the power of
/// two that goes with it.
pub fn decode(bits: u64) -> (parts: (bool, u64, u32))
    ensures
        parts.0 == sign_negative(bits),
        parts.1 == significand(bits),
        parts.2 == binade(bits),
        signed_units(parts.0, parts.1 as nat, parts.2 as nat) == scaled_value(bits),
        parts.1 < 0x20_0000_0000_0000,
        parts.2 <= 2046,
        parts.2 > 0 ==> parts.1 >= 0x10_0000_0000_0000,
        is_finite_bits(bits) ==> parts.2 <= 2045,
{
    let field: u64 = (bits >> 52) & 0x7ff;
    let fraction: u64 = bits & FRACTION_MASK;
    let negative: bool = (bits >> 63) == 1;
    assert(fraction < 0x0010_0000_0000_0000) by (bit_vector)
        requires
            fraction == bits & 0x000f_ffff_ffff_ffff,
    ;
    assert(field <= 0x7ff) by (bit_vector)
        requires
            field == (bits >> 52) & 0x7ff,
    ;
    if field == 0 {
        (negative, fraction, 0)
    } else {
        (negative, fraction + HIDDEN_BIT, (field - 1) as u32)
    }
}

/// A magnitude of at most `2^1072` units, that is of at most one quarter,
/// rounds to zero.
proof fn lemma_quotient_small(m: nat, e: nat)
    requires
        m <= pow2(53),
        e <= 1019,
    ensures
        (2 * (m * pow2(e)) + pow2(1074)) / (2 * pow2(1074)) == 0,
{
    lemma_pow2_adds(53, e);
    lemma_pow2_pos(e);
    lemma_pow2_pos(1074);
    if 53 + e < 1072 {
        lemma_pow2_strictly_increases(53 + e, 1072);
    }
    lemma_pow2_adds(1, 1072);
    lemma_pow2_adds(1, 1073);
    lemma_pow2_adds(2, 1072);
    lemma2_to64();
    assert(m * pow2(e) <= pow2(53) * pow2(e)) by (nonlinear_arith)
        requires
            m <= pow2(53),
            pow2(e) > 0,
    ;
    let n = 2 * (m * pow2(e)) + pow2(1074);
    assert(0 <= n < 2 * pow2(1074));
    lemma_basic_div(n as int, 2 * pow2(1074) as int);
}

/// A magnitude of at least `2^1082` units, that is of at least 256, rounds
/// to 256 or more.
proof fn lemma_quotient_large(m: nat, e: nat)
    requires
        m >= 1,
        e >= 1082,
    ensures
        (2 * (m * pow2(e)) + pow2(1074)) / (2 * pow2(1074)) >= 256,
{
    lemma_pow2_pos(e);
    lemma_pow2_pos(1074);
    if e > 1082 {
        lemma_pow2_strictly_increases(1082, e);
    }
    lemma_pow2_adds(8, 1074);
    lemma2_to64();
    assert(m * pow2(e) >= pow2(1082)) by (nonlinear_arith)
        requires
            m >= 1,
            pow2(e) >= pow2(1082),
    ;
    let n = (2 * (m * pow2(e)) + pow2(1074)) as int;
    let d = (2 * pow2(1074)) as int;
    assert(n >= 256 * d);
    lemma_div_is_ordered(256 * d, n, d);
    lemma_div_multiples_vanish(256, d);
}

/// A whole number of `2^1074` units rounds to that whole number.
pub proof fn lemma_quotient_whole(value: nat)
    ensures
        round_half_away((value * pow2(1074)) as int, pow2(1074) as int) == value,
{
    let d = pow2(1074) as int;
    lemma_pow2_pos(1074);
    assert(value * d >= 0) by (nonlinear_arith)
        requires
            value >= 0,
            d > 0,
    ;
    assert(2 * (value * d) + d == d * (2 * value + 1)) by (nonlinear_arith);
    assert(2 * d == d * 2);
    lemma_div_multiples_vanish_quotient(d, (2 * value + 1) as int, 2);
    assert((2 * value + 1) / 2 == value);
}

/// Rounding `m * 2^-k` is adding half of `2^k` to `m` and dropping the low
/// `k` bits.
proof fn lemma_quotient_shift(m: nat, k: nat)
    requires
        1 <= k <= 1074,
    ensures
        (2 * (m * pow2((1074 - k) as nat)) + pow2(1074)) / (2 * pow2(1074)) == (m + pow2(
            (k - 1) as nat,
        )) / pow2(k),
{
    let e = (1074 - k) as nat;
    lemma_pow2_adds(e, k);
    lemma_pow2_adds(1, (k - 1) as nat);
    lemma_pow2_pos(e);
    lemma_pow2_pos(k);
    lemma2_to64();
    let c = (2 * pow2(e)) as int;
    let a = (m + pow2((k - 1) as nat)) as int;
    let b = pow2(k) as int;
    assert(2 * (m * pow2(e)) + pow2(1074) == c * a) by (nonlinear_arith)
        requires
            c == 2 * pow2(e),
            a == m + pow2((k - 1) as nat),
            pow2(1074) == pow2(e) * pow2(k),
            pow2(k) == 2 * pow2((k - 1) as nat),
    ;
    assert(2 * pow2(1074) == c * b) by (nonlinear_arith)
        requires
            c == 2 * pow2(e),
            b == pow2(k),
            pow2(1074) == pow2(e) * pow2(k),
    ;
    lemma_div_multiples_vanish_quotient(c, a, b);
}

/// Nothing at or below zero rounds to a positive integer.
proof fn lemma_round_of_nonpositive(n: int, d: int)
    requires
        n <= 0,
        d > 0,
    ensures
        round_half_away(n, d) <= 0,
{
    if n == 0 {
        lemma_basic_div(d, 2 * d);
    } else {
        lemma_div_pos_is_pos(2 * (-n) + d, 2 * d);
    }
}

/// Rounds `mantissa * 2^exponent` units, negated if `negative`, to the
/// nearest integer, ties away from zero, and saturates the result to a byte.
pub fn adjust_scaled(negative: bool, mantissa: u64, exponent: u32) -> (out: u8)
    requires
        mantissa <= 0x20_0000_0000_0000,
    ensures
        out as int == adjust_spec(signed_units(negative, mantissa as nat, exponent as nat)),
{
    proof {
        lemma2_to64();
        lemma2_to64_rest();
        lemma_pow2_pos(1074);
        lemma_pow2_pos(exponent as nat);
        lemma_mul_nonnegative(mantissa as int, pow2(exponent as nat) as int);
    }
    if negative || mantissa == 0 {
        proof {
            lemma_round_of_nonpositive(
                signed_units(negative, mantissa as nat, exponent as nat),
                pow2(1074) as int,
            );
        }
        return 0;
    }
    if exponent >= 1082 {
        proof {
            lemma_quotient_large(mantissa as nat, exponent as nat);
        }
        return 255;
    }
    if exponent >= 1074 {
        let up: u32 = exponent - 1074;
        proof {
            lemma_pow2_adds(up as nat, 1074);
            lemma_pow2_strictly_increases(up as nat, 8);
            assert(mantissa * pow2(up as nat) <= 0x20_0000_0000_0000 * 0x100) by (nonlinear_arith)
                requires
                    mantissa <= 0x20_0000_0000_0000,
                    pow2(up as nat) <= 0x100,
            ;
            lemma_u64_shl_is_mul(mantissa, up as u64);
        }
        let whole: u64 = mantissa << up;
        proof {
            assert(mantissa * pow2(exponent as nat) == whole * pow2(1074)) by (nonlinear_arith)
                requires
                    whole == mantissa * pow2(up as nat),
                    pow2(exponent as nat) == pow2(up as nat) * pow2(1074),
            ;
            lemma_quotient_whole(whole as nat);
        }
        return if whole > 255 {
            255
        } else {
            whole as u8
        };
    }
    let shift: u32 = 1074 - exponent;
    if shift >= 55 {
        proof {
            lemma_quotient_small(mantissa as nat, exponent as nat);
        }
        return 0;
    }
    let half: u64 = 1u64 << (shift - 1);
    proof {
        lemma_u64_shl_is_mul(1, (shift - 1) as u64);
        lemma_pow2_strictly_increases((shift - 1) as nat, 54);
        lemma_pow2_adds(1, 53);
    }
    let rounded: u64 = (mantissa + half) >> shift;
    proof {
        lemma_u64_shr_is_div((mantissa + half) as u64, shift as u64);
        lemma_quotient_shift(mantissa as nat, shift as nat);
    }
    if rounded > 255 {
        255
    } else {
        rounded as u8
    }
}

} // verus!
