//! `v * scale + offset` in binary64 arithmetic, computed on integers.
//!
//! The product of an input byte and the scale is rounded to the binary64
//! grid, the offset is added, and the sum is rounded again: the two steps of
//! a binary64 evaluation. The byte that comes out is the rounded sum,
//! rounded once more to the nearest integer and saturated.
//!
//! Where binary64 arithmetic overflows to an infinity, the number here is
//! finite and lies beyond every byte on the same side of zero; since the
//! offset is finite, the sum does so too, and the byte is the same.

use vstd::prelude::*;
use vstd::arithmetic::power2::*;
use crate::error::TransformError;
use crate::rounding::{lemma_rne_absorbs, lemma_rne_fixed, rne, rne_nat, round_to_grid};
use crate::binary64::{
    adjust_scaled,
    adjust_spec,
    decode,
    is_finite,
    is_finite_bits,
    scaled_value,
    signed_units,
};

verus! {

/// `v * scale` as binary64 arithmetic gives it, in units of `2^-1074`.
pub open spec fn product_value(v: int, scale_bits: u64) -> int {
    rne(v * scaled_value(scale_bits))
}

/// `v * scale + offset` as binary64 arithmetic gives it, in units of
/// `2^-1074`: the rounded product plus the offset, rounded.
pub open spec fn affine_value(v: int, scale_bits: u64, offset_bits: u64) -> int {
    rne(product_value(v, scale_bits) + scaled_value(offset_bits))
}

/// The output byte for the input byte `v`.
pub open spec fn affine_byte(v: int, scale_bits: u64, offset_bits: u64) -> int {
    adjust_spec(affine_value(v, scale_bits, offset_bits))
}

/// Rounding commutes with negation.
pub proof fn lemma_rne_signed(negative: bool, x: nat)
    ensures
        rne(
            if negative {
                -(x as int)
            } else {
                x as int
            },
        ) == if negative {
            -(rne_nat(x) as int)
        } else {
            rne_nat(x) as int
        },
{
    if x == 0 {
        lemma2_to64();
        lemma2_to64_rest();
        lemma_rne_fixed(0, 0);
        assert(0nat * pow2(0) == 0);
    }
}

/// A number on the grid, of either sign, rounds to itself.
pub proof fn lemma_rne_fixed_signed(negative: bool, mantissa: nat, exponent: nat)
    requires
        mantissa < pow2(53),
    ensures
        rne(signed_units(negative, mantissa, exponent)) == signed_units(
            negative,
            mantissa,
            exponent,
        ),
{
    lemma_rne_fixed(mantissa, exponent);
    lemma_rne_signed(negative, mantissa * pow2(exponent));
}

/// `2^k` as a machine integer.
fn power_of_two(k: u32) -> (p: u128)
    requires
        k <= 100,
    ensures
        p == pow2(k as nat),
{
    let mut p: u128 = 1;
    let mut i: u32 = 0;
    proof {
        lemma2_to64();
    }
    while i < k
        invariant
            i <= k,
            k <= 100,
            p == pow2(i as nat),
        decreases k - i,
    {
        proof {
            lemma2_to64();
            lemma2_to64_rest();
            lemma_pow2_adds(1, i as nat);
            lemma_pow2_adds(64, 37);
            lemma_pow2_strictly_increases(i as nat, 101);
        }
        p = p * 2;
        i = i + 1;
    }
    p
}

/// The byte for the sum of two numbers on the grid, the sum being rounded
/// to the grid first.
fn sum_byte(
    p_negative: bool,
    p_mantissa: u64,
    p_exponent: u32,
    o_negative: bool,
    o_mantissa: u64,
    o_exponent: u32,
) -> (out: u8)
    requires
        p_mantissa < 0x20_0000_0000_0000,
        o_mantissa < 0x20_0000_0000_0000,
        p_exponent <= 2200,
        o_exponent <= 2200,
        p_exponent > 0 && p_mantissa != 0 ==> p_mantissa >= 0x10_0000_0000_0000,
        o_exponent > 0 && o_mantissa != 0 ==> o_mantissa >= 0x10_0000_0000_0000,
    ensures
        out as int == adjust_spec(
            rne(
                signed_units(p_negative, p_mantissa as nat, p_exponent as nat) + signed_units(
                    o_negative,
                    o_mantissa as nat,
                    o_exponent as nat,
                ),
            ),
        ),
{
    let ghost p_units = signed_units(p_negative, p_mantissa as nat, p_exponent as nat);
    let ghost o_units = signed_units(o_negative, o_mantissa as nat, o_exponent as nat);
    proof {
        lemma2_to64();
        lemma2_to64_rest();
    }
    if p_mantissa == 0 {
        proof {
            assert(0nat * pow2(p_exponent as nat) == 0);
            lemma_rne_fixed_signed(o_negative, o_mantissa as nat, o_exponent as nat);
        }
        return adjust_scaled(o_negative, o_mantissa, o_exponent);
    }
    if o_mantissa == 0 {
        proof {
            assert(0nat * pow2(o_exponent as nat) == 0);
            lemma_rne_fixed_signed(p_negative, p_mantissa as nat, p_exponent as nat);
        }
        return adjust_scaled(p_negative, p_mantissa, p_exponent);
    }
    let p_leads: bool = p_exponent >= o_exponent;
    let hi_negative: bool = if p_leads { p_negative } else { o_negative };
    let hi_mantissa: u64 = if p_leads { p_mantissa } else { o_mantissa };
    let hi_exponent: u32 = if p_leads { p_exponent } else { o_exponent };
    let lo_negative: bool = if p_leads { o_negative } else { p_negative };
    let lo_mantissa: u64 = if p_leads { o_mantissa } else { p_mantissa };
    let lo_exponent: u32 = if p_leads { o_exponent } else { p_exponent };
    let ghost hi_units = signed_units(hi_negative, hi_mantissa as nat, hi_exponent as nat);
    let ghost lo_units = signed_units(lo_negative, lo_mantissa as nat, lo_exponent as nat);
    assert(p_units + o_units == hi_units + lo_units);
    let ghost h: nat = hi_mantissa as nat * pow2(hi_exponent as nat);
    let ghost l: nat = lo_mantissa as nat * pow2(lo_exponent as nat);
    let gap: u32 = hi_exponent - lo_exponent;
    proof {
        lemma_pow2_pos(lo_exponent as nat);
        lemma_pow2_pos(hi_exponent as nat);
        lemma_pow2_adds(gap as nat, lo_exponent as nat);
        assert(l > 0) by (nonlinear_arith)
            requires
                l == lo_mantissa * pow2(lo_exponent as nat),
                lo_mantissa > 0,
                pow2(lo_exponent as nat) > 0,
        ;
    }
    if gap > 70 {
        proof {
            let rest = (gap - 55) as nat;
            lemma_pow2_adds(55, lo_exponent as nat);
            lemma_pow2_adds(rest, 55 + lo_exponent as nat);
            lemma_pow2_pos(rest);
            assert(4 * l < pow2(55 + lo_exponent as nat)) by (nonlinear_arith)
                requires
                    l == lo_mantissa * pow2(lo_exponent as nat),
                    lo_mantissa < 0x20_0000_0000_0000,
                    pow2(55 + lo_exponent as nat) == 0x80_0000_0000_0000 * pow2(
                        lo_exponent as nat,
                    ),
                    pow2(lo_exponent as nat) > 0,
            ;
            assert(pow2(55 + lo_exponent as nat) <= pow2(hi_exponent as nat)) by (nonlinear_arith)
                requires
                    pow2(hi_exponent as nat) == pow2(rest) * pow2(55 + lo_exponent as nat),
                    pow2(rest) >= 1,
            ;
            lemma_rne_absorbs(hi_mantissa as nat, hi_exponent as nat, l);
            if hi_negative == lo_negative {
                lemma_rne_signed(hi_negative, h + l);
            } else {
                lemma_rne_signed(hi_negative, (h - l) as nat);
            }
        }
        return adjust_scaled(hi_negative, hi_mantissa, hi_exponent);
    }
    proof {
        lemma_pow2_adds(64, 6);
        if gap < 70 {
            lemma_pow2_strictly_increases(gap as nat, 70);
        }
    }
    let factor: u128 = power_of_two(gap);
    assert(hi_mantissa * factor < 0x20_0000_0000_0000 * 0x40_0000_0000_0000_0000)
        by (nonlinear_arith)
        requires
            hi_mantissa < 0x20_0000_0000_0000,
            0 < factor <= 0x40_0000_0000_0000_0000,
    ;
    let big: u128 = hi_mantissa as u128 * factor;
    let small: u128 = lo_mantissa as u128;
    proof {
        assert(h == big * pow2(lo_exponent as nat)) by (nonlinear_arith)
            requires
                h == hi_mantissa * pow2(hi_exponent as nat),
                pow2(hi_exponent as nat) == factor * pow2(lo_exponent as nat),
                big == hi_mantissa * factor,
        ;
    }
    let negative: bool;
    let total: u128;
    if hi_negative == lo_negative {
        negative = hi_negative;
        total = big + small;
    } else if big >= small {
        negative = hi_negative;
        total = big - small;
    } else {
        negative = lo_negative;
        total = small - big;
    }
    proof {
        let unit = pow2(lo_exponent as nat) as int;
        let magnitude = (total as nat) * pow2(lo_exponent as nat);
        assert((big + small) * unit == big * unit + small * unit) by (nonlinear_arith);
        assert((big - small) * unit == big * unit - small * unit) by (nonlinear_arith);
        assert((small - big) * unit == small * unit - big * unit) by (nonlinear_arith);
        assert(hi_units + lo_units == if negative {
            -(magnitude as int)
        } else {
            magnitude as int
        });
        lemma_rne_signed(negative, magnitude);
    }
    let (mantissa, exponent) = round_to_grid(total, lo_exponent);
    adjust_scaled(negative, mantissa, exponent)
}

/// The output byte for the input byte `v` under the transform with the given
/// scale and offset.
///
/// Fails with `InvalidParameter` exactly when the scale or the offset is
/// not finite.
pub fn adjust_value(v: u8, scale_bits: u64, offset_bits: u64) -> (result: Result<u8, TransformError>)
    ensures
        is_finite_bits(scale_bits) && is_finite_bits(offset_bits) ==> result.is_ok()
            && result.unwrap() as int == affine_byte(v as int, scale_bits, offset_bits),
        !(is_finite_bits(scale_bits) && is_finite_bits(offset_bits)) ==> result == Err::<
            u8,
            TransformError,
        >(TransformError::InvalidParameter),
{
    if !is_finite(scale_bits) || !is_finite(offset_bits) {
        return Err(TransformError::InvalidParameter);
    }
    let (s_negative, s_mantissa, s_exponent) = decode(scale_bits);
    let (o_negative, o_mantissa, o_exponent) = decode(offset_bits);
    assert(v * s_mantissa <= 255 * 0x20_0000_0000_0000) by (nonlinear_arith)
        requires
            v <= 255,
            s_mantissa <= 0x20_0000_0000_0000,
    ;
    let exact: u128 = v as u128 * s_mantissa as u128;
    let (p_mantissa, p_exponent) = round_to_grid(exact, s_exponent);
    proof {
        let unit = pow2(s_exponent as nat);
        lemma_pow2_pos(s_exponent as nat);
        let magnitude = (exact as nat) * unit;
        assert(v * (s_mantissa * unit) == (v * s_mantissa) * unit) by (nonlinear_arith);
        assert(v * (-(s_mantissa * unit)) == -((v * s_mantissa) * unit)) by (nonlinear_arith);
        assert(v * scaled_value(scale_bits) == if s_negative {
            -(magnitude as int)
        } else {
            magnitude as int
        });
        lemma_rne_signed(s_negative, magnitude);
        assert(product_value(v as int, scale_bits) == signed_units(
            s_negative,
            p_mantissa as nat,
            p_exponent as nat,
        ));
        if s_exponent > 0 && exact != 0 {
            assert(exact >= 0x10_0000_0000_0000) by (nonlinear_arith)
                requires
                    exact == v * s_mantissa,
                    exact != 0,
                    s_mantissa >= 0x10_0000_0000_0000,
                    v >= 0,
            ;
        }
    }
    Ok(sum_byte(s_negative, p_mantissa, p_exponent, o_negative, o_mantissa, o_exponent))
}

} // verus!
