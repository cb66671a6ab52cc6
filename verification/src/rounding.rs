//! Rounding to the binary64 grid, on integers.
//!
//! Magnitudes are counted in units of `2^-1074`, the spacing of the smallest
//! binary64 numbers, so that every binary64 number is an integer. A number
//! is on the grid when it is `m * 2^e` with `m < 2^53`. Products and sums of
//! such numbers are integers too; `rne` sends an integer to the nearest
//! number on the grid, ties going to the one with the even significand.
//! The exponent is not bounded above here: what overflows to an infinity in
//! binary64 is a number of at least `2^2098` units here.

use vstd::prelude::*;
use vstd::arithmetic::power2::*;
use vstd::arithmetic::div_mod::*;
use vstd::arithmetic::mul::*;

verus! {

/// The exponent of the grid spacing around `x`: the least `e` with
/// `x < 2^(53 + e)`.
pub open spec fn ulp_exponent(x: nat) -> nat
    decreases x,
{
    if x < 0x20_0000_0000_0000 {
        0
    } else {
        1 + ulp_exponent(x / 2)
    }
}

/// `x / 2^t` rounded to the nearest integer, ties going to the even one.
pub open spec fn round_even(x: nat, t: nat) -> nat {
    let q = x / pow2(t);
    let r = x % pow2(t);
    if 2 * r > pow2(t) || (2 * r == pow2(t) && q % 2 == 1) {
        q + 1
    } else {
        q
    }
}

/// The number on the grid that is nearest to `x`, ties going to the even
/// significand.
pub open spec fn rne_nat(x: nat) -> nat {
    round_even(x, ulp_exponent(x)) * pow2(ulp_exponent(x))
}

/// `rne_nat` for either sign.
pub open spec fn rne(x: int) -> int {
    if x >= 0 {
        rne_nat(x as nat) as int
    } else {
        -(rne_nat((-x) as nat) as int)
    }
}

/// A number below `2^(53 + e)` has a spacing exponent of at most `e`.
pub proof fn lemma_ulp_exponent_at_most(x: nat, e: nat)
    requires
        x < pow2(53 + e),
    ensures
        ulp_exponent(x) <= e,
    decreases e,
{
    lemma2_to64_rest();
    if x >= 0x20_0000_0000_0000 {
        if e == 0 {
            assert(false);
        } else {
            lemma_pow2_adds(1, (53 + e - 1) as nat);
            lemma2_to64();
            lemma_ulp_exponent_at_most(x / 2, (e - 1) as nat);
        }
    }
}

/// A number from `2^(52 + e)` up to `2^(53 + e)` has the spacing exponent
/// `e`.
pub proof fn lemma_ulp_exponent_is(x: nat, e: nat)
    requires
        e >= 1,
        pow2(52 + e) <= x < pow2(53 + e),
    ensures
        ulp_exponent(x) == e,
    decreases e,
{
    lemma2_to64_rest();
    lemma2_to64();
    lemma_pow2_adds(1, (52 + e - 1) as nat);
    lemma_pow2_adds(1, (53 + e - 1) as nat);
    if e == 1 {
        assert(x / 2 < 0x20_0000_0000_0000);
        assert(x >= 0x20_0000_0000_0000);
        assert(ulp_exponent(x / 2) == 0);
    } else {
        lemma_pow2_strictly_increases(53, 52 + e);
        assert(52 + e - 1 == 52 + (e - 1) as nat);
        assert(53 + e - 1 == 53 + (e - 1) as nat);
        lemma_ulp_exponent_is(x / 2, (e - 1) as nat);
    }
    assert(ulp_exponent(x) == 1 + ulp_exponent(x / 2));
}

/// Cutting `t` more bits from a number that ends in `lo` zero bits rounds
/// as cutting `t` bits from the number without them.
pub proof fn lemma_round_even_shifted(a: nat, lo: nat, t: nat)
    ensures
        (a * pow2(lo)) / pow2(lo + t) == a / pow2(t),
        (a * pow2(lo)) % pow2(lo + t) == (a % pow2(t)) * pow2(lo),
        round_even(a * pow2(lo), lo + t) == round_even(a, t),
{
    lemma_pow2_pos(lo);
    lemma_pow2_pos(t);
    lemma_pow2_adds(lo, t);
    let p = pow2(lo) as int;
    let d = pow2(t) as int;
    let q = a as int / d;
    let r = a as int % d;
    lemma_fundamental_div_mod(a as int, d);
    lemma_mod_bound(a as int, d);
    lemma_div_pos_is_pos(a as int, d);
    assert(a * p == q * (p * d) + r * p) by (nonlinear_arith)
        requires
            a == d * q + r,
    ;
    assert(0 <= r * p < p * d) by (nonlinear_arith)
        requires
            0 <= r < d,
            p > 0,
    ;
    lemma_fundamental_div_mod_converse(a * p, p * d, q, r * p);
    assert((2 * (r * p) > p * d) == (2 * r > d)) by (nonlinear_arith)
        requires
            p > 0,
    ;
    assert((2 * (r * p) == p * d) == (2 * r == d)) by (nonlinear_arith)
        requires
            p > 0,
    ;
}

/// A number on the grid rounds to itself.
pub proof fn lemma_rne_fixed(m: nat, e: nat)
    requires
        m < pow2(53),
    ensures
        rne_nat(m * pow2(e)) == m * pow2(e),
{
    let x = m * pow2(e);
    lemma_pow2_pos(e);
    lemma_pow2_adds(53, e);
    assert(x < pow2(53) * pow2(e)) by (nonlinear_arith)
        requires
            x == m * pow2(e),
            m < pow2(53),
            pow2(e) > 0,
    ;
    lemma_ulp_exponent_at_most(x, e);
    let u = ulp_exponent(x);
    let rest = (e - u) as nat;
    lemma_pow2_adds(rest, u);
    lemma_pow2_pos(u);
    lemma_pow2_pos(rest);
    let k = m * pow2(rest);
    assert(x == k * pow2(u)) by (nonlinear_arith)
        requires
            x == m * pow2(e),
            pow2(e) == pow2(rest) * pow2(u),
            k == m * pow2(rest),
    ;
    lemma_fundamental_div_mod_converse(x as int, pow2(u) as int, k as int, 0);
}

/// A number that takes `53 + t` bits rounds to its leading 53 bits, rounded
/// on the `t` bits that follow; trailing zero bits take no part.
pub proof fn lemma_rne_of_long(a: nat, lo: nat, t: nat)
    requires
        t >= 1,
        pow2(52 + t) <= a < pow2(53 + t),
    ensures
        rne_nat(a * pow2(lo)) == round_even(a, t) * pow2(lo + t),
{
    let x = a * pow2(lo);
    lemma_pow2_pos(lo);
    lemma_pow2_adds(52 + t, lo);
    lemma_pow2_adds(53 + t, lo);
    assert(pow2(52 + t) * pow2(lo) <= x < pow2(53 + t) * pow2(lo)) by (nonlinear_arith)
        requires
            x == a * pow2(lo),
            pow2(52 + t) <= a < pow2(53 + t),
            pow2(lo) > 0,
    ;
    assert(52 + t + lo == 52 + (lo + t));
    assert(53 + t + lo == 53 + (lo + t));
    lemma_ulp_exponent_is(x, lo + t);
    lemma_round_even_shifted(a, lo, t);
}

/// A number on the grid that is far larger than what is added to it or
/// taken from it comes back when the result is rounded: with
/// `h = m * 2^e` and `0 < 4 * l < 2^e`, both `h + l` and `h - l` round to `h`.
pub proof fn lemma_rne_absorbs(m: nat, e: nat, l: nat)
    requires
        pow2(52) <= m < pow2(53),
        e >= 2,
        0 < l,
        4 * l < pow2(e),
    ensures
        rne_nat(m * pow2(e) + l) == m * pow2(e),
        m * pow2(e) >= l,
        rne_nat((m * pow2(e) - l) as nat) == m * pow2(e),
{
    let p = pow2(e) as int;
    let h = (m * pow2(e)) as int;
    lemma_pow2_pos(e);
    lemma_pow2_adds(52, e);
    lemma_pow2_adds(53, e);
    lemma_pow2_adds(1, 52);
    lemma2_to64();
    assert(pow2(52) * p <= h <= (pow2(53) - 1) * p) by (nonlinear_arith)
        requires
            h == m * p,
            pow2(52) <= m < pow2(53),
            p > 0,
    ;
    assert((pow2(53) - 1) * p == pow2(53) * p - p) by (nonlinear_arith);
    // towards larger magnitude
    {
        let x = (h + l) as nat;
        lemma_ulp_exponent_is(x, e);
        lemma_fundamental_div_mod_converse(x as int, p, m as int, l as int);
    }
    // towards smaller magnitude
    if m > pow2(52) {
        let x = (h - l) as nat;
        assert(h == (m - 1) * p + p) by (nonlinear_arith)
            requires
                h == m * p,
        ;
        assert((m - 1) * p >= pow2(52) * p) by (nonlinear_arith)
            requires
                m - 1 >= pow2(52),
                p > 0,
        ;
        lemma_ulp_exponent_is(x, e);
        lemma_fundamental_div_mod_converse(x as int, p, m - 1, p - l);
    } else {
        let x = (h - l) as nat;
        let f = (e - 1) as nat;
        let half = pow2(f) as int;
        lemma_pow2_pos(f);
        lemma_pow2_adds(1, f);
        lemma_pow2_adds(52, f);
        lemma_pow2_adds(53, f);
        assert(p == 2 * half);
        assert(h == pow2(53) * half) by (nonlinear_arith)
            requires
                h == pow2(52) * p,
                p == 2 * half,
                pow2(53) == 2 * pow2(52),
        ;
        assert(h == (pow2(53) - 1) * half + half) by (nonlinear_arith)
            requires
                h == pow2(53) * half,
        ;
        assert((pow2(53) - 1) * half >= pow2(52) * half) by (nonlinear_arith)
            requires
                pow2(53) - 1 >= pow2(52),
                half > 0,
        ;
        lemma_ulp_exponent_is(x, f);
        lemma_fundamental_div_mod_converse(x as int, half, pow2(53) - 1, half - l);
        assert((pow2(53) - 1) % 2 == 1);
    }
}

/// A number lies below `2^53` spacings of its own, and, unless the spacing
/// is the smallest, at or above `2^52` of them.
pub proof fn lemma_ulp_exponent_bounds(x: nat)
    ensures
        x < pow2(53 + ulp_exponent(x)),
        ulp_exponent(x) >= 1 ==> x >= pow2(52 + ulp_exponent(x)),
    decreases x,
{
    lemma2_to64();
    lemma2_to64_rest();
    if x >= 0x20_0000_0000_0000 {
        lemma_ulp_exponent_bounds(x / 2);
        let inner = ulp_exponent(x / 2);
        assert(ulp_exponent(x) == 1 + inner);
        lemma_pow2_adds(1, 53 + inner);
        lemma_pow2_adds(1, 52 + inner);
        assert(53 + (1 + inner) == 1 + (53 + inner));
        assert(52 + (1 + inner) == 1 + (52 + inner));
    }
}

/// Rounding to the grid keeps the order of magnitudes.
pub proof fn lemma_rne_nat_monotone(x: nat, y: nat)
    requires
        x <= y,
    ensures
        rne_nat(x) <= rne_nat(y),
{
    let ex = ulp_exponent(x);
    let ey = ulp_exponent(y);
    lemma_ulp_exponent_bounds(x);
    lemma_ulp_exponent_bounds(y);
    if ex > ey {
        if 53 + ey < 52 + ex {
            lemma_pow2_strictly_increases(53 + ey, 52 + ex);
        }
        assert(false);
    }
    let px = pow2(ex) as int;
    let py = pow2(ey) as int;
    lemma_pow2_pos(ex);
    lemma_pow2_pos(ey);
    let qx = x as int / px;
    let rx = x as int % px;
    let qy = y as int / py;
    let ry = y as int % py;
    lemma_fundamental_div_mod(x as int, px);
    lemma_fundamental_div_mod(y as int, py);
    lemma_mod_bound(x as int, px);
    lemma_mod_bound(y as int, py);
    lemma_div_pos_is_pos(x as int, px);
    lemma_div_pos_is_pos(y as int, py);
    let ux = round_even(x, ex) as int;
    let uy = round_even(y, ey) as int;
    assert(qx <= ux <= qx + 1);
    assert(qy <= uy <= qy + 1);
    if ex == ey {
        lemma_div_is_ordered(x as int, y as int, px);
        if qx == qy {
            assert(rx <= ry);
        }
        assert(ux <= uy);
        assert(ux * px <= uy * px) by (nonlinear_arith)
            requires
                ux <= uy,
                px > 0,
        ;
    } else {
        lemma_pow2_adds(53, ex);
        lemma_pow2_adds(52, ey);
        if 53 + ex < 52 + ey {
            lemma_pow2_strictly_increases(53 + ex, 52 + ey);
        }
        assert(qx < pow2(53)) by (nonlinear_arith)
            requires
                x == px * qx + rx,
                rx >= 0,
                x < pow2(53) * px,
                px > 0,
        ;
        assert(qy >= pow2(52)) by (nonlinear_arith)
            requires
                y == py * qy + ry,
                ry < py,
                y >= pow2(52) * py,
                py > 0,
        ;
        assert(ux * px <= pow2(53) * px) by (nonlinear_arith)
            requires
                ux <= pow2(53),
                px > 0,
        ;
        assert(uy * py >= pow2(52) * py) by (nonlinear_arith)
            requires
                uy >= pow2(52),
                py > 0,
        ;
    }
}

/// Rounding to the grid keeps the order of numbers of either sign.
pub proof fn lemma_rne_monotone(x: int, y: int)
    requires
        x <= y,
    ensures
        rne(x) <= rne(y),
{
    if x >= 0 {
        lemma_rne_nat_monotone(x as nat, y as nat);
    } else if y < 0 {
        lemma_rne_nat_monotone((-y) as nat, (-x) as nat);
    }
}

/// Rounds `a * 2^lo` to the grid. The result is `mantissa * 2^exponent` with
/// a mantissa below `2^53`, and of at least `2^52` where `a` is.
pub fn round_to_grid(a: u128, lo: u32) -> (out: (u64, u32))
    requires
        a < 0x2000_0000_0000_0000_0000_0000_0000_0000,
        lo <= 4096,
    ensures
        out.0 * pow2(out.1 as nat) == rne_nat((a as nat) * pow2(lo as nat)),
        out.0 < 0x20_0000_0000_0000,
        a >= 0x10_0000_0000_0000 ==> out.0 >= 0x10_0000_0000_0000,
        a < 0x20_0000_0000_0000 ==> out.0 == a && out.1 == lo,
        lo <= out.1 <= lo + 80,
{
    proof {
        lemma2_to64();
        lemma2_to64_rest();
    }
    if a < 0x20_0000_0000_0000 {
        proof {
            lemma_rne_fixed(a as nat, lo as nat);
        }
        return (a as u64, lo);
    }
    let mut t: u32 = 0;
    let mut p: u128 = 1;
    while a / p >= 0x20_0000_0000_0000
        invariant
            p == pow2(t as nat),
            p >= 1,
            a >= 0x10_0000_0000_0000 * p,
            a >= 0x20_0000_0000_0000,
            a < 0x2000_0000_0000_0000_0000_0000_0000_0000,
            t <= 72,
        decreases 100 - t,
    {
        proof {
            let ai = a as int;
            let pi = p as int;
            lemma_fundamental_div_mod(ai, pi);
            lemma_mod_bound(ai, pi);
            assert(ai >= 0x20_0000_0000_0000 * pi) by (nonlinear_arith)
                requires
                    ai == pi * (ai / pi) + ai % pi,
                    ai % pi >= 0,
                    ai / pi >= 0x20_0000_0000_0000,
                    pi >= 1,
            ;
            lemma_pow2_adds(1, t as nat);
            lemma_pow2_adds(64, 8);
            lemma2_to64();
            if t >= 72 {
                if t > 72 {
                    lemma_pow2_strictly_increases(72, t as nat);
                }
                assert(false);
            }
        }
        p = p * 2;
        t = t + 1;
    }
    let q: u128 = a / p;
    let r: u128 = a % p;
    let half: u128 = p / 2;
    proof {
        if t == 0 {
            assert(p == 1);
            lemma_div_basics(a as int);
            assert(a as int / 1 == a);
        }
        assert(t >= 1);
        lemma_pow2_adds(1, (t - 1) as nat);
        assert(p == 2 * half);
        lemma_fundamental_div_mod(a as int, p as int);
        lemma_mod_bound(a as int, p as int);
        lemma_pow2_adds(52, t as nat);
        lemma_pow2_adds(53, t as nat);
        assert(a < 0x20_0000_0000_0000 * p) by (nonlinear_arith)
            requires
                a == p * q + r,
                r < p,
                q < 0x20_0000_0000_0000,
        ;
        assert(q >= 0x10_0000_0000_0000) by (nonlinear_arith)
            requires
                a == p * q + r,
                0 <= r < p,
                a >= 0x10_0000_0000_0000 * p,
                p >= 1,
                q >= 0,
        ;
        lemma_rne_of_long(a as nat, lo as nat, t as nat);
    }
    let up: bool = r > half || (r == half && q % 2 == 1);
    let mut mantissa: u64 = q as u64;
    if up {
        mantissa = mantissa + 1;
    }
    assert(mantissa == round_even(a as nat, t as nat));
    if mantissa == 0x20_0000_0000_0000 {
        proof {
            lemma_pow2_adds(1, (lo + t) as nat);
            assert(0x20_0000_0000_0000 * pow2((lo + t) as nat) == 0x10_0000_0000_0000 * pow2(
                (lo + t + 1) as nat,
            )) by (nonlinear_arith)
                requires
                    pow2((lo + t + 1) as nat) == 2 * pow2((lo + t) as nat),
            ;
        }
        return (0x10_0000_0000_0000, lo + t + 1);
    }
    (mantissa, lo + t)
}

} // verus!
