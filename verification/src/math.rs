//! Fixed-point arithmetic helpers: integer square root, floor division on
//! signed integers, and a fixed-point natural logarithm.
//!
//! A fixed-point value `v` stands for the real number `v / FP`.

use vstd::prelude::*;
use vstd::arithmetic::div_mod::{
    lemma_div_is_ordered, lemma_div_pos_is_pos, lemma_fundamental_div_mod,
    lemma_fundamental_div_mod_converse, lemma_mod_bound, lemma_div_denominator,
    lemma_div_basics,
};
use vstd::arithmetic::power2::{
    pow2, lemma_pow2_unfold, lemma_pow2_pos, lemma_pow2_strictly_increases, lemma2_to64,
    lemma2_to64_rest,
};
use crate::FP;

verus! {

/// `ln(2)` in fixed-point units.
pub const LN2_FP: u64 = 693_147;

/// Integer square root: the largest `r` with `r * r <= x`.
pub fn isqrt(x: u128) -> (r: u64)
    ensures
        (r as int) * (r as int) <= x as int,
        (x as int) < (r as int + 1) * (r as int + 1),
{
    let mut lo: u64 = 0;
    let mut hi: u128 = 0x1_0000_0000_0000_0000;
    while (lo as u128) + 1 < hi
        invariant
            (lo as int) * (lo as int) <= x as int,
            (x as int) < (hi as int) * (hi as int),
            (lo as int) < hi as int,
            hi <= 0x1_0000_0000_0000_0000,
        decreases hi - lo,
    {
        let mid: u128 = ((lo as u128) + hi) / 2;
        proof {
            assert(mid < hi);
            assert(mid * mid < hi as int * hi as int) by (nonlinear_arith)
                requires 0 <= mid < hi;
            assert(hi as int * hi as int <= 0x1_0000_0000_0000_0000int * 0x1_0000_0000_0000_0000int)
                by (nonlinear_arith)
                requires 0 < hi <= 0x1_0000_0000_0000_0000int;
        }
        if mid * mid <= x {
            lo = mid as u64;
        } else {
            hi = mid;
        }
    }
    lo
}

/// Floor division of a signed value by a positive one, as spec-level `/`
/// (Euclidean division, which rounds toward negative infinity for a
/// positive divisor).
pub fn div_floor(a: i128, b: i128) -> (r: i128)
    requires
        b > 0,
        a > i128::MIN,
    ensures
        r == a as int / b as int,
{
    if a >= 0 {
        let q: u128 = (a as u128) / (b as u128);
        proof {
            lemma_div_pos_is_pos(a as int, b as int);
            lemma_fundamental_div_mod(a as int, b as int);
            lemma_mod_bound(a as int, b as int);
            assert(q <= a) by (nonlinear_arith)
                requires
                    (b as int) * (q as int) + (a as int % b as int) == a,
                    a as int % b as int >= 0,
                    b >= 1,
                    q >= 0;
        }
        q as i128
    } else {
        let na: u128 = (-a) as u128;
        let bb: u128 = b as u128;
        let q: u128 = (na + bb - 1) / bb;
        proof {
            lemma_neg_ceil_div(a as int, b as int);
            lemma_div_pos_is_pos((na + bb - 1) as int, b as int);
            lemma_fundamental_div_mod((na + bb - 1) as int, b as int);
            lemma_mod_bound((na + bb - 1) as int, b as int);
            assert(q <= na) by (nonlinear_arith)
                requires
                    (bb as int) * (q as int) + ((na + bb - 1) as int % bb as int)
                        == na + bb - 1,
                    (na + bb - 1) as int % bb as int >= 0,
                    bb >= 1,
                    na >= 1,
                    q >= 0;
        }
        -(q as i128)
    }
}

/// For `a < 0 < b`, the Euclidean quotient `a / b` equals the negated
/// rounded-up quotient of the magnitudes.
proof fn lemma_neg_ceil_div(a: int, b: int)
    requires
        a < 0,
        b > 0,
    ensures
        a / b == -((-a + b - 1) / b),
{
    let q = a / b;
    let r = a % b;
    lemma_fundamental_div_mod(a, b);
    lemma_mod_bound(a, b);
    assert(-a + b - 1 == (-q) * b + (b - 1 - r)) by (nonlinear_arith)
        requires a == b * q + r;
    lemma_fundamental_div_mod_converse(-a + b - 1, b, -q, b - 1 - r);
}

/// Number of halvings that bring `x` under `2 * FP`.
pub open spec fn norm_shift(x: int) -> nat
    decreases x,
{
    if x < 2 * FP {
        0
    } else {
        (1 + norm_shift(x / 2)) as nat
    }
}

/// The value `x` reaches after `norm_shift(x)` halvings; for `x >= FP` it
/// lies in `[FP, 2 * FP)`.
pub open spec fn norm_mantissa(x: int) -> int
    decreases x,
{
    if x < 2 * FP {
        x
    } else {
        norm_mantissa(x / 2)
    }
}

/// Number of doublings that bring `x` up to `FP` or above.
pub open spec fn lift_count(x: int) -> nat
    decreases 2 * FP - x,
{
    if x >= FP || x < 1 {
        0
    } else {
        (1 + lift_count(2 * x)) as nat
    }
}

/// The value `x` reaches after `lift_count(x)` doublings; for `1 <= x < FP`
/// it lies in `[FP, 2 * FP)`.
pub open spec fn lift_mantissa(x: int) -> int
    decreases 2 * FP - x,
{
    if x >= FP || x < 1 {
        x
    } else {
        lift_mantissa(2 * x)
    }
}

/// Fixed-point natural logarithm of a mantissa `t` in `[FP, 2 * FP)`,
/// through the series `ln(t/FP) = 2 * atanh(y)` with `y = (t-FP)/(t+FP)`,
/// truncated after the seventh power.
pub open spec fn ln_mantissa_series(t: int) -> int {
    let y = (t - FP) * FP / (t + FP);
    let y2 = y * y / (FP as int);
    let p3 = y * y2 / (FP as int);
    let p5 = p3 * y2 / (FP as int);
    let p7 = p5 * y2 / (FP as int);
    2 * (y + p3 / 3 + p5 / 5 + p7 / 7)
}

/// Fixed-point natural logarithm of `x / FP`: the power-of-two part times
/// `ln(2)` plus the series value of the remaining mantissa.
pub open spec fn ln_fp_spec(x: int) -> int {
    if x >= FP {
        norm_shift(x) * LN2_FP + ln_mantissa_series(norm_mantissa(x))
    } else {
        ln_mantissa_series(lift_mantissa(x)) - lift_count(x) * LN2_FP
    }
}

/// Fixed-point natural logarithm of `x / FP` (so `ln_fp(FP) == 0`), with
/// its value pinned by [`ln_fp_spec`] and bounded for the volatility code.
pub fn ln_fp(x: u64) -> (r: i64)
    requires
        1 <= x <= 1_000_000_000_000_000_000,
    ensures
        r == ln_fp_spec(x as int),
        -50_000_000 <= r <= 50_000_000,
{
    if x >= FP {
        let mut t: u64 = x;
        let mut k: u64 = 0;
        proof {
            lemma_div_basics(x as int);
            lemma2_to64();
        }
        while t >= 2 * FP
            invariant
                FP <= t <= x,
                x <= 1_000_000_000_000_000_000,
                norm_shift(x as int) == k + norm_shift(t as int),
                norm_mantissa(x as int) == norm_mantissa(t as int),
                t == x as int / (pow2(k as nat) as int),
                k <= 60,
            decreases t,
        {
            proof {
                lemma2_to64();
                lemma_pow2_pos(k as nat);
                lemma_pow2_unfold((k + 1) as nat);
                lemma_div_denominator(x as int, pow2(k as nat) as int, 2);
                lemma_fundamental_div_mod(x as int, pow2(k as nat) as int);
                lemma_mod_bound(x as int, pow2(k as nat) as int);
                assert(x as int >= pow2(k as nat)) by (nonlinear_arith)
                    requires
                        pow2(k as nat) * (x as int / pow2(k as nat) as int)
                            + x as int % pow2(k as nat) as int == x,
                        x as int % pow2(k as nat) as int >= 0,
                        x as int / pow2(k as nat) as int >= 1,
                        pow2(k as nat) >= 1;
                if k == 60 {
                    lemma2_to64_rest();
                    assert(pow2(60) == 0x1000000000000000);
                    assert(false);
                }
            }
            t = t / 2;
            k = k + 1;
        }
        let m = ln_mantissa(t);
        (k as i64) * (LN2_FP as i64) + m
    } else {
        let mut t: u64 = x;
        let mut k: u64 = 0;
        proof {
            lemma2_to64();
        }
        while t < FP
            invariant
                1 <= t < 2 * FP,
                lift_count(x as int) == k + lift_count(t as int),
                lift_mantissa(x as int) == lift_mantissa(t as int),
                t == (x as int) * pow2(k as nat),
                k <= 20,
            decreases 2 * FP - t,
        {
            proof {
                lemma2_to64();
                lemma_pow2_pos(k as nat);
                lemma_pow2_unfold((k + 1) as nat);
                assert(2 * (t as int) == (x as int) * pow2((k + 1) as nat))
                    by (nonlinear_arith)
                    requires
                        t == (x as int) * pow2(k as nat),
                        pow2((k + 1) as nat) == 2 * pow2(k as nat);
                assert(pow2(k as nat) <= t) by (nonlinear_arith)
                    requires
                        t == (x as int) * pow2(k as nat),
                        x >= 1,
                        pow2(k as nat) >= 1;
                if k == 20 {
                    assert(pow2(20) == 0x100000);
                    assert(false);
                }
            }
            t = t * 2;
            k = k + 1;
        }
        let m = ln_mantissa(t);
        m - (k as i64) * (LN2_FP as i64)
    }
}

/// Executable mantissa series, mirroring [`ln_mantissa_series`].
fn ln_mantissa(t: u64) -> (r: i64)
    requires
        FP <= t < 2 * FP,
    ensures
        r == ln_mantissa_series(t as int),
        0 <= r <= 8 * FP,
{
    let y: u64 = ((t - FP) * FP) / (t + FP);
    proof {
        assert(((t - FP) * FP) as int <= (FP as int) * ((t + FP) as int))
            by (nonlinear_arith)
            requires FP <= t;
        lemma_div_is_ordered(
            ((t - FP) * FP) as int, (FP as int) * ((t + FP) as int), (t + FP) as int);
        vstd::arithmetic::div_mod::lemma_div_by_multiple(FP as int, (t + FP) as int);
        assert((FP as int) * ((t + FP) as int) / ((t + FP) as int) == FP);
        lemma_div_pos_is_pos(((t - FP) * FP) as int, (t + FP) as int);
        assert(y <= FP);
    }
    proof {
        lemma_fp_product_bounded(y as int, y as int);
    }
    let y2: u64 = (y * y) / FP;
    proof {
        lemma_fp_product_bounded(y as int, y2 as int);
    }
    let p3: u64 = (y * y2) / FP;
    proof {
        lemma_fp_product_bounded(p3 as int, y2 as int);
    }
    let p5: u64 = (p3 * y2) / FP;
    proof {
        lemma_fp_product_bounded(p5 as int, y2 as int);
    }
    let p7: u64 = (p5 * y2) / FP;
    let r: u64 = 2 * (y + p3 / 3 + p5 / 5 + p7 / 7);
    r as i64
}

/// The fixed-point product of two values at most `FP` is at most `FP`.
proof fn lemma_fp_product_bounded(a: int, b: int)
    requires
        0 <= a <= FP,
        0 <= b <= FP,
    ensures
        0 <= a * b / (FP as int) <= FP,
        a * b <= FP * FP,
{
    assert(a * b <= FP * FP) by (nonlinear_arith)
        requires 0 <= a <= FP, 0 <= b <= FP;
    lemma_div_is_ordered(a * b, (FP as int) * (FP as int), FP as int);
    assert((FP as int) * (FP as int) / (FP as int) == FP) by (nonlinear_arith);
    lemma_div_pos_is_pos(a * b, FP as int);
}

} // verus!
