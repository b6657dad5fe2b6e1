//! The random source of the simulation: a seeded generator owned by the
//! caller, behind a small trusted boundary, with verified sampling built
//! on top of uniform integer draws.
//!
//! Only the two draws at the bottom are trusted; everything derived from
//! them (fractions, Bernoulli decisions, the bell-shaped noise) is
//! verified code.

use vstd::prelude::*;
use crate::FP;

verus! {

#[verifier::external_type_specification]
#[verifier::external_body]
pub struct ExStdRng(rand::rngs::StdRng);

/// Relies on rand's `SeedableRng::seed_from_u64` for `StdRng`: builds a
/// generator whose output is a function of the 64-bit seed alone.
#[verifier::external_body]
pub fn rng_from_seed(seed: u64) -> rand::rngs::StdRng {
    <rand::rngs::StdRng as rand::SeedableRng>::seed_from_u64(seed)
}

/// Relies on rand's `RngExt::random_range`: a value drawn uniformly from
/// `[0, n)`. It panics only on an empty range, which `n >= 1` rules out.
#[verifier::external_body]
pub fn rng_below(rng: &mut rand::rngs::StdRng, n: u64) -> (r: u64)
    requires
        n >= 1,
    ensures
        r < n,
{
    rand::RngExt::random_range(rng, 0..n)
}

/// A uniform fixed-point fraction in `[0, FP]`.
pub fn rng_fraction(rng: &mut rand::rngs::StdRng) -> (r: u64)
    ensures
        r <= FP,
{
    rng_below(rng, FP + 1)
}

/// A Bernoulli decision: true with probability `p / FP`. Impossible
/// outcomes are pinned: probability zero never fires and probability one
/// (or more) always does.
pub fn rng_chance(rng: &mut rand::rngs::StdRng, p: u64) -> (r: bool)
    ensures
        p == 0 ==> r == false,
        p >= FP ==> r == true,
{
    let draw = rng_below(rng, FP);
    draw < p
}

/// A bell-shaped fixed-point noise draw around `mean` with spread `sd`:
/// the sum of twelve uniform fractions, recentred, approximates a standard
/// normal variate `z` in `[-6, 6]`, and the result is `mean + sd * z`.
/// Whatever the draws, the result stays within six spreads of the mean.
pub fn normal_fp(rng: &mut rand::rngs::StdRng, mean: i128, sd: u64) -> (r: i128)
    requires
        -0x1_0000_0000_0000_0000_0000i128 <= mean <= 0x1_0000_0000_0000_0000_0000i128,
    ensures
        mean - 6 * sd <= r <= mean + 6 * sd,
{
    let mut acc: u64 = 0;
    let mut i: usize = 0;
    while i < 12
        invariant
            0 <= i <= 12,
            acc <= (i as int) * FP,
        decreases 12 - i,
    {
        let u = rng_fraction(rng);
        acc = acc + u;
        i = i + 1;
    }
    let z: i128 = (acc as i128) - 6 * (FP as i128);
    proof {
        assert(-(6 * FP as int) <= z <= 6 * FP as int);
        assert(-(6 * (FP as int) * (sd as int)) <= z * sd
            <= 6 * (FP as int) * (sd as int)) by (nonlinear_arith)
            requires
                -(6 * FP as int) <= z <= 6 * FP as int,
                0 <= sd;
        assert(6 * (FP as int) * (sd as int) == (6 * (sd as int)) * (FP as int))
            by (nonlinear_arith);
        vstd::arithmetic::div_mod::lemma_div_is_ordered(
            z * sd, (6 * (sd as int)) * (FP as int), FP as int);
        vstd::arithmetic::div_mod::lemma_div_is_ordered(
            -((6 * (sd as int)) * (FP as int)), z * sd, FP as int);
        vstd::arithmetic::div_mod::lemma_div_multiples_vanish(
            6 * (sd as int), FP as int);
        vstd::arithmetic::div_mod::lemma_div_multiples_vanish(
            -(6 * (sd as int)), FP as int);
        assert(-((6 * (sd as int)) * (FP as int)) == (FP as int) * (-(6 * (sd as int)))
            && (6 * (sd as int)) * (FP as int) == (FP as int) * (6 * (sd as int)))
            by (nonlinear_arith);
    }
    let scaled: i128 = crate::math::div_floor(z * (sd as i128), FP as i128);
    mean + scaled
}

} // verus!
