//! Configuration of a simulation run: market parameters and the
//! per-parameter probability distributions agents are sampled from.
//!
//! All real-valued parameters are fixed-point integers scaled by [`FP`].

use vstd::prelude::*;
use crate::{FP, MAX_PRICE, MAX_MARKETS, MAX_HISTORY};
use crate::rng::{rng_below, rng_chance};
use crate::math::div_floor;

verus! {

/// Market-level parameters.
#[derive(Debug, Clone)]
pub struct MarketConfig {
    pub market_count: usize,
    /// Initial price in fixed-point units.
    pub initial_price: u64,
    /// Initial volatility in fixed-point units.
    pub initial_volatility: u64,
    /// Price history retention length.
    pub price_history_count: usize,
}

/// Bounds under which the engine's arithmetic stays exact.
pub open spec fn market_config_wf(c: MarketConfig) -> bool {
    &&& 1 <= c.market_count <= MAX_MARKETS
    &&& 1 <= c.initial_price <= MAX_PRICE
    &&& 1 <= c.price_history_count <= MAX_HISTORY
}

impl Default for MarketConfig {
    /// Three markets at price 100 with volatility 0.003 and a history of
    /// twenty prices.
    fn default() -> (r: Self)
        ensures
            market_config_wf(r),
            r.market_count == 3,
            r.initial_price == 100 * FP,
            r.initial_volatility == 3_000,
            r.price_history_count == 20,
    {
        MarketConfig {
            market_count: 3,
            initial_price: 100_000_000,
            initial_volatility: 3_000,
            price_history_count: 20,
        }
    }
}

/// A probability distribution over fixed-point values.
#[derive(Debug)]
pub enum Distribution {
    /// Uniform over `[start, end)`.
    Uniform { start: i64, end: i64 },
    /// Bell-shaped around `mean` with spread `sd` (negative spreads act
    /// as zero).
    Normal { mean: i64, sd: i64 },
    /// `FP` with probability `p / FP`, else zero.
    Bernoulli { p: u64 },
    /// The inner distribution clamped into `[min, max]`.
    Clamp { min: i64, max: i64, inner: Box<Distribution> },
    /// The inner distribution rounded to a whole number of units
    /// (half-up).
    Round { inner: Box<Distribution> },
}

/// The fixed-point bound every sample of the library's distributions
/// stays within, given parameters within `SAMPLE_PARAM_BOUND`.
pub const SAMPLE_BOUND: i64 = 4_000_000_000_000_000_000;

/// Largest parameter magnitude a well-formed distribution may carry.
pub const SAMPLE_PARAM_BOUND: i64 = 1_000_000_000_000_000;

/// Parameters inside the bounds that keep sampling free of overflow.
pub open spec fn distribution_wf(d: Distribution) -> bool
    decreases d,
{
    match d {
        Distribution::Uniform { start, end } =>
            -SAMPLE_PARAM_BOUND <= start <= SAMPLE_PARAM_BOUND
                && -SAMPLE_PARAM_BOUND <= end <= SAMPLE_PARAM_BOUND,
        Distribution::Normal { mean, sd } =>
            -SAMPLE_PARAM_BOUND <= mean <= SAMPLE_PARAM_BOUND
                && -SAMPLE_PARAM_BOUND <= sd <= SAMPLE_PARAM_BOUND,
        Distribution::Bernoulli { p } => true,
        Distribution::Clamp { min, max, inner } =>
            -SAMPLE_PARAM_BOUND <= min <= SAMPLE_PARAM_BOUND
                && -SAMPLE_PARAM_BOUND <= max <= SAMPLE_PARAM_BOUND
                && distribution_wf(*inner),
        Distribution::Round { inner } => distribution_wf(*inner),
    }
}

/// The non-negative whole count a fixed-point sample rounds to: zero when
/// the sample is not positive, else half-up to the nearest unit.
pub open spec fn rounded_count(v: int) -> int {
    if v <= 0 {
        0
    } else {
        (v + FP / 2) / (FP as int)
    }
}

/// The whole signed count a fixed-point sample rounds to, half-up.
pub open spec fn rounded_signed(v: int) -> int {
    (v + FP / 2) / (FP as int)
}

/// [`rounded_count`] saturated into the machine's count range.
pub open spec fn counted(v: int) -> int {
    if rounded_count(v) > usize::MAX {
        usize::MAX as int
    } else {
        rounded_count(v)
    }
}

/// [`rounded_signed`] saturated into the machine's signed count range.
pub open spec fn counted_signed(v: int) -> int {
    if rounded_signed(v) > isize::MAX {
        isize::MAX as int
    } else if rounded_signed(v) < isize::MIN {
        isize::MIN as int
    } else {
        rounded_signed(v)
    }
}

/// Rounding to a count preserves order.
proof fn lemma_rounded_count_monotone(a: int, b: int)
    requires
        a <= b,
    ensures
        rounded_count(a) <= rounded_count(b),
        counted(a) <= counted(b),
{
    if a > 0 {
        vstd::arithmetic::div_mod::lemma_div_is_ordered(
            a + FP / 2, b + FP / 2, FP as int);
    } else if b > 0 {
        vstd::arithmetic::div_mod::lemma_div_pos_is_pos(b + FP / 2, FP as int);
    }
}

/// Rounding to a signed count preserves order.
proof fn lemma_rounded_signed_monotone(a: int, b: int)
    requires
        a <= b,
    ensures
        rounded_signed(a) <= rounded_signed(b),
        counted_signed(a) <= counted_signed(b),
{
    vstd::arithmetic::div_mod::lemma_div_is_ordered(
        a + FP / 2, b + FP / 2, FP as int);
}

impl Distribution {
    /// A distribution that always yields `val`.
    pub fn static_value(val: i64) -> (r: Distribution)
        ensures
            r == (Distribution::Normal { mean: val, sd: 0i64 }),
    {
        Distribution::Normal { mean: val, sd: 0 }
    }

    /// Draw one fixed-point sample. Whatever the draws: uniform samples
    /// stay inside their interval, bell samples within six spreads of
    /// their mean, Bernoulli samples are zero or `FP`, clamped samples
    /// honor their interval, and rounded samples are whole units.
    pub fn sample_fp(&self, rng: &mut rand::rngs::StdRng) -> (r: i64)
        requires
            distribution_wf(*self),
        ensures
            -SAMPLE_BOUND <= r <= SAMPLE_BOUND,
            self matches Distribution::Uniform { start, end }
                ==> (((*start) < *end ==> *start <= r < *end)
                    && ((*start) >= *end ==> r == *start)),
            self matches Distribution::Normal { mean, sd }
                ==> (*mean) - 6 * (if *sd < 0 { 0 } else { *sd as int })
                    <= r <= (*mean) + 6 * (if *sd < 0 { 0 } else { *sd as int }),
            self matches Distribution::Normal { mean, sd: 0i64 } ==> r == *mean,
            self matches Distribution::Bernoulli { p: _ } ==> r == 0 || r == FP,
            self matches Distribution::Bernoulli { p: 0u64 } ==> r == 0,
            self matches Distribution::Clamp { min, max, inner: _ }
                ==> ((*min) <= *max ==> *min <= r <= *max),
            self matches Distribution::Round { inner: _ } ==> r % (FP as i64) == 0,
        decreases *self,
    {
        match self {
            Distribution::Uniform { start, end } => {
                let s = *start;
                let e = *end;
                if s >= e {
                    s
                } else {
                    let off = rng_below(rng, (e - s) as u64);
                    s + off as i64
                }
            }
            Distribution::Normal { mean, sd } => {
                let s: u64 = if *sd < 0 {
                    0
                } else {
                    *sd as u64
                };
                let v = crate::rng::normal_fp(rng, *mean as i128, s);
                v as i64
            }
            Distribution::Bernoulli { p } => {
                if rng_chance(rng, *p) {
                    FP as i64
                } else {
                    0
                }
            }
            Distribution::Clamp { min, max, inner } => {
                let v = inner.sample_fp(rng);
                if v < *min {
                    *min
                } else if v > *max {
                    *max
                } else {
                    v
                }
            }
            Distribution::Round { inner } => {
                let v = inner.sample_fp(rng);
                proof {
                    vstd::arithmetic::div_mod::lemma_fundamental_div_mod(
                        v as int + FP / 2, FP as int);
                    vstd::arithmetic::div_mod::lemma_mod_bound(
                        v as int + FP / 2, FP as int);
                    assert((FP as int) * ((v as int + FP / 2) / (FP as int))
                        % (FP as int) == 0) by {
                        vstd::arithmetic::div_mod::lemma_mod_multiples_basic(
                            (v as int + FP / 2) / (FP as int), FP as int);
                    }
                }
                let q = div_floor((v as i128) + (FP / 2) as i128, FP as i128);
                (q as i64) * (FP as i64)
            }
        }
    }

    /// Draw a sample and round it to a non-negative whole count: zero for
    /// non-positive samples, else half-up to the nearest unit. Fixed
    /// distributions round exactly; interval-shaped ones stay within their
    /// rounded interval; Bernoulli counts are zero or one.
    pub fn sample_usize(&self, rng: &mut rand::rngs::StdRng) -> (r: usize)
        requires
            distribution_wf(*self),
        ensures
            r <= SAMPLE_BOUND as int / FP as int + 1,
            self matches Distribution::Normal { mean, sd: 0i64 }
                ==> r == counted(*mean as int),
            self matches Distribution::Uniform { start, end }
                ==> (((*start) < *end ==> counted(*start as int) <= r
                        <= counted(*end as int - 1))
                    && ((*start) >= *end ==> r == counted(*start as int))),
            self matches Distribution::Bernoulli { p: _ } ==> r == 0 || r == 1,
            self matches Distribution::Clamp { min, max, inner: _ }
                ==> ((*min) <= *max ==> counted(*min as int) <= r
                    <= counted(*max as int)),
    {
        let v = self.sample_fp(rng);
        let r: usize = if v <= 0 {
            proof {
                assert(counted(v as int) == 0);
            }
            0
        } else {
            proof {
                vstd::arithmetic::div_mod::lemma_div_is_ordered(
                    v as int + FP / 2, SAMPLE_BOUND as int + FP / 2, FP as int);
                vstd::arithmetic::div_mod::lemma_div_pos_is_pos(
                    v as int + FP / 2, FP as int);
                vstd::arithmetic::div_mod::lemma_fundamental_div_mod_converse(
                    SAMPLE_BOUND as int + FP / 2, FP as int,
                    4_000_000_000_000int, 500_000int);
            }
            let q = div_floor((v as i128) + (FP / 2) as i128, FP as i128);
            let w: usize = if q > usize::MAX as i128 {
                usize::MAX
            } else {
                q as usize
            };
            proof {
                assert(q == (v as int + FP / 2) / (FP as int));
                assert(rounded_count(v as int) == (v as int + FP / 2) / (FP as int));
                assert(w == counted(v as int));
            }
            w
        };
        proof {
            assert(r == counted(v as int));
            match self {
                Distribution::Uniform { start, end } => {
                    if *start < *end {
                        lemma_rounded_count_monotone(*start as int, v as int);
                        lemma_rounded_count_monotone(v as int, *end as int - 1);
                    }
                }
                Distribution::Clamp { min, max, inner: _ } => {
                    if *min <= *max {
                        lemma_rounded_count_monotone(*min as int, v as int);
                        lemma_rounded_count_monotone(v as int, *max as int);
                    }
                }
                _ => {}
            }
        }
        r
    }

    /// Draw a sample and round it half-up to a whole signed count, with
    /// the same per-variant outcomes as [`Self::sample_usize`] but without
    /// the floor at zero.
    pub fn sample_isize(&self, rng: &mut rand::rngs::StdRng) -> (r: isize)
        requires
            distribution_wf(*self),
        ensures
            -(SAMPLE_BOUND as int / FP as int) - 1 <= r
                <= SAMPLE_BOUND as int / FP as int + 1,
            self matches Distribution::Normal { mean, sd: 0i64 }
                ==> r == counted_signed(*mean as int),
            self matches Distribution::Uniform { start, end }
                ==> (((*start) < *end ==> counted_signed(*start as int) <= r
                        <= counted_signed(*end as int - 1))
                    && ((*start) >= *end ==> r == counted_signed(*start as int))),
            self matches Distribution::Bernoulli { p: _ } ==> r == 0 || r == 1,
            self matches Distribution::Clamp { min, max, inner: _ }
                ==> ((*min) <= *max ==> counted_signed(*min as int) <= r
                    <= counted_signed(*max as int)),
    {
        let v = self.sample_fp(rng);
        let q = div_floor((v as i128) + (FP / 2) as i128, FP as i128);
        proof {
            vstd::arithmetic::div_mod::lemma_div_is_ordered(
                v as int + FP / 2, SAMPLE_BOUND as int + FP / 2, FP as int);
            vstd::arithmetic::div_mod::lemma_div_is_ordered(
                -(SAMPLE_BOUND as int) + FP / 2, v as int + FP / 2, FP as int);
            vstd::arithmetic::div_mod::lemma_fundamental_div_mod_converse(
                SAMPLE_BOUND as int + FP / 2, FP as int,
                4_000_000_000_000int, 500_000int);
            vstd::arithmetic::div_mod::lemma_fundamental_div_mod_converse(
                -(SAMPLE_BOUND as int) + FP / 2, FP as int,
                -4_000_000_000_000int, 500_000int);
            assert(q == rounded_signed(v as int));
            match self {
                Distribution::Uniform { start, end } => {
                    if *start < *end {
                        lemma_rounded_signed_monotone(*start as int, v as int);
                        lemma_rounded_signed_monotone(v as int, *end as int - 1);
                    }
                }
                Distribution::Clamp { min, max, inner: _ } => {
                    if *min <= *max {
                        lemma_rounded_signed_monotone(*min as int, v as int);
                        lemma_rounded_signed_monotone(v as int, *max as int);
                    }
                }
                _ => {}
            }
        }
        let w: isize = if q > isize::MAX as i128 {
            isize::MAX
        } else if q < isize::MIN as i128 {
            isize::MIN
        } else {
            q as isize
        };
        proof {
            assert(w == counted_signed(v as int));
        }
        w
    }

    /// Draw a boolean: directly for Bernoulli, else whether the rounded
    /// sample is non-zero.
    pub fn sample_bool(&self, rng: &mut rand::rngs::StdRng) -> (r: bool)
        requires
            distribution_wf(*self),
        ensures
            self matches Distribution::Bernoulli { p: 0u64 } ==> r == false,
            (self matches Distribution::Bernoulli { p } && *p >= FP) ==> r == true,
    {
        match self {
            Distribution::Bernoulli { p } => rng_chance(rng, *p),
            _ => self.sample_usize(rng) != 0,
        }
    }
}

/// Agent-level parameters: the population sizes and the distributions
/// each per-agent parameter is sampled from at creation.
#[derive(Debug)]
pub struct AgentConfig {
    /// Total count of fundamentalist reference vectors.
    pub fundamentalist_count: usize,
    /// Total count of trading agents.
    pub agent_count: usize,
    /// How many influencers are drawn for an influenced agent.
    pub influencers_count: Distribution,
    /// Probability of placing an order on a market each step.
    pub order_probability: Distribution,
    /// Probability of being influenced each step.
    pub influence_probability: Distribution,
    /// Steps until an influence is evaluated retrospectively; should stay
    /// below the market's price history length.
    pub reflection_delay: Distribution,
    /// Correlation threshold above which an influencer becomes a friend;
    /// anything above one disables friends.
    pub friend_threshold: Distribution,
    /// Friend queue capacity.
    pub max_friends: Distribution,
    /// Probability that each friend joins the influencer set.
    pub friend_influence_probability: Distribution,
    /// Initial cash.
    pub initial_cash: Distribution,
    /// Initial per-market asset count.
    pub initial_assets: Distribution,
    /// Initial per-market belief.
    pub initial_state: Distribution,
}

/// All parameter distributions within sampling bounds.
pub open spec fn agent_config_wf(c: AgentConfig) -> bool {
    &&& c.agent_count + c.fundamentalist_count <= usize::MAX
    &&& distribution_wf(c.influencers_count)
    &&& distribution_wf(c.order_probability)
    &&& distribution_wf(c.influence_probability)
    &&& distribution_wf(c.reflection_delay)
    &&& distribution_wf(c.friend_threshold)
    &&& distribution_wf(c.max_friends)
    &&& distribution_wf(c.friend_influence_probability)
    &&& distribution_wf(c.initial_cash)
    &&& distribution_wf(c.initial_assets)
    &&& distribution_wf(c.initial_state)
}

impl Default for AgentConfig {
    /// A thousand agents and a hundred fundamentalists, with the stock
    /// parameter mix: full order probability, influence probability 0.8,
    /// one influencer, cash 3000, thirty assets, fair-coin beliefs,
    /// reflection delay ten, friend threshold 0.6, ten friends at most,
    /// friend influence probability 0.4.
    fn default() -> (r: Self)
        ensures
            agent_config_wf(r),
            r.agent_count == 1000,
            r.fundamentalist_count == 100,
    {
        AgentConfig {
            agent_count: 1000,
            fundamentalist_count: 100,
            initial_assets: Distribution::static_value(30_000_000),
            order_probability: Distribution::static_value(1_000_000),
            influence_probability: Distribution::static_value(800_000),
            influencers_count: Distribution::static_value(1_000_000),
            initial_cash: Distribution::static_value(3_000_000_000),
            initial_state: Distribution::Bernoulli { p: 500_000 },
            reflection_delay: Distribution::static_value(10_000_000),
            friend_threshold: Distribution::static_value(600_000),
            max_friends: Distribution::static_value(10_000_000),
            friend_influence_probability: Distribution::static_value(400_000),
        }
    }
}

/// The whole configuration of a run.
#[derive(Debug)]
pub struct Config {
    pub market: MarketConfig,
    pub agent: AgentConfig,
}

/// Both halves well-formed.
pub open spec fn config_wf(c: Config) -> bool {
    market_config_wf(c.market) && agent_config_wf(c.agent)
}

impl Default for Config {
    fn default() -> (r: Self)
        ensures
            config_wf(r),
            r.market.market_count == 3,
            r.agent.agent_count == 1000,
    {
        Config {
            market: MarketConfig::default(),
            agent: AgentConfig::default(),
        }
    }
}

} // verus!
