//! Population construction from configuration, the trading-intent pass,
//! and read-only population queries.

use vstd::prelude::*;
use crate::FP;
use crate::agent::{Agent, AgentCollection, agent_wf, belief_vec_wf, collection_wf};
use crate::config::{Config, config_wf, Distribution};
use crate::market::{GenoaMarket, market_wf, MarketId};
use crate::rng::{rng_chance, rng_fraction};
use std::collections::VecDeque;

verus! {

/// A fixed-point sample clamped into a probability in `[0, FP]`.
pub open spec fn prob_of(v: int) -> int {
    if v < 0 {
        0
    } else if v > FP {
        FP as int
    } else {
        v
    }
}

/// A fixed-point sample clamped into the threshold range.
pub open spec fn threshold_of(v: int) -> int {
    if v > 2_000_000_000 {
        2_000_000_000
    } else if v < -2_000_000_000 {
        -2_000_000_000
    } else {
        v
    }
}

/// Clamp a fixed-point sample into a probability in `[0, FP]`.
fn clamp_prob(v: i64) -> (r: u64)
    ensures
        r == prob_of(v as int),
        r <= FP,
{
    if v < 0 {
        0
    } else if v > FP as i64 {
        FP
    } else {
        v as u64
    }
}

impl Agent {
    /// A fresh agent with every parameter sampled once from the
    /// configured distributions. Probabilities are clamped into
    /// `[0, FP]`; beliefs likewise.
    pub fn new(config: &Config, rng: &mut rand::rngs::StdRng) -> (r: Agent)
        requires
            config_wf(*config),
        ensures
            agent_wf(r, config.market.market_count as int),
            r.friends@.len() == 0,
            r.influences@.len() == 0,
            config.agent.initial_cash matches Distribution::Normal { mean, sd: 0i64 }
                ==> r.cash == (if mean < 0 { 0int } else { mean as int }),
            config.agent.influence_probability
                    matches Distribution::Normal { mean, sd: 0i64 }
                ==> r.influence_probability == prob_of(mean as int),
            config.agent.friend_influence_probability
                    matches Distribution::Normal { mean, sd: 0i64 }
                ==> r.friend_influence_probability == prob_of(mean as int),
            config.agent.influencers_count
                    matches Distribution::Normal { mean, sd: 0i64 }
                ==> r.influencers_count == crate::config::counted(mean as int),
            config.agent.reflection_delay
                    matches Distribution::Normal { mean, sd: 0i64 }
                ==> r.reflection_delay == crate::config::counted(mean as int),
            config.agent.max_friends matches Distribution::Normal { mean, sd: 0i64 }
                ==> r.max_friends == crate::config::counted(mean as int),
            config.agent.friend_threshold
                    matches Distribution::Normal { mean, sd: 0i64 }
                ==> r.friend_threshold == threshold_of(mean as int),
            config.agent.initial_assets matches Distribution::Normal { mean, sd: 0i64 }
                ==> forall|m: int| 0 <= m < r.assets@.len()
                    ==> #[trigger] r.assets@[m] == crate::config::counted(mean as int),
            config.agent.initial_state matches Distribution::Normal { mean, sd: 0i64 }
                ==> forall|m: int| 0 <= m < r.state@.len()
                    ==> #[trigger] r.state@[m] == prob_of(mean as int),
            config.agent.order_probability
                    matches Distribution::Normal { mean, sd: 0i64 }
                ==> forall|m: int| 0 <= m < r.order_probability@.len()
                    ==> #[trigger] r.order_probability@[m] == prob_of(mean as int),
    {
        let mc = config.market.market_count;
        let cash_s = config.agent.initial_cash.sample_fp(rng);
        let cash: u128 = if cash_s < 0 {
            0
        } else {
            cash_s as u128
        };
        let mut assets: Vec<u64> = Vec::new();
        let mut state: Vec<u64> = Vec::new();
        let mut order_probability: Vec<u64> = Vec::new();
        let mut m: usize = 0;
        while m < mc
            invariant
                0 <= m <= mc,
                config_wf(*config),
                mc == config.market.market_count,
                assets@.len() == m,
                state@.len() == m,
                order_probability@.len() == m,
                forall|i: int| 0 <= i < m ==> #[trigger] state@[i] <= FP,
                forall|i: int| 0 <= i < m ==> #[trigger] order_probability@[i] <= FP,
                config.agent.initial_assets
                        matches Distribution::Normal { mean, sd: 0i64 }
                    ==> forall|i: int| 0 <= i < m
                        ==> #[trigger] assets@[i]
                            == crate::config::counted(mean as int),
                config.agent.initial_state
                        matches Distribution::Normal { mean, sd: 0i64 }
                    ==> forall|i: int| 0 <= i < m
                        ==> #[trigger] state@[i] == prob_of(mean as int),
                config.agent.order_probability
                        matches Distribution::Normal { mean, sd: 0i64 }
                    ==> forall|i: int| 0 <= i < m
                        ==> #[trigger] order_probability@[i]
                            == prob_of(mean as int),
            decreases mc - m,
        {
            let a = config.agent.initial_assets.sample_usize(rng);
            assets.push(a as u64);
            let s = config.agent.initial_state.sample_fp(rng);
            state.push(clamp_prob(s));
            let p = config.agent.order_probability.sample_fp(rng);
            order_probability.push(clamp_prob(p));
            m = m + 1;
        }
        let influence_probability =
            clamp_prob(config.agent.influence_probability.sample_fp(rng));
        let influencers_count = config.agent.influencers_count.sample_usize(rng);
        let reflection_delay = config.agent.reflection_delay.sample_usize(rng);
        let threshold_s = config.agent.friend_threshold.sample_fp(rng);
        let friend_threshold: i64 = if threshold_s > 2_000_000_000 {
            2_000_000_000
        } else if threshold_s < -2_000_000_000 {
            -2_000_000_000
        } else {
            threshold_s
        };
        let max_friends = config.agent.max_friends.sample_usize(rng);
        let friend_influence_probability =
            clamp_prob(config.agent.friend_influence_probability.sample_fp(rng));
        Agent {
            cash,
            assets,
            state,
            order_probability,
            influence_probability,
            influencers_count,
            reflection_delay,
            influences: VecDeque::new(),
            friend_threshold,
            max_friends,
            friend_influence_probability,
            friends: VecDeque::new(),
        }
    }
}

impl AgentCollection {
    /// A fresh population: the configured number of agents, each sampled
    /// from the configured distributions, plus the configured number of
    /// fundamentalist vectors with fair-coin all-or-nothing beliefs.
    pub fn new(config: &Config, rng: &mut rand::rngs::StdRng) -> (r: AgentCollection)
        requires
            config_wf(*config),
        ensures
            collection_wf(r),
            r.market_count == config.market.market_count,
            r.agents@.len() == config.agent.agent_count,
            r.fundamentalists@.len() == config.agent.fundamentalist_count,
            forall|i: int, j: int| 0 <= i < r.fundamentalists@.len()
                && 0 <= j < r.fundamentalists@[i]@.len()
                ==> #[trigger] r.fundamentalists@[i]@[j] == 0
                    || r.fundamentalists@[i]@[j] == FP,
            forall|i: int| 0 <= i < r.agents@.len()
                ==> #[trigger] r.agents@[i].friends@.len() == 0
                    && r.agents@[i].influences@.len() == 0,
    {
        let mc = config.market.market_count;
        let n = config.agent.agent_count;
        let fcount = config.agent.fundamentalist_count;
        let mut agents: Vec<Agent> = Vec::new();
        let mut i: usize = 0;
        while i < n
            invariant
                0 <= i <= n,
                config_wf(*config),
                mc == config.market.market_count,
                agents@.len() == i,
                forall|k: int| 0 <= k < i
                    ==> agent_wf(#[trigger] agents@[k], mc as int)
                        && agents@[k].friends@.len() == 0
                        && agents@[k].influences@.len() == 0,
            decreases n - i,
        {
            let a = Agent::new(config, rng);
            agents.push(a);
            i = i + 1;
        }
        let mut fundamentalists: Vec<Vec<u64>> = Vec::new();
        let mut j: usize = 0;
        while j < fcount
            invariant
                0 <= j <= fcount,
                mc == config.market.market_count,
                fundamentalists@.len() == j,
                forall|k: int| 0 <= k < j
                    ==> belief_vec_wf(#[trigger] fundamentalists@[k]@, mc as int),
                forall|k: int, l: int| 0 <= k < j
                    && 0 <= l < fundamentalists@[k]@.len()
                    ==> #[trigger] fundamentalists@[k]@[l] == 0
                        || fundamentalists@[k]@[l] == FP,
            decreases fcount - j,
        {
            let mut v: Vec<u64> = Vec::new();
            let mut m: usize = 0;
            while m < mc
                invariant
                    0 <= m <= mc,
                    v@.len() == m,
                    forall|k: int| 0 <= k < m
                        ==> #[trigger] v@[k] == 0 || v@[k] == FP,
                decreases mc - m,
            {
                let b: u64 = if rng_chance(rng, FP / 2) {
                    FP
                } else {
                    0
                };
                v.push(b);
                m = m + 1;
            }
            fundamentalists.push(v);
            j = j + 1;
        }
        AgentCollection {
            agents,
            fundamentalists,
            market_count: mc,
        }
    }

    /// The belief vector behind an influencer index: an agent's state for
    /// indexes below the agent count, a fundamentalist vector beyond it.
    pub fn influence_at(&self, idx: usize) -> (r: &Vec<u64>)
        requires
            idx < self.agents@.len() + self.fundamentalists@.len(),
        ensures
            r@ == crate::diffusion::influence_view(*self, idx as int),
    {
        if idx < self.agents.len() {
            &self.agents[idx].state
        } else {
            &self.fundamentalists[idx - self.agents.len()]
        }
    }

    /// One belief value behind an influencer index.
    pub fn influence_at_market(&self, idx: usize, market: MarketId) -> (r: u64)
        requires
            collection_wf(*self),
            idx < self.agents@.len() + self.fundamentalists@.len(),
            (market as int) < self.market_count,
        ensures
            r == crate::diffusion::influence_view(*self, idx as int)[market as int],
    {
        proof {
            if idx < self.agents@.len() {
                assert(agent_wf(self.agents@[idx as int], self.market_count as int));
            } else {
                assert(belief_vec_wf(
                    self.fundamentalists@[idx - self.agents@.len()]@,
                    self.market_count as int));
            }
        }
        let v = self.influence_at(idx);
        v[market as usize]
    }

    /// The population's mean belief for one market, in fixed-point units.
    pub fn mean_state(&self, market: MarketId) -> (r: u64)
        requires
            collection_wf(*self),
            (market as int) < self.market_count,
            self.agents@.len() >= 1,
        ensures
            r == total_state_spec(self.agents@, market as int)
                / self.agents@.len() as int,
    {
        let mut acc: u128 = 0;
        let mut i: usize = 0;
        proof {
            assert(self.agents@.take(0) =~= Seq::<Agent>::empty());
        }
        while i < self.agents.len()
            invariant
                0 <= i <= self.agents@.len(),
                collection_wf(*self),
                (market as int) < self.market_count,
                acc == total_state_spec(self.agents@.take(i as int), market as int),
                acc <= (i as int) * (FP as int),
            decreases self.agents@.len() - i,
        {
            proof {
                assert(self.agents@.take(i as int + 1).drop_last()
                    =~= self.agents@.take(i as int));
                assert(self.agents@.take(i as int + 1).last()
                    == self.agents@[i as int]);
                assert(agent_wf(self.agents@[i as int], self.market_count as int));
            }
            acc = acc + (self.agents[i].state[market as usize] as u128);
            i = i + 1;
        }
        proof {
            assert(self.agents@.take(self.agents@.len() as int) =~= self.agents@);
            lemma_total_state_bounds(self.agents@, market as int,
                self.market_count as int);
            vstd::arithmetic::div_mod::lemma_div_is_ordered(
                total_state_spec(self.agents@, market as int),
                (self.agents@.len() as int) * (FP as int),
                self.agents@.len() as int);
            vstd::arithmetic::div_mod::lemma_div_multiples_vanish(
                FP as int, self.agents@.len() as int);
            vstd::arithmetic::div_mod::lemma_div_pos_is_pos(
                total_state_spec(self.agents@, market as int),
                self.agents@.len() as int);
        }
        let n = self.agents.len();
        (acc / (n as u128)) as u64
    }

    /// The median cash balance: the middle element of the population's
    /// cash balances in ascending order.
    pub fn cash_median(&self) -> (r: u128)
        requires
            self.agents@.len() >= 1,
        ensures
            is_cash_median(self.agents@, r),
    {
        broadcast use vstd::seq_lib::group_to_multiset_ensures;
        broadcast use vstd::multiset::group_multiset_axioms;

        let ghost cs = self.agents@.map_values(|a: Agent| a.cash);
        let mut sorted: Vec<u128> = Vec::new();
        let mut i: usize = 0;
        while i < self.agents.len()
            invariant
                0 <= i <= self.agents@.len(),
                cs == self.agents@.map_values(|a: Agent| a.cash),
                cs.len() == self.agents@.len(),
                sorted_u128(sorted@),
                sorted@.to_multiset() =~= cs.take(i as int).to_multiset(),
                sorted@.len() == i,
            decreases self.agents@.len() - i,
        {
            let c = self.agents[i].cash;
            proof {
                assert(cs.take(i as int + 1) =~= cs.take(i as int).push(c));
                vstd::seq_lib::to_multiset_build(cs.take(i as int), c);
            }
            insert_sorted_u128(&mut sorted, c);
            i = i + 1;
        }
        proof {
            assert(cs.take(cs.len() as int) =~= cs);
        }
        let r = sorted[sorted.len() / 2];
        proof {
            assert(sorted_u128(sorted@) && sorted@.to_multiset() == cs.to_multiset()
                && sorted@.len() == self.agents@.len()
                && r == sorted@[sorted@.len() as int / 2]);
        }
        r
    }

    /// The trading-intent pass for one market: each agent, with its
    /// per-market order probability, either submits a buy sized by a
    /// random fraction of its cash (with probability equal to its belief)
    /// or a sell sized by a random fraction of its holding. The pass
    /// leaves every agent unchanged and only appends well-formed orders
    /// to the market's books.
    pub fn trade_on_market(
        &self,
        market: &mut GenoaMarket,
        rng: &mut rand::rngs::StdRng,
    )
        requires
            collection_wf(*self),
            market_wf(*old(market)),
            (old(market).id as int) < self.market_count,
        ensures
            market_wf(*final(market)),
            final(market).id == old(market).id,
            final(market).price_history == old(market).price_history,
            final(market).price_history_count == old(market).price_history_count,
            final(market).volatility == old(market).volatility,
            books_extended(old(market).buy_orders@, final(market).buy_orders@,
                self.agents@.len() as int),
            books_extended(old(market).sell_orders@, final(market).sell_orders@,
                self.agents@.len() as int),
            forall|i: int| old(market).buy_orders@.len() <= i
                    < final(market).buy_orders@.len()
                ==> (#[trigger] final(market).buy_orders@[i]).limit_price
                        * final(market).buy_orders@[i].asset_quantity
                    <= self.agents@[final(market).buy_orders@[i].agent as int].cash,
            forall|i: int| old(market).sell_orders@.len() <= i
                    < final(market).sell_orders@.len()
                ==> (#[trigger] final(market).sell_orders@[i]).asset_quantity
                    <= self.agents@[final(market).sell_orders@[i].agent as int]
                        .assets@[old(market).id as int],
            forall|k1: int, k2: int| old(market).buy_orders@.len() <= k1 < k2
                    < final(market).buy_orders@.len()
                ==> (#[trigger] final(market).buy_orders@[k1]).agent
                    < (#[trigger] final(market).buy_orders@[k2]).agent,
            forall|k1: int, k2: int| old(market).sell_orders@.len() <= k1 < k2
                    < final(market).sell_orders@.len()
                ==> (#[trigger] final(market).sell_orders@[k1]).agent
                    < (#[trigger] final(market).sell_orders@[k2]).agent,
            forall|k1: int, k2: int| old(market).buy_orders@.len() <= k1
                    < final(market).buy_orders@.len()
                && old(market).sell_orders@.len() <= k2
                    < final(market).sell_orders@.len()
                ==> (#[trigger] final(market).buy_orders@[k1]).agent
                    != (#[trigger] final(market).sell_orders@[k2]).agent,
            final(market).buy_orders@.len() + final(market).sell_orders@.len()
                <= old(market).buy_orders@.len() + old(market).sell_orders@.len()
                    + self.agents@.len(),
    {
        let m_id = market.id();
        let mut i: usize = 0;
        while i < self.agents.len()
            invariant
                0 <= i <= self.agents@.len(),
                collection_wf(*self),
                market_wf(*market),
                (m_id as int) < self.market_count,
                market.id == old(market).id,
                m_id == market.id,
                market.price_history == old(market).price_history,
                market.price_history_count == old(market).price_history_count,
                market.volatility == old(market).volatility,
                books_extended(old(market).buy_orders@, market.buy_orders@,
                    self.agents@.len() as int),
                books_extended(old(market).sell_orders@, market.sell_orders@,
                    self.agents@.len() as int),
                forall|k: int| old(market).buy_orders@.len() <= k
                        < market.buy_orders@.len()
                    ==> (#[trigger] market.buy_orders@[k]).limit_price
                            * market.buy_orders@[k].asset_quantity
                        <= self.agents@[market.buy_orders@[k].agent as int].cash,
                forall|k: int| old(market).sell_orders@.len() <= k
                        < market.sell_orders@.len()
                    ==> (#[trigger] market.sell_orders@[k]).asset_quantity
                        <= self.agents@[market.sell_orders@[k].agent as int]
                            .assets@[m_id as int],
                forall|k: int| old(market).buy_orders@.len() <= k
                        < market.buy_orders@.len()
                    ==> (#[trigger] market.buy_orders@[k]).agent < i,
                forall|k: int| old(market).sell_orders@.len() <= k
                        < market.sell_orders@.len()
                    ==> (#[trigger] market.sell_orders@[k]).agent < i,
                forall|k1: int, k2: int| old(market).buy_orders@.len() <= k1 < k2
                        < market.buy_orders@.len()
                    ==> (#[trigger] market.buy_orders@[k1]).agent
                        < (#[trigger] market.buy_orders@[k2]).agent,
                forall|k1: int, k2: int| old(market).sell_orders@.len() <= k1 < k2
                        < market.sell_orders@.len()
                    ==> (#[trigger] market.sell_orders@[k1]).agent
                        < (#[trigger] market.sell_orders@[k2]).agent,
                forall|k1: int, k2: int| old(market).buy_orders@.len() <= k1
                        < market.buy_orders@.len()
                    && old(market).sell_orders@.len() <= k2
                        < market.sell_orders@.len()
                    ==> (#[trigger] market.buy_orders@[k1]).agent
                        != (#[trigger] market.sell_orders@[k2]).agent,
                market.buy_orders@.len() + market.sell_orders@.len()
                    <= old(market).buy_orders@.len()
                        + old(market).sell_orders@.len() + i,
            decreases self.agents@.len() - i,
        {
            proof {
                assert(agent_wf(self.agents@[i as int], self.market_count as int));
            }
            let op = self.agents[i].order_probability[m_id as usize];
            if rng_chance(rng, op) {
                let belief = self.agents[i].state[m_id as usize];
                if rng_chance(rng, belief) {
                    let frac = rng_fraction(rng);
                    let cash = self.agents[i].cash;
                    let capped: u128 = if cash
                            > 0x10_0000_0000_0000_0000_0000_0000u128 {
                        0x10_0000_0000_0000_0000_0000_0000u128
                    } else {
                        cash
                    };
                    proof {
                        assert((capped as int) * (frac as int)
                            <= 0x10_0000_0000_0000_0000_0000_0000int * (FP as int))
                            by (nonlinear_arith)
                            requires
                                0 <= capped <= 0x10_0000_0000_0000_0000_0000_0000int,
                                0 <= frac <= FP;
                    }
                    let spend: u128 = capped * (frac as u128) / (FP as u128);
                    proof {
                        assert((capped as int) * (frac as int)
                            <= (capped as int) * (FP as int)) by (nonlinear_arith)
                            requires 0 <= frac <= FP, 0 <= capped;
                        vstd::arithmetic::div_mod::lemma_div_is_ordered(
                            (capped as int) * (frac as int),
                            (capped as int) * (FP as int),
                            FP as int);
                        vstd::arithmetic::div_mod::lemma_div_by_multiple(
                            capped as int, FP as int);
                        assert(spend <= capped);
                    }
                    market.buy_order(i, spend, rng);
                    proof {
                        if spend > 0 {
                            let o = market.buy_orders@.last();
                            let q = spend as int / o.limit_price as int;
                            vstd::arithmetic::div_mod::lemma_fundamental_div_mod(
                                spend as int, o.limit_price as int);
                            vstd::arithmetic::div_mod::lemma_mod_bound(
                                spend as int, o.limit_price as int);
                            assert(o.limit_price * q <= spend);
                            assert(o.limit_price * o.asset_quantity
                                <= o.limit_price * q) by (nonlinear_arith)
                                requires
                                    o.asset_quantity <= q,
                                    o.limit_price >= 1;
                        }
                    }
                } else {
                    let held = self.agents[i].assets[m_id as usize];
                    let frac = rng_fraction(rng);
                    proof {
                        assert((held as int) * (frac as int)
                            <= (u64::MAX as int) * (FP as int)) by (nonlinear_arith)
                            requires 0 <= held <= u64::MAX, 0 <= frac <= FP;
                    }
                    let q128: u128 = (held as u128) * (frac as u128) / (FP as u128);
                    proof {
                        assert((held as int) * (frac as int)
                            <= (held as int) * (FP as int)) by (nonlinear_arith)
                            requires 0 <= frac <= FP, 0 <= held;
                        vstd::arithmetic::div_mod::lemma_div_is_ordered(
                            (held as int) * (frac as int),
                            (held as int) * (FP as int),
                            FP as int);
                        vstd::arithmetic::div_mod::lemma_div_by_multiple(
                            held as int, FP as int);
                    }
                    let qty: u64 = q128 as u64;
                    market.sell_order(i, qty, rng);
                }
            }
            i = i + 1;
        }
    }

    /// Run the trading-intent pass; call once per market per step, after
    /// the diffusion pass and before that market clears.
    pub fn step_market(
        &mut self,
        market: &mut GenoaMarket,
        rng: &mut rand::rngs::StdRng,
    )
        requires
            collection_wf(*old(self)),
            market_wf(*old(market)),
            (old(market).id as int) < old(self).market_count,
        ensures
            *final(self) == *old(self),
            market_wf(*final(market)),
            final(market).id == old(market).id,
            final(market).price_history == old(market).price_history,
            final(market).price_history_count == old(market).price_history_count,
            final(market).volatility == old(market).volatility,
    {
        self.trade_on_market(market, rng);
    }
}

/// The old book is an untouched prefix of the new one, and every appended
/// order names an agent inside the population.
pub open spec fn books_extended(
    pre: Seq<crate::order::GenoaOrder>,
    post: Seq<crate::order::GenoaOrder>,
    agent_count: int,
) -> bool {
    &&& pre.len() <= post.len()
    &&& forall|i: int| 0 <= i < pre.len() ==> #[trigger] post[i] == pre[i]
    &&& forall|i: int| pre.len() <= i < post.len()
        ==> (#[trigger] post[i]).agent < agent_count
}

/// Total population belief for one market.
pub open spec fn total_state_spec(s: Seq<Agent>, m: int) -> int
    decreases s.len(),
{
    if s.len() == 0 {
        0
    } else {
        total_state_spec(s.drop_last(), m) + s.last().state@[m]
    }
}

/// Belief totals stay between zero and the count times `FP`.
proof fn lemma_total_state_bounds(s: Seq<Agent>, m: int, mc: int)
    requires
        forall|i: int| 0 <= i < s.len() ==> agent_wf(#[trigger] s[i], mc),
        0 <= m < mc,
    ensures
        0 <= total_state_spec(s, m) <= s.len() * FP,
    decreases s.len(),
{
    if s.len() > 0 {
        assert(forall|i: int| 0 <= i < s.drop_last().len()
            ==> agent_wf(#[trigger] s.drop_last()[i], mc));
        lemma_total_state_bounds(s.drop_last(), m, mc);
        assert(agent_wf(s.last(), mc));
    }
}

/// Whether `v` is the population's median cash balance: the middle
/// element of the cash balances in ascending order. The sorted sequence
/// of a multiset is unique, so this pins one value.
pub open spec fn is_cash_median(s: Seq<Agent>, v: u128) -> bool {
    exists|sorted: Seq<u128>|
        sorted_u128(sorted)
        && #[trigger] sorted.to_multiset()
            == s.map_values(|a: Agent| a.cash).to_multiset()
        && sorted.len() == s.len()
        && v == sorted[sorted.len() as int / 2]
}

/// Ascending order on cash balances.
pub open spec fn sorted_u128(s: Seq<u128>) -> bool {
    forall|i: int, j: int| 0 <= i < j < s.len() ==> #[trigger] s[i] <= #[trigger] s[j]
}

/// Insert a cash balance into an ascending list.
fn insert_sorted_u128(v: &mut Vec<u128>, x: u128)
    requires
        sorted_u128(old(v)@),
    ensures
        sorted_u128(final(v)@),
        final(v)@.to_multiset() =~= old(v)@.to_multiset().insert(x),
        final(v)@.len() == old(v)@.len() + 1,
{
    broadcast use vstd::seq_lib::group_to_multiset_ensures;
    broadcast use vstd::multiset::group_multiset_axioms;

    let mut i: usize = 0;
    while i < v.len() && v[i] <= x
        invariant
            0 <= i <= v@.len(),
            sorted_u128(v@),
            forall|j: int| 0 <= j < i ==> #[trigger] v@[j] <= x,
        decreases v@.len() - i,
    {
        i = i + 1;
    }
    let ghost split = i as int;
    let ghost pre = v@;
    v.insert(i, x);
    proof {
        pre.insert_ensures(split, x);
        let r = pre.insert(split, x);
        assert forall|a: int, b: int| 0 <= a < b < r.len()
            implies #[trigger] r[a] <= #[trigger] r[b] by {
            if a < split {
                assert(r[a] == pre[a]);
            } else if a == split {
                assert(r[a] == x);
            } else {
                assert(r[a] == pre[a - 1]);
            }
            if b < split {
                assert(r[b] == pre[b]);
            } else if b == split {
                assert(r[b] == x);
            } else {
                assert(r[b] == pre[b - 1]);
            }
            if a == split && b > split {
                assert(x < pre[split] || split >= pre.len());
                assert(pre[split] <= pre[b - 1] || split >= pre.len());
            }
        }
    }
}

} // verus!
