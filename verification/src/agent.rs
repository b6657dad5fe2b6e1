//! Trading agents: per-entity financial state, belief state, social
//! parameters, and the collection that owns all agents plus the
//! fundamentalist reference belief vectors.

use vstd::prelude::*;
use std::collections::VecDeque;
use crate::{FP, SimError};
use crate::market::MarketId;
use crate::order::AgentId;

verus! {

/// A recorded influence: who influenced the agent, the influencer's belief
/// snapshot at that time, and the step it was recorded.
#[derive(Debug, Clone)]
pub struct Influence {
    pub influencer: usize,
    pub state: Vec<u64>,
    pub step: usize,
}

/// One trading agent.
#[derive(Debug, Clone)]
pub struct Agent {
    /// Cash balance in fixed-point units; never negative by construction.
    pub cash: u128,
    /// Assets held, one count per market.
    pub assets: Vec<u64>,
    /// Belief per market in `[0, FP]`: `FP` favors buying, `0` selling.
    pub state: Vec<u64>,
    /// Probability per market of placing an order each step, in `[0, FP]`.
    pub order_probability: Vec<u64>,
    /// Probability of being influenced each step, in `[0, FP]`.
    pub influence_probability: u64,
    /// How many influencers are drawn when the agent is influenced.
    pub influencers_count: usize,
    /// Steps until a received influence is evaluated retrospectively.
    pub reflection_delay: usize,
    /// Influences waiting for their retrospective evaluation, oldest first.
    pub influences: VecDeque<Influence>,
    /// Correlation threshold above which an influencer becomes a friend,
    /// in fixed-point units.
    pub friend_threshold: i64,
    /// Friend queue capacity; the oldest friend is evicted beyond it.
    pub max_friends: usize,
    /// Probability that each friend joins the influencer set, in `[0, FP]`.
    pub friend_influence_probability: u64,
    /// Friends, oldest first.
    pub friends: VecDeque<AgentId>,
}

/// The product of two 64-bit values fits the 128-bit range.
proof fn lemma_u64_product_fits(a: int, b: int)
    requires
        0 <= a <= u64::MAX,
        0 <= b <= u64::MAX,
    ensures
        0 <= a * b <= u128::MAX,
{
    assert(a * b <= (u64::MAX as int) * (u64::MAX as int)) by (nonlinear_arith)
        requires 0 <= a <= u64::MAX, 0 <= b <= u64::MAX;
}

/// A belief snapshot has one value per market, each inside `[0, FP]`.
pub open spec fn belief_vec_wf(s: Seq<u64>, market_count: int) -> bool {
    s.len() == market_count && forall|i: int| 0 <= i < s.len() ==> #[trigger] s[i] <= FP
}

/// Well-formedness of one agent for a given market count.
pub open spec fn agent_wf(a: Agent, market_count: int) -> bool {
    &&& a.assets@.len() == market_count
    &&& belief_vec_wf(a.state@, market_count)
    &&& a.order_probability@.len() == market_count
    &&& forall|i: int| 0 <= i < a.order_probability@.len()
        ==> #[trigger] a.order_probability@[i] <= FP
    &&& a.influence_probability <= FP
    &&& a.friend_influence_probability <= FP
    &&& a.friends@.len() <= a.max_friends
    &&& forall|i: int| 0 <= i < a.influences@.len()
        ==> belief_vec_wf(#[trigger] a.influences@[i].state@, market_count)
}

impl Agent {
    /// Apply a buy fill: debit `price * qty` cash, credit `qty` assets.
    /// Insufficient cash is the fatal condition the clearing engine must
    /// never trigger; it is reported, never clamped.
    pub fn apply_buy(&mut self, market: MarketId, asset_quantity: u64, price: u64, id: AgentId)
        -> (r: Result<(), SimError>)
        requires
            (market as int) < old(self).assets@.len(),
        ensures
            r is Ok <==> (price * asset_quantity <= old(self).cash
                && old(self).assets@[market as int] + asset_quantity <= u64::MAX),
            r is Ok ==> final(self).cash
                == old(self).cash - price * asset_quantity,
            r is Ok ==> final(self).assets@ == old(self).assets@.update(
                market as int,
                (old(self).assets@[market as int] + asset_quantity) as u64,
            ),
            r is Err ==> *final(self) == *old(self),
            price * asset_quantity > old(self).cash
                ==> r == Result::<(), SimError>::Err(SimError::OutOfCash {
                    agent: id, market }),
            final(self).state == old(self).state,
            final(self).order_probability == old(self).order_probability,
            final(self).influence_probability == old(self).influence_probability,
            final(self).influencers_count == old(self).influencers_count,
            final(self).reflection_delay == old(self).reflection_delay,
            final(self).influences == old(self).influences,
            final(self).friend_threshold == old(self).friend_threshold,
            final(self).max_friends == old(self).max_friends,
            final(self).friend_influence_probability
                == old(self).friend_influence_probability,
            final(self).friends == old(self).friends,
            final(self).assets@.len() == old(self).assets@.len(),
    {
        proof {
            lemma_u64_product_fits(price as int, asset_quantity as int);
        }
        let cost: u128 = (price as u128) * (asset_quantity as u128);
        if cost > self.cash {
            return Err(SimError::OutOfCash { agent: id, market });
        }
        let held = self.assets[market as usize];
        match held.checked_add(asset_quantity) {
            Option::None => Err(SimError::NumericOverflow { agent: id, market }),
            Option::Some(next) => {
                self.cash = self.cash - cost;
                self.assets.set(market as usize, next);
                Ok(())
            }
        }
    }

    /// Apply a sell fill: credit `price * qty` cash, debit `qty` assets.
    /// Selling more assets than held is the fatal condition.
    pub fn apply_sell(&mut self, market: MarketId, asset_quantity: u64, price: u64, id: AgentId)
        -> (r: Result<(), SimError>)
        requires
            (market as int) < old(self).assets@.len(),
        ensures
            r is Ok <==> (asset_quantity <= old(self).assets@[market as int]
                && old(self).cash + price * asset_quantity <= u128::MAX),
            r is Ok ==> final(self).cash
                == old(self).cash + price * asset_quantity,
            r is Ok ==> final(self).assets@ == old(self).assets@.update(
                market as int,
                (old(self).assets@[market as int] - asset_quantity) as u64,
            ),
            r is Err ==> *final(self) == *old(self),
            asset_quantity > old(self).assets@[market as int]
                ==> r == Result::<(), SimError>::Err(SimError::OutOfAssets {
                    agent: id, market }),
            final(self).state == old(self).state,
            final(self).order_probability == old(self).order_probability,
            final(self).influence_probability == old(self).influence_probability,
            final(self).influencers_count == old(self).influencers_count,
            final(self).reflection_delay == old(self).reflection_delay,
            final(self).influences == old(self).influences,
            final(self).friend_threshold == old(self).friend_threshold,
            final(self).max_friends == old(self).max_friends,
            final(self).friend_influence_probability
                == old(self).friend_influence_probability,
            final(self).friends == old(self).friends,
            final(self).assets@.len() == old(self).assets@.len(),
    {
        let held = self.assets[market as usize];
        if asset_quantity > held {
            return Err(SimError::OutOfAssets { agent: id, market });
        }
        proof {
            lemma_u64_product_fits(price as int, asset_quantity as int);
        }
        let credit: u128 = (price as u128) * (asset_quantity as u128);
        match self.cash.checked_add(credit) {
            Option::None => Err(SimError::NumericOverflow { agent: id, market }),
            Option::Some(next) => {
                self.cash = next;
                self.assets.set(market as usize, held - asset_quantity);
                Ok(())
            }
        }
    }

    /// Append a new friend; beyond `max_friends` the oldest is evicted, so
    /// the friend queue never exceeds its configured capacity.
    pub fn add_friend(&mut self, f: AgentId)
        requires
            old(self).friends@.len() <= old(self).max_friends,
        ensures
            final(self).friends@.len() <= final(self).max_friends,
            final(self).friends@ == if old(self).friends@.len() + 1
                    > old(self).max_friends {
                old(self).friends@.push(f).drop_first()
            } else {
                old(self).friends@.push(f)
            },
            final(self).max_friends == old(self).max_friends,
            final(self).cash == old(self).cash,
            final(self).assets == old(self).assets,
            final(self).state == old(self).state,
            final(self).influences == old(self).influences,
            final(self).order_probability == old(self).order_probability,
            final(self).influence_probability == old(self).influence_probability,
            final(self).influencers_count == old(self).influencers_count,
            final(self).reflection_delay == old(self).reflection_delay,
            final(self).friend_threshold == old(self).friend_threshold,
            final(self).friend_influence_probability
                == old(self).friend_influence_probability,
    {
        self.friends.push_back(f);
        if self.friends.len() > self.max_friends {
            self.friends.pop_front();
        }
    }
}

/// The financial view of one agent: cash and per-market holdings as
/// mathematical integers.
#[verifier::ext_equal]
pub struct Holdings {
    pub cash: int,
    pub assets: Seq<int>,
}

/// The financial view of an agent.
pub open spec fn holdings_of(a: Agent) -> Holdings {
    Holdings {
        cash: a.cash as int,
        assets: a.assets@.map_values(|x: u64| x as int),
    }
}

/// The financial view of a whole population.
pub open spec fn holdings_seq(s: Seq<Agent>) -> Seq<Holdings> {
    s.map_values(|a: Agent| holdings_of(a))
}

/// All agents plus the fixed fundamentalist belief vectors.
#[derive(Debug, Clone)]
pub struct AgentCollection {
    pub agents: Vec<Agent>,
    pub fundamentalists: Vec<Vec<u64>>,
    pub market_count: usize,
}

/// Well-formedness of the whole population.
pub open spec fn collection_wf(c: AgentCollection) -> bool {
    &&& forall|i: int| 0 <= i < c.agents@.len()
        ==> agent_wf(#[trigger] c.agents@[i], c.market_count as int)
    &&& forall|i: int| 0 <= i < c.fundamentalists@.len()
        ==> belief_vec_wf(#[trigger] c.fundamentalists@[i]@, c.market_count as int)
}

/// Total population cash.
pub open spec fn total_cash_spec(s: Seq<Agent>) -> int
    decreases s.len(),
{
    if s.len() == 0 {
        0
    } else {
        total_cash_spec(s.drop_last()) + s.last().cash
    }
}

/// Total population holding of one market's asset.
pub open spec fn total_assets_spec(s: Seq<Agent>, m: int) -> int
    decreases s.len(),
{
    if s.len() == 0 {
        0
    } else {
        total_assets_spec(s.drop_last(), m) + s.last().assets@[m]
    }
}

/// Updating one agent shifts the total cash by that agent's difference.
pub proof fn lemma_total_cash_update(s: Seq<Agent>, i: int, a: Agent)
    requires
        0 <= i < s.len(),
    ensures
        total_cash_spec(s.update(i, a))
            == total_cash_spec(s) - s[i].cash + a.cash,
    decreases s.len(),
{
    if i == s.len() - 1 {
        assert(s.update(i, a).drop_last() =~= s.drop_last());
    } else {
        lemma_total_cash_update(s.drop_last(), i, a);
        assert(s.update(i, a).drop_last() =~= s.drop_last().update(i, a));
        assert(s.update(i, a).last() == s.last());
    }
}

/// Updating one agent shifts the total asset count by that agent's
/// difference in that market.
pub proof fn lemma_total_assets_update(s: Seq<Agent>, i: int, a: Agent, m: int)
    requires
        0 <= i < s.len(),
    ensures
        total_assets_spec(s.update(i, a), m)
            == total_assets_spec(s, m) - s[i].assets@[m] + a.assets@[m],
    decreases s.len(),
{
    if i == s.len() - 1 {
        assert(s.update(i, a).drop_last() =~= s.drop_last());
    } else {
        lemma_total_assets_update(s.drop_last(), i, a, m);
        assert(s.update(i, a).drop_last() =~= s.drop_last().update(i, a));
        assert(s.update(i, a).last() == s.last());
    }
}

/// A prefix of the population never holds more cash than the whole.
pub proof fn lemma_total_cash_take_le(s: Seq<Agent>, i: int)
    requires
        0 <= i <= s.len(),
    ensures
        total_cash_spec(s.take(i)) <= total_cash_spec(s),
        total_cash_spec(s.take(i)) >= 0,
    decreases s.len() - i,
{
    lemma_total_cash_nonneg(s.take(i));
    if i == s.len() {
        assert(s.take(i) =~= s);
    } else {
        assert(s.take(i + 1).drop_last() =~= s.take(i));
        lemma_total_cash_take_le(s, i + 1);
    }
}

/// Total cash is never negative.
pub proof fn lemma_total_cash_nonneg(s: Seq<Agent>)
    ensures
        total_cash_spec(s) >= 0,
    decreases s.len(),
{
    if s.len() > 0 {
        lemma_total_cash_nonneg(s.drop_last());
    }
}

impl AgentCollection {
    /// Read access to one agent.
    pub fn agent(&self, id: AgentId) -> (r: &Agent)
        requires
            id < self.agents@.len(),
        ensures
            *r == self.agents@[id as int],
    {
        &self.agents[id]
    }

    /// Total population cash, exact while it fits the machine range.
    pub fn total_cash(&self) -> (r: u128)
        requires
            total_cash_spec(self.agents@) <= u128::MAX,
        ensures
            r == total_cash_spec(self.agents@),
    {
        let mut acc: u128 = 0;
        let mut i: usize = 0;
        proof {
            assert(self.agents@.take(0) =~= Seq::<Agent>::empty());
        }
        while i < self.agents.len()
            invariant
                0 <= i <= self.agents@.len(),
                total_cash_spec(self.agents@) <= u128::MAX,
                acc == total_cash_spec(self.agents@.take(i as int)),
            decreases self.agents@.len() - i,
        {
            proof {
                assert(self.agents@.take(i as int + 1).drop_last()
                    =~= self.agents@.take(i as int));
                assert(self.agents@.take(i as int + 1).last()
                    == self.agents@[i as int]);
                lemma_total_cash_take_le(self.agents@, i as int + 1);
            }
            acc = acc + self.agents[i].cash;
            i = i + 1;
        }
        proof {
            assert(self.agents@.take(self.agents@.len() as int) =~= self.agents@);
        }
        acc
    }

    /// Total population holding of one market's asset.
    pub fn total_assets(&self, market: MarketId) -> (r: u128)
        requires
            collection_wf(*self),
            (market as int) < self.market_count,
        ensures
            r == total_assets_spec(self.agents@, market as int),
    {
        let mut acc: u128 = 0;
        let mut i: usize = 0;
        proof {
            assert(self.agents@.take(0) =~= Seq::<Agent>::empty());
        }
        while i < self.agents.len()
            invariant
                0 <= i <= self.agents@.len(),
                collection_wf(*self),
                (market as int) < self.market_count,
                acc == total_assets_spec(self.agents@.take(i as int), market as int),
                acc <= (i as int) * (u64::MAX as int),
            decreases self.agents@.len() - i,
        {
            proof {
                assert(self.agents@.take(i as int + 1).drop_last()
                    =~= self.agents@.take(i as int));
                assert(self.agents@.take(i as int + 1).last()
                    == self.agents@[i as int]);
            }
            acc = acc + (self.agents[i].assets[market as usize] as u128);
            i = i + 1;
        }
        proof {
            assert(self.agents@.take(self.agents@.len() as int) =~= self.agents@);
        }
        acc
    }
}

} // verus!
