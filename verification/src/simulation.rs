//! One discrete time step of the whole model: the diffusion pass, then
//! every market's trading and clearing in a randomized order, then the
//! step's reported series.

use vstd::prelude::*;
use crate::{MAX_MARKETS, SimError, FatalError};
use crate::agent::{AgentCollection, collection_wf, total_cash_spec, total_assets_spec};
use crate::collection::is_cash_median;
use crate::config::{Config, config_wf};
use crate::market::{GenoaMarket, market_wf};
use crate::report::{Reporter, ReporterTarget, reporter_wf, target_view};
use crate::rng::rng_below;

verus! {

/// The whole model: one market per traded asset plus the population.
#[derive(Debug)]
pub struct Simulation {
    pub markets: Vec<GenoaMarket>,
    pub agents: AgentCollection,
}

/// Every market well-formed and numbered by its index, one per asset,
/// and the population sized for them.
pub open spec fn simulation_wf(s: Simulation) -> bool {
    &&& collection_wf(s.agents)
    &&& 1 <= s.agents.market_count <= MAX_MARKETS
    &&& s.markets@.len() == s.agents.market_count
    &&& forall|i: int| 0 <= i < s.markets@.len()
        ==> market_wf(#[trigger] s.markets@[i]) && s.markets@[i].id == i
    &&& s.agents.agents@.len() + s.agents.fundamentalists@.len() <= usize::MAX
}

/// Populations with pointwise-equal cash hold equal total cash.
proof fn lemma_total_cash_pointwise(a: Seq<crate::agent::Agent>, b: Seq<crate::agent::Agent>)
    requires
        a.len() == b.len(),
        forall|i: int| 0 <= i < a.len() ==> #[trigger] a[i].cash == b[i].cash,
    ensures
        total_cash_spec(a) == total_cash_spec(b),
    decreases a.len(),
{
    if a.len() > 0 {
        lemma_total_cash_pointwise(a.drop_last(), b.drop_last());
    }
}

/// Populations with pointwise-equal holdings hold equal asset totals.
proof fn lemma_total_assets_pointwise(
    a: Seq<crate::agent::Agent>,
    b: Seq<crate::agent::Agent>,
    m: int,
)
    requires
        a.len() == b.len(),
        forall|i: int| 0 <= i < a.len() ==> #[trigger] a[i].assets == b[i].assets,
    ensures
        total_assets_spec(a, m) == total_assets_spec(b, m),
    decreases a.len(),
{
    if a.len() > 0 {
        lemma_total_assets_pointwise(a.drop_last(), b.drop_last(), m);
    }
}

/// A uniformly shuffled permutation of `0 .. n`: the order in which the
/// markets are visited this step.
fn shuffled_indices(rng: &mut rand::rngs::StdRng, n: usize) -> (r: Vec<usize>)
    ensures
        r@.len() == n,
        forall|k: int| 0 <= k < r@.len() ==> #[trigger] r@[k] < n,
        forall|m: int| 0 <= m < n ==> #[trigger] visits(r@, m),
{
    let mut v: Vec<usize> = Vec::new();
    let mut i: usize = 0;
    while i < n
        invariant
            0 <= i <= n,
            v@.len() == i,
            forall|k: int| 0 <= k < v@.len() ==> #[trigger] v@[k] < n,
            forall|k1: int, k2: int| 0 <= k1 < k2 < v@.len()
                ==> #[trigger] v@[k1] != #[trigger] v@[k2],
            forall|k: int| 0 <= k < v@.len() ==> #[trigger] v@[k] == k,
        decreases n - i,
    {
        v.push(i);
        i = i + 1;
    }
    let mut s: usize = 0;
    while s < n
        invariant
            0 <= s <= n,
            v@.len() == n,
            forall|k: int| 0 <= k < v@.len() ==> #[trigger] v@[k] < n,
            forall|k1: int, k2: int| 0 <= k1 < k2 < v@.len()
                ==> #[trigger] v@[k1] != #[trigger] v@[k2],
        decreases n - s,
    {
        let j: usize = s + rng_below(rng, (n - s) as u64) as usize;
        let ghost pre = v@;
        let a = v[s];
        let b = v[j];
        v.set(s, b);
        v.set(j, a);
        proof {
            assert forall|k1: int, k2: int| 0 <= k1 < k2 < v@.len()
                implies #[trigger] v@[k1] != #[trigger] v@[k2] by {
                let m1: int = if k1 == s {
                    j as int
                } else if k1 == j {
                    s as int
                } else {
                    k1
                };
                let m2: int = if k2 == s {
                    j as int
                } else if k2 == j {
                    s as int
                } else {
                    k2
                };
                assert(v@[k1] == pre[m1]);
                assert(v@[k2] == pre[m2]);
            }
        }
        s = s + 1;
    }
    proof {
        lemma_distinct_below_covers(v@, n as int);
    }
    v
}

/// Whether an index appears somewhere in a visitation order.
pub open spec fn visits(s: Seq<usize>, m: int) -> bool {
    exists|pos: int| 0 <= pos < s.len() && #[trigger] s[pos] == m
}

/// Pigeonhole: `n` pairwise-distinct indexes below `n` visit every index.
proof fn lemma_distinct_below_covers(s: Seq<usize>, n: int)
    requires
        s.len() == n,
        forall|k: int| 0 <= k < s.len() ==> #[trigger] s[k] < n,
        forall|k1: int, k2: int| 0 <= k1 < k2 < s.len()
            ==> #[trigger] s[k1] != #[trigger] s[k2],
    ensures
        forall|m: int| 0 <= m < n ==> #[trigger] visits(s, m),
{
    broadcast use vstd::set::group_set_axioms;

    let si = s.map_values(|x: usize| x as int);
    assert(si.no_duplicates()) by {
        assert forall|k1: int, k2: int| 0 <= k1 < si.len() && 0 <= k2 < si.len()
            && k1 != k2 implies si[k1] != si[k2] by {
            assert(s[k1] != s[k2]);
        }
    }
    si.unique_seq_to_set();
    let range = vstd::set_lib::set_int_range(0, n);
    vstd::set_lib::lemma_int_range(0, n);
    assert(si.to_set().subset_of(range)) by {
        assert forall|x: int| si.to_set().contains(x) implies range.contains(x) by {
            let pos = choose|pos: int| 0 <= pos < si.len() && si[pos] == x;
            assert(s[pos] < n);
        }
    }
    vstd::set_lib::lemma_len_subset(si.to_set(), range);
    vstd::set_lib::lemma_subset_equality(si.to_set(), range);
    assert forall|m: int| 0 <= m < n implies #[trigger] visits(s, m) by {
        assert(range.contains(m));
        assert(si.to_set().contains(m));
        assert(si.contains(m));
        let pos = choose|pos: int| 0 <= pos < si.len() && si[pos] == m;
        assert(s[pos] == m);
    }
}

/// The reporter holds the given value at the given step under the series
/// named by a description and an optional index (with no source location).
pub open spec fn reported_at(
    rep: Reporter,
    step: int,
    description: Seq<char>,
    index: Option<u32>,
    value: i128,
) -> bool {
    exists|row: int| 0 <= row < rep.per_step@.len()
        && target_view(#[trigger] rep.per_step@[row].0)
            == (Option::<(Seq<char>, u32, u32)>::None, Option::Some(description), index)
        && rep.per_step@[row].1@.len() > step
        && rep.per_step@[row].1@[step] == Option::Some(value)
}

/// A recorded series survives a report to a different target.
proof fn lemma_reported_preserved(
    pre: Reporter,
    post: Reporter,
    step: int,
    description: Seq<char>,
    index: Option<u32>,
    value: i128,
    tgt: ReporterTarget,
)
    requires
        reported_at(pre, step, description, index, value),
        pre.per_step@.len() <= post.per_step@.len(),
        forall|i: int| 0 <= i < pre.per_step@.len()
            && target_view(#[trigger] pre.per_step@[i].0) != target_view(tgt)
            ==> post.per_step@[i] == pre.per_step@[i],
        target_view(tgt) != (Option::<(Seq<char>, u32, u32)>::None,
            Option::Some(description), index),
    ensures
        reported_at(post, step, description, index, value),
{
    let row = choose|row: int| 0 <= row < pre.per_step@.len()
        && target_view(#[trigger] pre.per_step@[row].0)
            == (Option::<(Seq<char>, u32, u32)>::None,
                Option::Some(description), index)
        && pre.per_step@[row].1@.len() > step
        && pre.per_step@[row].1@[step] == Option::Some(value);
    assert(post.per_step@[row] == pre.per_step@[row]);
}

impl Simulation {
    /// A fresh simulation: one market per configured asset, all at the
    /// configured initial price and volatility, and a freshly sampled
    /// population.
    pub fn new(config: &Config, rng: &mut rand::rngs::StdRng) -> (r: Simulation)
        requires
            config_wf(*config),
        ensures
            simulation_wf(r),
            r.markets@.len() == config.market.market_count,
            r.agents.agents@.len() == config.agent.agent_count,
            r.agents.fundamentalists@.len() == config.agent.fundamentalist_count,
    {
        let mc = config.market.market_count;
        let mut markets: Vec<GenoaMarket> = Vec::new();
        let mut i: usize = 0;
        while i < mc
            invariant
                0 <= i <= mc,
                config_wf(*config),
                mc == config.market.market_count,
                mc <= MAX_MARKETS,
                markets@.len() == i,
                forall|k: int| 0 <= k < i
                    ==> market_wf(#[trigger] markets@[k]) && markets@[k].id == k,
            decreases mc - i,
        {
            let m = GenoaMarket::new(config, i as u32);
            markets.push(m);
            i = i + 1;
        }
        let agents = AgentCollection::new(config, rng);
        Simulation { markets, agents }
    }

    /// Read access to the population.
    pub fn agents(&self) -> (r: &AgentCollection)
        ensures
            *r == self.agents,
    {
        &self.agents
    }

    /// Read access to the markets.
    pub fn markets(&self) -> (r: &Vec<GenoaMarket>)
        ensures
            *r == self.markets,
    {
        &self.markets
    }

    /// One full time step: the diffusion pass over all agents, then each
    /// market (in randomized order) runs its trading-intent pass followed
    /// by its clearing, and the step's price, volatility and median-cash
    /// series are reported. Trading conserves total population cash.
    pub fn step(
        &mut self,
        step: usize,
        reporter: &mut Reporter,
        rng: &mut rand::rngs::StdRng,
    ) -> (r: Result<(), FatalError>)
        requires
            simulation_wf(*old(self)),
            reporter_wf(*old(reporter)),
            old(reporter).current_step < usize::MAX,
            old(self).agents.agents@.len() >= 1,
        ensures
            simulation_wf(*final(self)),
            reporter_wf(*final(reporter)),
            final(reporter).current_step == old(reporter).current_step,
            final(self).markets@.len() == old(self).markets@.len(),
            final(self).agents.agents@.len() == old(self).agents.agents@.len(),
            r is Ok ==> total_cash_spec(final(self).agents.agents@)
                == total_cash_spec(old(self).agents.agents@),
            r is Ok ==> forall|m2: int| 0 <= m2 < final(self).agents.market_count
                ==> total_assets_spec(final(self).agents.agents@, m2)
                    == total_assets_spec(old(self).agents.agents@, m2),
            r is Ok ==> forall|m2: int| 0 <= m2 < final(self).markets@.len()
                ==> (#[trigger] final(self).markets@[m2]).buy_orders@.len() == 0
                    && final(self).markets@[m2].sell_orders@.len() == 0,
            r matches Err(e) ==> e.step == step,
            forall|m2: int| 0 <= m2 < final(self).markets@.len()
                ==> reported_at(*final(reporter), old(reporter).current_step as int,
                    "price"@, Option::Some(m2 as u32),
                    (#[trigger] final(self).markets@[m2]).price_history@[0] as i128),
            forall|m2: int| 0 <= m2 < final(self).markets@.len()
                ==> reported_at(*final(reporter), old(reporter).current_step as int,
                    "volatility"@, Option::Some(m2 as u32),
                    (#[trigger] final(self).markets@[m2]).volatility as i128),
            exists|v: u128| #[trigger] is_cash_median(final(self).agents.agents@, v)
                && reported_at(*final(reporter), old(reporter).current_step as int,
                    "median_cash"@, Option::<u32>::None,
                    if v > i128::MAX as u128 { i128::MAX as i128 } else { v as i128 }),
    {
        let ghost at_start = self.agents.agents@;
        let mc = self.markets.len();

        // diffusion first, against the previous step's beliefs
        self.agents.step(&self.markets, step, rng);
        proof {
            lemma_total_cash_pointwise(self.agents.agents@, at_start);
            assert forall|i: int| 0 <= i < self.agents.agents@.len()
                implies #[trigger] self.agents.agents@[i].assets
                    == at_start[i].assets by {
                assert(self.agents.agents@[i].cash == at_start[i].cash);
            }
            assert forall|m2: int| 0 <= m2 < self.agents.market_count
                implies total_assets_spec(self.agents.agents@, m2)
                    == total_assets_spec(at_start, m2) by {
                lemma_total_assets_pointwise(self.agents.agents@, at_start, m2);
            }
        }

        // markets in randomized order: trading intent, then clearing
        let order = shuffled_indices(rng, mc);
        let mut k: usize = 0;
        let mut failed: Option<SimError> = None;
        while k < mc
            invariant
                0 <= k <= mc,
                mc == self.markets@.len(),
                simulation_wf(*self),
                self.markets@.len() == old(self).markets@.len(),
                self.agents.agents@.len() == at_start.len(),
                self.agents.agents@.len() >= 1,
                order@.len() == mc,
                forall|k2: int| 0 <= k2 < order@.len() ==> #[trigger] order@[k2] < mc,
                self.agents.market_count == old(self).agents.market_count,
                failed is None ==> total_cash_spec(self.agents.agents@)
                    == total_cash_spec(at_start),
                failed is None ==> forall|m2: int| 0 <= m2 < self.agents.market_count
                    ==> total_assets_spec(self.agents.agents@, m2)
                        == total_assets_spec(at_start, m2),
                failed is None ==> forall|pos: int| 0 <= pos < k
                    ==> (#[trigger] self.markets@[order@[pos] as int])
                            .buy_orders@.len() == 0
                        && self.markets@[order@[pos] as int].sell_orders@.len() == 0,
            decreases mc - k,
        {
            let mi = order[k];
            if failed.is_none() {
                let ghost pre_markets = self.markets@;
                self.agents.step_market(&mut self.markets[mi], rng);
                let outcome = self.markets[mi].step(&mut self.agents);
                proof {
                    assert forall|i: int| 0 <= i < self.markets@.len()
                        implies market_wf(#[trigger] self.markets@[i])
                            && self.markets@[i].id == i by {
                        if i != mi {
                            assert(self.markets@[i] == pre_markets[i]);
                        }
                    }
                    assert forall|pos: int| 0 <= pos < k + 1
                        implies (#[trigger] self.markets@[order@[pos] as int])
                                .buy_orders@.len() == 0
                            && self.markets@[order@[pos] as int]
                                .sell_orders@.len() == 0 by {
                        if order@[pos] != mi {
                            assert(self.markets@[order@[pos] as int]
                                == pre_markets[order@[pos] as int]);
                        }
                    }
                }
                match outcome {
                    Result::Err(e) => {
                        failed = Some(e);
                    }
                    Result::Ok(()) => {}
                }
            }
            k = k + 1;
        }
        proof {
            if failed is None {
                assert forall|m2: int| 0 <= m2 < self.markets@.len()
                    implies (#[trigger] self.markets@[m2]).buy_orders@.len() == 0
                        && self.markets@[m2].sell_orders@.len() == 0 by {
                    assert(visits(order@, m2));
                    let pos = choose|pos: int| 0 <= pos < order@.len()
                        && order@[pos] == m2;
                    assert(self.markets@[order@[pos] as int].buy_orders@.len() == 0);
                }
            }
        }
        let ghost post_trade = *self;

        // report this step's series
        let step0 = reporter.current_step;
        let mut m: usize = 0;
        while m < mc
            invariant
                0 <= m <= mc,
                mc == self.markets@.len(),
                *self == post_trade,
                simulation_wf(*self),
                reporter_wf(*reporter),
                reporter.current_step == step0,
                step0 == old(reporter).current_step,
                step0 < usize::MAX,
                forall|m2: int| 0 <= m2 < m
                    ==> reported_at(*reporter, step0 as int, "price"@,
                        Option::Some(m2 as u32),
                        (#[trigger] self.markets@[m2]).price_history@[0] as i128),
                forall|m2: int| 0 <= m2 < m
                    ==> reported_at(*reporter, step0 as int, "volatility"@,
                        Option::Some(m2 as u32),
                        (#[trigger] self.markets@[m2]).volatility as i128),
            decreases mc - m,
        {
            proof {
                reveal_strlit("price");
                reveal_strlit("volatility");
                assert("price"@.len() == 5);
                assert("volatility"@.len() == 10);
                assert("price"@ != "volatility"@);
            }
            let price = self.markets[m].price();
            let ghost rep1 = *reporter;
            let price_target = ReporterTarget {
                origin: None,
                description: Some("price".to_owned()),
                index: Some(m as u32),
            };
            let ghost ptv = price_target;
            reporter.report_num(price_target, price as i128);
            proof {
                assert(reported_at(*reporter, step0 as int, "price"@,
                    Option::Some(m as u32),
                    self.markets@[m as int].price_history@[0] as i128));
                assert forall|m2: int| 0 <= m2 < m
                    implies reported_at(*reporter, step0 as int, "price"@,
                        Option::Some(m2 as u32),
                        (#[trigger] self.markets@[m2]).price_history@[0] as i128)
                    && reported_at(*reporter, step0 as int, "volatility"@,
                        Option::Some(m2 as u32),
                        self.markets@[m2].volatility as i128) by {
                    lemma_reported_preserved(rep1, *reporter, step0 as int,
                        "price"@, Option::Some(m2 as u32),
                        self.markets@[m2].price_history@[0] as i128, ptv);
                    lemma_reported_preserved(rep1, *reporter, step0 as int,
                        "volatility"@, Option::Some(m2 as u32),
                        self.markets@[m2].volatility as i128, ptv);
                }
            }
            let vol = self.markets[m].volatility();
            let ghost rep2 = *reporter;
            let vol_target = ReporterTarget {
                origin: None,
                description: Some("volatility".to_owned()),
                index: Some(m as u32),
            };
            let ghost vtv = vol_target;
            reporter.report_num(vol_target, vol as i128);
            proof {
                assert(reported_at(*reporter, step0 as int, "volatility"@,
                    Option::Some(m as u32),
                    self.markets@[m as int].volatility as i128));
                assert forall|m2: int| 0 <= m2 < m + 1
                    implies reported_at(*reporter, step0 as int, "price"@,
                        Option::Some(m2 as u32),
                        (#[trigger] self.markets@[m2]).price_history@[0] as i128) by {
                    lemma_reported_preserved(rep2, *reporter, step0 as int,
                        "price"@, Option::Some(m2 as u32),
                        self.markets@[m2].price_history@[0] as i128, vtv);
                }
                assert forall|m2: int| 0 <= m2 < m
                    implies reported_at(*reporter, step0 as int, "volatility"@,
                        Option::Some(m2 as u32),
                        (#[trigger] self.markets@[m2]).volatility as i128) by {
                    lemma_reported_preserved(rep2, *reporter, step0 as int,
                        "volatility"@, Option::Some(m2 as u32),
                        self.markets@[m2].volatility as i128, vtv);
                }
            }
            m = m + 1;
        }
        let median = self.agents.cash_median();
        proof {
            assert(is_cash_median(self.agents.agents@, median));
        }
        let capped_median: i128 = if median > i128::MAX as u128 {
            i128::MAX
        } else {
            median as i128
        };
        proof {
            reveal_strlit("price");
            reveal_strlit("volatility");
            reveal_strlit("median_cash");
            assert("price"@.len() == 5);
            assert("volatility"@.len() == 10);
            assert("median_cash"@.len() == 11);
            assert("price"@ != "volatility"@ && "price"@ != "median_cash"@
                && "volatility"@ != "median_cash"@);
        }
        let ghost rep3 = *reporter;
        let median_target = ReporterTarget {
            origin: None,
            description: Some("median_cash".to_owned()),
            index: None,
        };
        let ghost mtv = median_target;
        reporter.report_num(median_target, capped_median);
        proof {
            assert forall|m2: int| 0 <= m2 < self.markets@.len()
                implies reported_at(*reporter, step0 as int, "price"@,
                    Option::Some(m2 as u32),
                    (#[trigger] self.markets@[m2]).price_history@[0] as i128)
                && reported_at(*reporter, step0 as int, "volatility"@,
                    Option::Some(m2 as u32),
                    self.markets@[m2].volatility as i128) by {
                lemma_reported_preserved(rep3, *reporter, step0 as int,
                    "price"@, Option::Some(m2 as u32),
                    self.markets@[m2].price_history@[0] as i128, mtv);
                lemma_reported_preserved(rep3, *reporter, step0 as int,
                    "volatility"@, Option::Some(m2 as u32),
                    self.markets@[m2].volatility as i128, mtv);
            }
            assert(reported_at(*reporter, step0 as int, "median_cash"@,
                Option::<u32>::None, capped_median));
        }

        match failed {
            Option::Some(e) => Err(FatalError { step, error: e }),
            Option::None => Ok(()),
        }
    }
}


} // verus!
