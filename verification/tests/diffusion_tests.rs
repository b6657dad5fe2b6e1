//! Diffusion-engine scenarios: belief bounds, friend promotion, bounded
//! friend queues, and determinism under a fixed seed.

use std::collections::VecDeque;
use genoa_sim::agent::{Agent, AgentCollection, Influence};
use genoa_sim::config::{AgentConfig, Config, Distribution, MarketConfig};
use genoa_sim::market::GenoaMarket;
use genoa_sim::rng::rng_from_seed;
use genoa_sim::FP;

fn agent_with(market_count: usize, influence_probability: u64) -> Agent {
    Agent {
        cash: 1_000 * FP as u128,
        assets: vec![10; market_count],
        state: vec![FP / 2; market_count],
        order_probability: vec![FP; market_count],
        influence_probability,
        influencers_count: 1,
        reflection_delay: 1,
        influences: VecDeque::new(),
        friend_threshold: 900_000,
        max_friends: 5,
        friend_influence_probability: 0,
        friends: VecDeque::new(),
    }
}

fn flat_market(id: u32, history: Vec<u64>) -> GenoaMarket {
    GenoaMarket {
        id,
        price_history: history,
        price_history_count: 20,
        volatility: 0,
        buy_orders: Vec::new(),
        sell_orders: Vec::new(),
    }
}

#[test]
fn test_friend_promotion_after_reflection_delay() {
    // an influence whose recorded belief vector is perfectly correlated
    // with the later price movement crosses the threshold, and its source
    // becomes a friend once the reflection delay has passed
    let mut a0 = agent_with(3, 0);
    a0.influences.push_back(Influence {
        influencer: 1,
        state: vec![0, FP / 2, FP],
        step: 0,
    });
    let a1 = agent_with(3, 0);
    let mut agents = AgentCollection {
        agents: vec![a0, a1],
        fundamentalists: Vec::new(),
        market_count: 3,
    };
    // movements over one step: 0.0, +3.0 and +6.0
    let markets = vec![
        flat_market(0, vec![FP, FP, FP]),
        flat_market(1, vec![4 * FP, FP, FP]),
        flat_market(2, vec![7 * FP, FP, FP]),
    ];
    let mut rng = rng_from_seed(1);
    agents.dga(&markets, 1, &mut rng);
    assert_eq!(agents.agents[0].friends.len(), 1);
    assert_eq!(agents.agents[0].friends[0], 1);
    assert!(agents.agents[0].influences.is_empty());
}

#[test]
fn test_uncorrelated_influence_is_not_promoted() {
    let mut a0 = agent_with(3, 0);
    a0.influences.push_back(Influence {
        influencer: 1,
        state: vec![FP, FP / 2, 0],
        step: 0,
    });
    let a1 = agent_with(3, 0);
    let mut agents = AgentCollection {
        agents: vec![a0, a1],
        fundamentalists: Vec::new(),
        market_count: 3,
    };
    // anticorrelated with the recorded beliefs
    let markets = vec![
        flat_market(0, vec![FP, FP, FP]),
        flat_market(1, vec![4 * FP, FP, FP]),
        flat_market(2, vec![7 * FP, FP, FP]),
    ];
    let mut rng = rng_from_seed(1);
    agents.dga(&markets, 1, &mut rng);
    assert_eq!(agents.agents[0].friends.len(), 0);
    assert!(agents.agents[0].influences.is_empty());
}

#[test]
fn test_friend_queue_never_exceeds_max_friends() {
    let mut a = agent_with(3, 0);
    a.max_friends = 2;
    a.add_friend(7);
    a.add_friend(8);
    a.add_friend(9);
    a.add_friend(10);
    assert_eq!(a.friends.len(), 2);
    // FIFO eviction: the oldest friends left first
    assert_eq!(a.friends[0], 9);
    assert_eq!(a.friends[1], 10);

    let mut b = agent_with(3, 0);
    b.max_friends = 0;
    b.add_friend(1);
    assert_eq!(b.friends.len(), 0);
}

#[test]
fn test_beliefs_stay_in_unit_interval() {
    // every diffusion update writes all-or-nothing beliefs; nothing
    // leaves [0, 1]
    let mut agents = AgentCollection {
        agents: (0..20).map(|_| agent_with(2, FP)).collect(),
        fundamentalists: vec![vec![FP, 0], vec![0, FP]],
        market_count: 2,
    };
    let markets = vec![
        flat_market(0, vec![FP, FP, FP]),
        flat_market(1, vec![FP, FP, FP]),
    ];
    let mut rng = rng_from_seed(5);
    for step in 0..10 {
        agents.dga(&markets, step, &mut rng);
    }
    for a in &agents.agents {
        for &s in &a.state {
            assert!(s <= FP);
            assert!(s == 0 || s == FP);
        }
    }
}

fn small_config() -> Config {
    Config {
        market: MarketConfig {
            market_count: 2,
            initial_price: 100 * FP,
            initial_volatility: 3_000,
            price_history_count: 20,
        },
        agent: AgentConfig {
            agent_count: 30,
            fundamentalist_count: 5,
            initial_assets: Distribution::static_value(30 * FP as i64),
            order_probability: Distribution::static_value(FP as i64),
            influence_probability: Distribution::static_value(800_000),
            influencers_count: Distribution::static_value(FP as i64),
            initial_cash: Distribution::static_value(3_000 * FP as i64),
            initial_state: Distribution::Bernoulli { p: FP / 2 },
            reflection_delay: Distribution::static_value(10 * FP as i64),
            friend_threshold: Distribution::static_value(600_000),
            max_friends: Distribution::static_value(10 * FP as i64),
            friend_influence_probability: Distribution::static_value(400_000),
        },
    }
}

#[test]
fn test_diffusion_determinism_under_fixed_seed() {
    // the same seed drives the same draws: two runs of one diffusion
    // step over identical populations produce identical belief updates
    let config = small_config();
    let mut build_rng_a = rng_from_seed(42);
    let mut build_rng_b = rng_from_seed(42);
    let mut pop_a = AgentCollection::new(&config, &mut build_rng_a);
    let mut pop_b = AgentCollection::new(&config, &mut build_rng_b);
    let markets = vec![
        flat_market(0, vec![101 * FP, 100 * FP, 100 * FP]),
        flat_market(1, vec![99 * FP, 100 * FP, 100 * FP]),
    ];
    let mut rng_a = rng_from_seed(7);
    let mut rng_b = rng_from_seed(7);
    pop_a.dga(&markets, 0, &mut rng_a);
    pop_b.dga(&markets, 0, &mut rng_b);
    assert_eq!(pop_a.agents.len(), pop_b.agents.len());
    for (a, b) in pop_a.agents.iter().zip(pop_b.agents.iter()) {
        assert_eq!(a.state, b.state);
        assert_eq!(a.friends, b.friends);
        assert_eq!(a.influences.len(), b.influences.len());
    }
}

#[test]
fn test_influence_lookup_spans_agents_and_fundamentalists() {
    let agents = AgentCollection {
        agents: vec![agent_with(2, 0)],
        fundamentalists: vec![vec![FP, 0]],
        market_count: 2,
    };
    assert_eq!(agents.influence_at(0), &vec![FP / 2, FP / 2]);
    assert_eq!(agents.influence_at(1), &vec![FP, 0]);
    assert_eq!(agents.influence_at_market(1, 0), FP);
    assert_eq!(agents.influence_at_market(1, 1), 0);
    assert_eq!(agents.agent(0).influencers_count, 1);
}

#[test]
fn test_population_queries() {
    let mut agents = AgentCollection {
        agents: vec![agent_with(1, 0), agent_with(1, 0), agent_with(1, 0)],
        fundamentalists: Vec::new(),
        market_count: 1,
    };
    agents.agents[0].cash = 10;
    agents.agents[1].cash = 30;
    agents.agents[2].cash = 20;
    agents.agents[0].state[0] = 0;
    agents.agents[1].state[0] = FP;
    agents.agents[2].state[0] = FP;
    assert_eq!(agents.total_cash(), 60);
    assert_eq!(agents.total_assets(0), 30);
    assert_eq!(agents.cash_median(), 20);
    assert_eq!(agents.mean_state(0), 2 * FP / 3);
}

#[test]
fn test_undue_influences_stay_queued() {
    // an influence recorded later than the reflection window reaches is
    // left untouched, and no friend is made
    let mut a0 = agent_with(3, 0);
    a0.influences.push_back(Influence {
        influencer: 1,
        state: vec![0, FP / 2, FP],
        step: 5,
    });
    let a1 = agent_with(3, 0);
    let mut agents = AgentCollection {
        agents: vec![a0, a1],
        fundamentalists: Vec::new(),
        market_count: 3,
    };
    let markets = vec![
        flat_market(0, vec![FP, FP, FP]),
        flat_market(1, vec![4 * FP, FP, FP]),
        flat_market(2, vec![7 * FP, FP, FP]),
    ];
    let mut rng = rng_from_seed(1);
    agents.dga(&markets, 1, &mut rng);
    assert_eq!(agents.agents[0].influences.len(), 1);
    assert_eq!(agents.agents[0].friends.len(), 0);
}
