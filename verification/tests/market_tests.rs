//! Clearing-engine scenarios: crossing, no-cross, conservation and the
//! volatility estimate.

use std::collections::VecDeque;
use genoa_sim::agent::{Agent, AgentCollection};
use genoa_sim::market::GenoaMarket;
use genoa_sim::order::GenoaOrder;
use genoa_sim::FP;

fn test_config(initial_price: u64, initial_volatility: u64, cap: usize) -> genoa_sim::config::Config {
    let mut c = genoa_sim::config::Config::default();
    c.market.initial_price = initial_price;
    c.market.initial_volatility = initial_volatility;
    c.market.price_history_count = cap;
    c
}

fn flat_agent(market_count: usize, cash: u128, assets: u64) -> Agent {
    Agent {
        cash,
        assets: vec![assets; market_count],
        state: vec![FP / 2; market_count],
        order_probability: vec![FP; market_count],
        influence_probability: 0,
        influencers_count: 1,
        reflection_delay: 1,
        influences: VecDeque::new(),
        friend_threshold: 600_000,
        max_friends: 10,
        friend_influence_probability: 0,
        friends: VecDeque::new(),
    }
}

fn population(n: usize, market_count: usize, cash: u128, assets: u64) -> AgentCollection {
    let mut agents = Vec::new();
    for _ in 0..n {
        agents.push(flat_agent(market_count, cash, assets));
    }
    AgentCollection {
        agents,
        fundamentalists: Vec::new(),
        market_count,
    }
}

fn order(agent: usize, qty: u64, price_fp: u64) -> GenoaOrder {
    GenoaOrder {
        agent,
        asset_quantity: qty,
        limit_price: price_fp,
    }
}

#[test]
fn test_genoa_market_step() {
    // sell {2 @ 0.9}, {8 @ 0.95}, {1 @ 0.8}; buy {2 @ 1.1}, {2 @ 1.15},
    // {5 @ 1.05}: the walk stops at marginal prices 1.05 / 0.95, so the
    // clearing price is 1.00 and the executed volume 9
    let mut market = GenoaMarket::new(&test_config(FP, 0, 20), 0);
    market.sell_orders.push(order(0, 2, 900_000));
    market.sell_orders.push(order(1, 8, 950_000));
    market.sell_orders.push(order(2, 1, 800_000));
    market.buy_orders.push(order(3, 2, 1_100_000));
    market.buy_orders.push(order(4, 2, 1_150_000));
    market.buy_orders.push(order(5, 5, 1_050_000));

    let mut agents = population(6, 1, 100 * FP as u128, 50);
    let cash_before = agents.total_cash();
    let assets_before = agents.total_assets(0);

    let r = market.step(&mut agents);
    assert!(r.is_ok());

    // executed volume bounded by both sides' totals (11 sell, 9 buy):
    // nine assets change hands at exactly 1.0 each
    assert_eq!(market.price(), 1_000_000);
    assert!(market.price() > 800_000 && market.price() < 1_150_000);
    assert_eq!(market.price_history.len(), 4);

    // conservation: cash and assets only move between agents
    assert_eq!(agents.total_cash(), cash_before);
    assert_eq!(agents.total_assets(0), assets_before);

    // the buyers paid 1.0 each for 2, 2 and 5 assets
    assert_eq!(agents.agents[4].cash, 100 * FP as u128 - 2 * FP as u128);
    assert_eq!(agents.agents[3].cash, 100 * FP as u128 - 2 * FP as u128);
    assert_eq!(agents.agents[5].cash, 100 * FP as u128 - 5 * FP as u128);
    assert_eq!(agents.agents[4].assets[0], 52);
    // the sellers: 1 from agent 2, 2 from agent 0, 6 (partial) from agent 1
    assert_eq!(agents.agents[2].assets[0], 49);
    assert_eq!(agents.agents[0].assets[0], 48);
    assert_eq!(agents.agents[1].assets[0], 44);
    assert_eq!(agents.agents[1].cash, 100 * FP as u128 + 6 * FP as u128);

    // books are cleared afterwards
    assert!(market.buy_orders.is_empty());
    assert!(market.sell_orders.is_empty());
}

#[test]
fn test_no_cross_keeps_price() {
    // every sell limit above every buy limit: no execution, history
    // unchanged, books cleared
    let mut market = GenoaMarket::new(&test_config(FP, 0, 20), 0);
    market.sell_orders.push(order(0, 5, 2_000_000));
    market.sell_orders.push(order(1, 3, 2_500_000));
    market.buy_orders.push(order(2, 4, 1_000_000));
    market.buy_orders.push(order(3, 1, 900_000));

    let mut agents = population(4, 1, 100 * FP as u128, 50);
    let cash_before = agents.total_cash();

    let r = market.step(&mut agents);
    assert!(r.is_ok());

    assert_eq!(market.price(), FP);
    assert_eq!(market.price_history.len(), 3);
    assert_eq!(agents.total_cash(), cash_before);
    assert!(market.buy_orders.is_empty());
    assert!(market.sell_orders.is_empty());
}

#[test]
fn test_compute_price_on_sorted_books() {
    let mut market = GenoaMarket::new(&test_config(FP, 0, 20), 0);
    // already sorted: buys descending, sells ascending
    market.buy_orders.push(order(4, 2, 1_150_000));
    market.buy_orders.push(order(3, 2, 1_100_000));
    market.buy_orders.push(order(5, 5, 1_050_000));
    market.sell_orders.push(order(2, 1, 800_000));
    market.sell_orders.push(order(0, 2, 900_000));
    market.sell_orders.push(order(1, 8, 950_000));
    let r = market.compute_price();
    assert_eq!(r, Some((1_000_000, 9)));
}

#[test]
fn test_compute_price_no_orders() {
    let market = GenoaMarket::new(&test_config(FP, 0, 20), 0);
    assert_eq!(market.compute_price(), None);
}

#[test]
fn test_out_of_assets_is_fatal() {
    // a seller with fewer assets than its order: the fatal invariant
    // violation is reported with the agent's identity, not clamped
    let mut market = GenoaMarket::new(&test_config(FP, 0, 20), 7);
    market.sell_orders.push(order(0, 10, 900_000));
    market.buy_orders.push(order(1, 10, 1_100_000));
    let mut agents = population(2, 8, 100 * FP as u128, 2);
    let r = market.step(&mut agents);
    assert_eq!(
        r,
        Err(genoa_sim::SimError::OutOfAssets { agent: 0, market: 7 })
    );
}

#[test]
fn test_out_of_cash_is_fatal() {
    let mut market = GenoaMarket::new(&test_config(FP, 0, 20), 3);
    market.sell_orders.push(order(0, 10, 900_000));
    market.buy_orders.push(order(1, 10, 1_100_000));
    let mut agents = population(2, 4, 1, 50);
    let r = market.step(&mut agents);
    assert_eq!(
        r,
        Err(genoa_sim::SimError::OutOfCash { agent: 1, market: 3 })
    );
}

#[test]
fn test_volatility_unchanged_below_three_prices() {
    // fewer than three retained prices: the estimate stays exactly as it
    // was, never NaN-like or negative
    let mut market = GenoaMarket {
        id: 0,
        price_history: vec![FP, FP],
        price_history_count: 20,
        volatility: 12_345,
        buy_orders: Vec::new(),
        sell_orders: Vec::new(),
    };
    market.compute_volatility();
    assert_eq!(market.volatility(), 12_345);
}

#[test]
fn test_volatility_of_constant_history_is_zero() {
    let mut market = GenoaMarket::new(&test_config(FP, 777, 20), 0);
    market.compute_volatility();
    assert_eq!(market.volatility(), 0);
}

#[test]
fn test_volatility_of_known_history() {
    // history (newest first) 4.0, 2.0, 2.0: log-returns ln(1/2), ln(1),
    // whose sample deviation is ln(2)/sqrt(2) ~ 0.490128
    let mut market = GenoaMarket {
        id: 0,
        price_history: vec![4 * FP, 2 * FP, 2 * FP],
        price_history_count: 20,
        volatility: 0,
        buy_orders: Vec::new(),
        sell_orders: Vec::new(),
    };
    market.compute_volatility();
    assert_eq!(market.volatility(), 490_128);
}

#[test]
fn test_record_price_evicts_oldest() {
    let mut market = GenoaMarket::new(&test_config(FP, 0, 3), 0);
    market.record_price(2 * FP);
    assert_eq!(market.price_history, vec![2 * FP, FP, FP]);
    market.record_price(3 * FP);
    assert_eq!(market.price_history, vec![3 * FP, 2 * FP, FP]);
    assert_eq!(market.price(), 3 * FP);
    assert_eq!(market.price_ago(2), FP);
    assert_eq!(market.price_ago(9), FP);
}

#[test]
fn test_submitted_orders_are_within_price_bounds() {
    let mut market = GenoaMarket::new(&test_config(100 * FP, 3_000, 20), 0);
    let mut rng = genoa_sim::rng::rng_from_seed(11);
    for agent in 0..50usize {
        market.buy_order(agent, 1_000 * FP as u128, &mut rng);
        market.sell_order(agent, 30, &mut rng);
    }
    assert_eq!(market.buy_orders.len(), 50);
    assert_eq!(market.sell_orders.len(), 50);
    for o in market.buy_orders.iter().chain(market.sell_orders.iter()) {
        assert!(o.limit_price >= 1);
        assert!(o.limit_price <= genoa_sim::MAX_PRICE);
    }
    // zero-size submissions are no-ops
    market.buy_order(0, 0, &mut rng);
    market.sell_order(0, 0, &mut rng);
    assert_eq!(market.buy_orders.len(), 50);
    assert_eq!(market.sell_orders.len(), 50);
}

#[test]
fn test_equal_prices_fill_in_arrival_order() {
    // two sells at the same limit: the stable sort keeps arrival order,
    // so the earlier seller fills first and the later one not at all
    let mut market = GenoaMarket::new(&test_config(FP, 0, 20), 0);
    market.sell_orders.push(order(0, 5, 900_000));
    market.sell_orders.push(order(1, 5, 900_000));
    market.buy_orders.push(order(2, 5, 1_100_000));

    let mut agents = population(3, 1, 100 * FP as u128, 10);
    let r = market.step(&mut agents);
    assert!(r.is_ok());
    assert_eq!(market.price(), 1_000_000);
    assert_eq!(agents.agents[0].assets[0], 5);
    assert_eq!(agents.agents[1].assets[0], 10);
    assert_eq!(agents.agents[2].assets[0], 15);
}
