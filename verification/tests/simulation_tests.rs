//! Whole-run scenarios: stepping the simulation conserves cash, and the
//! reporter carries the step's series.

use genoa_sim::config::{AgentConfig, Config, Distribution, MarketConfig};
use genoa_sim::report::{Reporter, ReporterTarget};
use genoa_sim::rng::rng_from_seed;
use genoa_sim::simulation::Simulation;
use genoa_sim::FP;

fn small_config() -> Config {
    Config {
        market: MarketConfig {
            market_count: 2,
            initial_price: 100 * FP,
            initial_volatility: 3_000,
            price_history_count: 20,
        },
        agent: AgentConfig {
            agent_count: 25,
            fundamentalist_count: 5,
            initial_assets: Distribution::static_value(30 * FP as i64),
            order_probability: Distribution::static_value(FP as i64),
            influence_probability: Distribution::static_value(800_000),
            influencers_count: Distribution::static_value(FP as i64),
            initial_cash: Distribution::static_value(3_000 * FP as i64),
            initial_state: Distribution::Bernoulli { p: FP / 2 },
            reflection_delay: Distribution::static_value(3 * FP as i64),
            friend_threshold: Distribution::static_value(600_000),
            max_friends: Distribution::static_value(10 * FP as i64),
            friend_influence_probability: Distribution::static_value(400_000),
        },
    }
}

#[test]
fn test_simulation_conserves_cash_over_steps() {
    let config = small_config();
    let mut rng = rng_from_seed(3);
    let mut sim = Simulation::new(&config, &mut rng);
    assert_eq!(sim.markets().len(), 2);
    assert_eq!(sim.agents().agents.len(), 25);
    let cash_before = sim.agents().total_cash();
    let assets_before = [sim.agents().total_assets(0), sim.agents().total_assets(1)];

    let mut reporter = Reporter::new();
    for step in 0..8 {
        reporter.set_step(step);
        let r = sim.step(step, &mut reporter, &mut rng);
        assert!(r.is_ok());
    }
    // trading only moves cash and assets between agents
    assert_eq!(sim.agents().total_cash(), cash_before);
    assert_eq!(sim.agents().total_assets(0), assets_before[0]);
    assert_eq!(sim.agents().total_assets(1), assets_before[1]);
    // prices stay within the engine's range and histories grow
    for m in sim.markets() {
        assert!(m.price() >= 1 && m.price() <= genoa_sim::MAX_PRICE);
        assert!(m.price_history.len() >= 3);
    }
}

#[test]
fn test_simulation_reports_series() {
    let config = small_config();
    let mut rng = rng_from_seed(9);
    let mut sim = Simulation::new(&config, &mut rng);
    let mut reporter = Reporter::new();
    for step in 0..4 {
        reporter.set_step(step);
        sim.step(step, &mut reporter, &mut rng).unwrap();
    }
    let price0 = ReporterTarget {
        origin: None,
        description: Some("price".to_owned()),
        index: Some(0),
    };
    let series = reporter.series(&price0).expect("price series exists");
    assert_eq!(series.len(), 4);
    for v in series {
        let v = v.expect("every step reported a price");
        assert!(v >= 1);
    }
    let median = ReporterTarget {
        origin: None,
        description: Some("median_cash".to_owned()),
        index: None,
    };
    // the reported value is the population's median cash balance
    let median_series = reporter.series(&median).expect("median series exists");
    let reported = median_series[3].expect("last step reported a median");
    assert_eq!(reported, sim.agents().cash_median() as i128);
    let missing = ReporterTarget {
        origin: None,
        description: Some("unreported".to_owned()),
        index: None,
    };
    assert!(reporter.series(&missing).is_none());
}

#[test]
fn test_reporter_rows_and_padding() {
    let mut reporter = Reporter::new();
    let t = ReporterTarget {
        origin: None,
        description: Some("series".to_owned()),
        index: None,
    };
    reporter.set_step(2);
    reporter.report_num(t.clone(), 41);
    reporter.report_num(t.clone(), 42);
    let s = reporter.series(&t).unwrap();
    // steps 0 and 1 were skipped, step 2 holds the latest report
    assert_eq!(s.len(), 3);
    assert_eq!(s[0], None);
    assert_eq!(s[1], None);
    assert_eq!(s[2], Some(42));

    let other = ReporterTarget {
        origin: None,
        description: Some("series".to_owned()),
        index: Some(1),
    };
    reporter.report_num(other.clone(), 7);
    assert_eq!(reporter.per_step.len(), 2);
    assert!(t.same_target(&t));
    assert!(!t.same_target(&other));
}
