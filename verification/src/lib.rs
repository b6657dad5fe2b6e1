//! A verified agent-based model of a stylized financial market.
//!
//! Trading agents hold cash, per-market asset counts, and per-market belief
//! values; beliefs spread through a social-influence network, and aggregated
//! buy/sell intentions are cleared through a batch double auction per market.
//!
//! All quantities that a floating-point implementation would carry as reals
//! are carried here as fixed-point integers scaled by [`FP`]: prices, cash,
//! beliefs, probabilities and volatilities. The clearing engine, the belief
//! diffusion pass, and the statistics they rest on are verified; calls into
//! the random-number generator stand behind a small trusted boundary.

use vstd::prelude::*;

pub mod agent;
pub mod collection;
pub mod config;
pub mod diffusion;
pub mod market;
pub mod math;
pub mod order;
pub mod report;
pub mod rng;
pub mod simulation;
pub mod stats;

verus! {

/// Scale of all fixed-point quantities: a stored value `v` stands for the
/// real number `v / FP`.
pub const FP: u64 = 1_000_000;

/// Largest representable limit price / recorded price, in fixed-point units
/// (one million in real units). Keeping prices inside this range keeps every
/// intermediate product of the clearing and statistics code inside `i128`.
pub const MAX_PRICE: u64 = 1_000_000_000_000;

/// Largest market count the statistics code accepts; keeps correlation
/// intermediates inside `i128`.
pub const MAX_MARKETS: usize = 4096;

/// Largest price-history retention length; keeps volatility intermediates
/// inside `u128`.
pub const MAX_HISTORY: usize = 4096;

/// A fatal invariant violation or machine-range failure, with the agent and
/// market it occurred in. The clearing engine reports these instead of
/// clamping, since clamping would silently corrupt conservation.
#[derive(Debug, Clone, Copy, PartialEq, Eq, Structural)]
pub enum SimError {
    /// A buy fill would drive an agent's cash negative.
    OutOfCash { agent: usize, market: u32 },
    /// A sell fill would drive an agent's asset count negative.
    OutOfAssets { agent: usize, market: u32 },
    /// A balance update left the machine integer range.
    NumericOverflow { agent: usize, market: u32 },
    /// An order names an agent outside the population.
    UnknownAgent { agent: usize, market: u32 },
}

/// A fatal violation as the orchestrator reports it: the offending step
/// together with the agent- and market-carrying error beneath it.
#[derive(Debug, Clone, Copy, PartialEq, Eq, Structural)]
pub struct FatalError {
    pub step: usize,
    pub error: SimError,
}

} // verus!
