//! The per-asset market: order intake, batch clearing, price history and
//! volatility.

use vstd::prelude::*;
use crate::{FP, MAX_PRICE, MAX_HISTORY, SimError};
use crate::order::{GenoaOrder, AgentId, order_wf, orders_wf, sorted_by_price, qty_sum, key_le,
    sort_book, lemma_qty_sum_take_step, lemma_qty_sum_take_le, lemma_qty_sum_skip_step};

verus! {

/// Identifier of a market: its index in the simulation's market list.
pub type MarketId = u32;

/// One traded asset's market: a rolling price history (newest first), a
/// volatility estimate, and the order books of the current step.
#[derive(Debug, Clone)]
pub struct GenoaMarket {
    pub id: MarketId,
    /// Recorded clearing prices, newest first; never empty.
    pub price_history: Vec<u64>,
    /// Retention length of the price history.
    pub price_history_count: usize,
    /// Latest volatility estimate in fixed-point units; never negative by
    /// construction.
    pub volatility: u64,
    pub buy_orders: Vec<GenoaOrder>,
    pub sell_orders: Vec<GenoaOrder>,
}

/// Well-formedness of a market: a non-empty bounded history of in-range
/// prices, and well-formed order books.
pub open spec fn market_wf(m: GenoaMarket) -> bool {
    &&& 1 <= m.price_history@.len() <= m.price_history_count
    &&& 1 <= m.price_history_count <= MAX_HISTORY
    &&& forall|i: int| 0 <= i < m.price_history@.len()
        ==> 1 <= #[trigger] m.price_history@[i] <= MAX_PRICE
    &&& orders_wf(m.buy_orders@)
    &&& orders_wf(m.sell_orders@)
}

/// State of the cumulative clearing walk: the marginal buy and sell prices
/// and the cumulative buy and sell volumes reached so far.
pub struct WalkState {
    pub buy_price: int,
    pub sell_price: int,
    pub buy_sum: int,
    pub sell_sum: int,
}

/// The crossing walk over the sorted books, mirroring the clearing loop:
/// starting from the best order on each side, the side with the smaller
/// cumulative volume consumes its next order, as long as that order's
/// price still supports a cross; the walk stops when a side runs out or
/// prices no longer cross. On equal cumulative volumes the sell side
/// extends first.
pub open spec fn clearing_walk(
    buys: Seq<GenoaOrder>,
    sells: Seq<GenoaOrder>,
    bi: int,
    si: int,
    st: WalkState,
) -> WalkState
    decreases buys.len() + sells.len() - bi - si
        when 0 <= bi <= buys.len() && 0 <= si <= sells.len()
{
    if st.buy_sum < st.sell_sum {
        if bi < buys.len() && buys[bi].limit_price >= st.sell_price {
            clearing_walk(buys, sells, bi + 1, si, WalkState {
                buy_price: buys[bi].limit_price as int,
                buy_sum: st.buy_sum + buys[bi].asset_quantity,
                ..st
            })
        } else {
            st
        }
    } else {
        if si < sells.len() && sells[si].limit_price <= st.buy_price {
            clearing_walk(buys, sells, bi, si + 1, WalkState {
                sell_price: sells[si].limit_price as int,
                sell_sum: st.sell_sum + sells[si].asset_quantity,
                ..st
            })
        } else {
            st
        }
    }
}

/// The walk's starting state: the best order of each side.
pub open spec fn walk_start(buys: Seq<GenoaOrder>, sells: Seq<GenoaOrder>) -> WalkState {
    WalkState {
        buy_price: buys[0].limit_price as int,
        sell_price: sells[0].limit_price as int,
        buy_sum: buys[0].asset_quantity as int,
        sell_sum: sells[0].asset_quantity as int,
    }
}

/// Whether sorted books admit no cross: a side is empty, or the best bid
/// lies below the best ask.
pub open spec fn no_cross_sorted(buys: Seq<GenoaOrder>, sells: Seq<GenoaOrder>) -> bool {
    buys.len() == 0 || sells.len() == 0
        || buys[0].limit_price < sells[0].limit_price
}

/// The clearing price of sorted books that admit a cross: the midpoint of
/// the walk's final marginal prices.
pub open spec fn clearing_price_spec(buys: Seq<GenoaOrder>, sells: Seq<GenoaOrder>) -> int {
    let w = clearing_walk(buys, sells, 1, 1, walk_start(buys, sells));
    (w.buy_price + w.sell_price) / 2
}

/// The executed volume of sorted books that admit a cross: the smaller of
/// the walk's final cumulative volumes.
pub open spec fn executed_volume_spec(buys: Seq<GenoaOrder>, sells: Seq<GenoaOrder>) -> int {
    let w = clearing_walk(buys, sells, 1, 1, walk_start(buys, sells));
    if w.buy_sum < w.sell_sum {
        w.buy_sum
    } else {
        w.sell_sum
    }
}

impl GenoaMarket {
    /// A fresh market at the configured initial price and volatility. The
    /// history is seeded three deep (so that volatility has returns to
    /// work with as soon as possible), within the retention length.
    pub fn new(config: &crate::config::Config, id: MarketId) -> (r: GenoaMarket)
        requires
            crate::config::market_config_wf(config.market),
        ensures
            market_wf(r),
            r.id == id,
            r.price_history@.len() == if config.market.price_history_count < 3 {
                config.market.price_history_count as int
            } else {
                3
            },
            forall|i: int| 0 <= i < r.price_history@.len()
                ==> #[trigger] r.price_history@[i] == config.market.initial_price,
            r.price_history_count == config.market.price_history_count,
            r.volatility == config.market.initial_volatility,
            r.buy_orders@.len() == 0,
            r.sell_orders@.len() == 0,
    {
        let initial_price = config.market.initial_price;
        let seed_len: usize = if config.market.price_history_count < 3 {
            config.market.price_history_count
        } else {
            3
        };
        let mut history: Vec<u64> = Vec::new();
        let mut i: usize = 0;
        while i < seed_len
            invariant
                0 <= i <= seed_len,
                history@.len() == i,
                forall|k: int| 0 <= k < i
                    ==> #[trigger] history@[k] == initial_price,
            decreases seed_len - i,
        {
            history.push(initial_price);
            i = i + 1;
        }
        GenoaMarket {
            id,
            price_history: history,
            price_history_count: config.market.price_history_count,
            volatility: config.market.initial_volatility,
            buy_orders: Vec::new(),
            sell_orders: Vec::new(),
        }
    }

    /// The current price: the newest entry of the history.
    pub fn price(&self) -> (r: u64)
        requires
            market_wf(*self),
        ensures
            r == self.price_history@[0],
    {
        self.price_history[0]
    }

    /// The price `steps` steps ago, clamped to the oldest retained entry.
    pub fn price_ago(&self, steps: usize) -> (r: u64)
        requires
            market_wf(*self),
        ensures
            r == self.price_history@[if steps < self.price_history@.len() {
                steps as int
            } else {
                self.price_history@.len() - 1
            }],
    {
        if steps < self.price_history.len() {
            self.price_history[steps]
        } else {
            self.price_history[self.price_history.len() - 1]
        }
    }

    /// The latest volatility estimate.
    pub fn volatility(&self) -> (r: u64)
        ensures
            r == self.volatility,
    {
        self.volatility
    }

    /// The market's identifier.
    pub fn id(&self) -> (r: MarketId)
        ensures
            r == self.id,
    {
        self.id
    }

    /// Record a clearing price: push it newest-first and evict the oldest
    /// entries beyond the retention length.
    pub fn record_price(&mut self, price: u64)
        requires
            market_wf(*old(self)),
            1 <= price <= MAX_PRICE,
        ensures
            market_wf(*final(self)),
            final(self).price_history@.len() == if old(self).price_history@.len()
                    < old(self).price_history_count {
                old(self).price_history@.len() + 1int
            } else {
                old(self).price_history_count as int
            },
            final(self).price_history@[0] == price,
            forall|i: int| 1 <= i < final(self).price_history@.len()
                ==> final(self).price_history@[i] == old(self).price_history@[i - 1],
            final(self).id == old(self).id,
            final(self).price_history_count == old(self).price_history_count,
            final(self).volatility == old(self).volatility,
            final(self).buy_orders == old(self).buy_orders,
            final(self).sell_orders == old(self).sell_orders,
    {
        self.price_history.insert(0, price);
        if self.price_history.len() > self.price_history_count {
            self.price_history.truncate(self.price_history_count);
        }
        proof {
            assert forall|i: int| 0 <= i < self.price_history@.len()
                implies 1 <= #[trigger] self.price_history@[i] <= MAX_PRICE by {
                if i >= 1 {
                    assert(self.price_history@[i] == old(self).price_history@[i - 1]);
                }
            }
        }
    }

    /// Find the clearing price and executed volume of the sorted books, or
    /// `None` when no cross is possible. The price lies between the best
    /// ask and the best bid; the volume is bounded by each side's total.
    pub fn compute_price(&self) -> (r: Option<(u64, u128)>)
        requires
            market_wf(*self),
            sorted_by_price(self.buy_orders@, true),
            sorted_by_price(self.sell_orders@, false),
        ensures
            r is None <==> no_cross_sorted(self.buy_orders@, self.sell_orders@),
            r is Some ==> ({
                let (price, volume) = r->0;
                &&& price == clearing_price_spec(self.buy_orders@, self.sell_orders@)
                &&& volume == executed_volume_spec(self.buy_orders@, self.sell_orders@)
                &&& self.sell_orders@[0].limit_price <= price
                    <= self.buy_orders@[0].limit_price
                &&& 1 <= price <= MAX_PRICE
                &&& volume <= qty_sum(self.buy_orders@)
                &&& volume <= qty_sum(self.sell_orders@)
            }),
    {
        let buys = &self.buy_orders;
        let sells = &self.sell_orders;
        if buys.len() == 0 || sells.len() == 0 {
            return None;
        }
        if buys[0].limit_price < sells[0].limit_price {
            return None;
        }
        let ghost bq = buys@;
        let ghost sq = sells@;
        let mut bi: usize = 1;
        let mut si: usize = 1;
        let mut buy_price: u64 = buys[0].limit_price;
        let mut sell_price: u64 = sells[0].limit_price;
        let mut buy_sum: u128 = buys[0].asset_quantity as u128;
        let mut sell_sum: u128 = sells[0].asset_quantity as u128;
        proof {
            lemma_qty_sum_take_step(bq, 0);
            lemma_qty_sum_take_step(sq, 0);
            assert(bq.take(0) =~= Seq::<GenoaOrder>::empty());
            assert(sq.take(0) =~= Seq::<GenoaOrder>::empty());
        }
        loop
            invariant
                1 <= bi <= bq.len(),
                1 <= si <= sq.len(),
                bq == self.buy_orders@,
                sq == self.sell_orders@,
                market_wf(*self),
                sorted_by_price(bq, true),
                sorted_by_price(sq, false),
                bq.len() > 0 && sq.len() > 0,
                sq[0].limit_price <= sell_price <= buy_price
                    <= bq[0].limit_price,
                1 <= sell_price && buy_price <= MAX_PRICE,
                buy_sum == qty_sum(bq.take(bi as int)),
                sell_sum == qty_sum(sq.take(si as int)),
                buy_sum <= (bi as int) * 0xFFFF_FFFF_FFFF_FFFFu64,
                sell_sum <= (si as int) * 0xFFFF_FFFF_FFFF_FFFFu64,
                clearing_walk(bq, sq, 1, 1, walk_start(bq, sq))
                    == clearing_walk(bq, sq, bi as int, si as int, WalkState {
                        buy_price: buy_price as int,
                        sell_price: sell_price as int,
                        buy_sum: buy_sum as int,
                        sell_sum: sell_sum as int,
                    }),
            ensures
                clearing_walk(bq, sq, 1, 1, walk_start(bq, sq))
                    == (WalkState {
                        buy_price: buy_price as int,
                        sell_price: sell_price as int,
                        buy_sum: buy_sum as int,
                        sell_sum: sell_sum as int,
                    }),
                sq[0].limit_price <= sell_price <= buy_price
                    <= bq[0].limit_price,
                buy_sum <= qty_sum(bq),
                sell_sum <= qty_sum(sq),
            decreases bq.len() + sq.len() - bi - si,
        {
            proof {
                lemma_qty_sum_take_le(bq, bi as int);
                lemma_qty_sum_take_le(sq, si as int);
            }
            let ghost cur = WalkState {
                buy_price: buy_price as int,
                sell_price: sell_price as int,
                buy_sum: buy_sum as int,
                sell_sum: sell_sum as int,
            };
            if buy_sum < sell_sum {
                if bi >= self.buy_orders.len() {
                    proof {
                        assert(clearing_walk(bq, sq, bi as int, si as int, cur) == cur);
                    }
                    break;
                }
                let bo = self.buy_orders[bi];
                if bo.limit_price < sell_price {
                    proof {
                        assert(clearing_walk(bq, sq, bi as int, si as int, cur) == cur);
                    }
                    break;
                }
                proof {
                    lemma_qty_sum_take_step(bq, bi as int);
                }
                buy_sum = buy_sum + bo.asset_quantity as u128;
                buy_price = bo.limit_price;
                bi = bi + 1;
            } else {
                if si >= self.sell_orders.len() {
                    proof {
                        assert(clearing_walk(bq, sq, bi as int, si as int, cur) == cur);
                    }
                    break;
                }
                let so = self.sell_orders[si];
                if so.limit_price > buy_price {
                    proof {
                        assert(clearing_walk(bq, sq, bi as int, si as int, cur) == cur);
                    }
                    break;
                }
                proof {
                    lemma_qty_sum_take_step(sq, si as int);
                }
                sell_sum = sell_sum + so.asset_quantity as u128;
                sell_price = so.limit_price;
                si = si + 1;
            }
        }
        proof {
            lemma_qty_sum_take_le(bq, bi as int);
            lemma_qty_sum_take_le(sq, si as int);
        }
        let price: u64 = (buy_price + sell_price) / 2;
        let volume: u128 = if buy_sum < sell_sum {
            buy_sum
        } else {
            sell_sum
        };
        Some((price, volume))
    }
}

/// One side's fill walk over a price-sorted book, mirroring the execution
/// loop: each order in turn is filled up to the remaining budget (the
/// straddling order partially, later orders not at all); a buy fill
/// debits `price * fill` cash and credits `fill` assets of market `m`,
/// a sell fill the reverse. The second component is false exactly when a
/// fill fails: an order names an agent outside the population, a buyer
/// lacks the cash for its fill, a seller the assets, or a balance would
/// leave the machine range.
pub open spec fn fill_walk(
    h: Seq<crate::agent::Holdings>,
    orders: Seq<GenoaOrder>,
    remaining: int,
    i: int,
    m: int,
    price: int,
    buy: bool,
) -> (Seq<crate::agent::Holdings>, bool)
    decreases orders.len() - i
        when 0 <= i <= orders.len()
{
    if i >= orders.len() || remaining <= 0 {
        (h, true)
    } else {
        let o = orders[i];
        let fill: int = if remaining > o.asset_quantity {
            o.asset_quantity as int
        } else {
            remaining
        };
        if o.agent >= h.len() {
            (h, false)
        } else {
            let a = h[o.agent as int];
            if buy {
                if price * fill > a.cash || a.assets[m] + fill > u64::MAX {
                    (h, false)
                } else {
                    fill_walk(h.update(o.agent as int, crate::agent::Holdings {
                        cash: a.cash - price * fill,
                        assets: a.assets.update(m, a.assets[m] + fill),
                    }), orders, remaining - fill, i + 1, m, price, buy)
                }
            } else {
                if fill > a.assets[m] || a.cash + price * fill > u128::MAX {
                    (h, false)
                } else {
                    fill_walk(h.update(o.agent as int, crate::agent::Holdings {
                        cash: a.cash + price * fill,
                        assets: a.assets.update(m, a.assets[m] - fill),
                    }), orders, remaining - fill, i + 1, m, price, buy)
                }
            }
        }
    }
}

impl GenoaMarket {
    /// Walk the price-sorted buy orders, filling each against the executed
    /// volume budget until it is exhausted; the last touched order may be
    /// filled partially. On success the population's cash falls by exactly
    /// `price * amount` and its holding of this asset rises by `amount`;
    /// per agent, the fills land as [`fill_walk`] says, and the walk
    /// succeeds if and only if every fill is payable.
    pub fn execute_buy_orders(
        &self,
        amount: u128,
        agents: &mut crate::agent::AgentCollection,
        price: u64,
    ) -> (r: Result<(), SimError>)
        requires
            market_wf(*self),
            crate::agent::collection_wf(*old(agents)),
            (self.id as int) < old(agents).market_count,
            sorted_by_price(self.buy_orders@, true),
            amount <= qty_sum(self.buy_orders@),
        ensures
            crate::agent::collection_wf(*final(agents)),
            final(agents).agents@.len() == old(agents).agents@.len(),
            final(agents).market_count == old(agents).market_count,
            final(agents).fundamentalists == old(agents).fundamentalists,
            r is Ok ==> crate::agent::total_cash_spec(final(agents).agents@)
                == crate::agent::total_cash_spec(old(agents).agents@) - price * amount,
            r is Ok ==> crate::agent::total_assets_spec(final(agents).agents@, self.id as int)
                == crate::agent::total_assets_spec(old(agents).agents@, self.id as int)
                    + amount,
            forall|m2: int| 0 <= m2 < old(agents).market_count && m2 != self.id
                ==> crate::agent::total_assets_spec(final(agents).agents@, m2)
                    == crate::agent::total_assets_spec(old(agents).agents@, m2),
            forall|i: int| 0 <= i < final(agents).agents@.len()
                ==> #[trigger] final(agents).agents@[i].state
                        == old(agents).agents@[i].state
                    && final(agents).agents@[i].friends
                        == old(agents).agents@[i].friends
                    && final(agents).agents@[i].influences
                        == old(agents).agents@[i].influences,
            r is Ok <==> fill_walk(crate::agent::holdings_seq(old(agents).agents@),
                self.buy_orders@, amount as int, 0, self.id as int,
                price as int, true).1,
            r is Ok ==> crate::agent::holdings_seq(final(agents).agents@)
                == fill_walk(crate::agent::holdings_seq(old(agents).agents@),
                    self.buy_orders@, amount as int, 0, self.id as int,
                    price as int, true).0,
    {
        let ghost start = agents.agents@;
        let ghost oq = self.buy_orders@;
        let m = self.id;
        let mut remaining: u128 = amount;
        let mut i: usize = 0;
        let ghost w0 = fill_walk(crate::agent::holdings_seq(start), oq,
            amount as int, 0, m as int, price as int, true);
        proof {
            assert(oq.skip(0) =~= oq);
        }
        while i < self.buy_orders.len() && remaining > 0
            invariant
                0 <= i <= oq.len(),
                oq == self.buy_orders@,
                market_wf(*self),
                m == self.id,
                crate::agent::collection_wf(*agents),
                (m as int) < agents.market_count,
                agents.agents@.len() == start.len(),
                agents.market_count == old(agents).market_count,
                agents.fundamentalists == old(agents).fundamentalists,
                start == old(agents).agents@,
                remaining <= amount,
                remaining <= qty_sum(oq.skip(i as int)),
                crate::agent::total_cash_spec(agents.agents@)
                    == crate::agent::total_cash_spec(start)
                        - price * (amount - remaining),
                crate::agent::total_assets_spec(agents.agents@, m as int)
                    == crate::agent::total_assets_spec(start, m as int)
                        + (amount - remaining),
                forall|m2: int| 0 <= m2 < agents.market_count && m2 != m
                    ==> crate::agent::total_assets_spec(agents.agents@, m2)
                        == crate::agent::total_assets_spec(start, m2),
                forall|k: int| 0 <= k < agents.agents@.len()
                    ==> #[trigger] agents.agents@[k].state == start[k].state
                        && agents.agents@[k].friends == start[k].friends
                        && agents.agents@[k].influences == start[k].influences,
                w0 == fill_walk(crate::agent::holdings_seq(start), oq,
                    amount as int, 0, m as int, price as int, true),
                w0 == fill_walk(crate::agent::holdings_seq(agents.agents@), oq,
                    remaining as int, i as int, m as int, price as int, true),
            decreases oq.len() - i,
        {
            let o = self.buy_orders[i];
            let ghost hcur = crate::agent::holdings_seq(agents.agents@);
            if o.agent >= agents.agents.len() {
                proof {
                    assert(fill_walk(hcur, oq, remaining as int, i as int,
                        m as int, price as int, true) == (hcur, false));
                }
                return Err(SimError::UnknownAgent { agent: o.agent, market: m });
            }
            proof {
                lemma_qty_sum_skip_step(oq, i as int);
                crate::order::lemma_qty_sum_nonneg(oq.skip(i as int + 1));
            }
            let fill: u64 = if remaining > o.asset_quantity as u128 {
                o.asset_quantity
            } else {
                remaining as u64
            };
            let ghost pre = agents.agents@;
            let ghost pre_agent = agents.agents@[o.agent as int];
            let outcome = agents.agents[o.agent].apply_buy(m, fill, price, o.agent);
            proof {
                let cur = agents.agents@[o.agent as int];
                let a = hcur[o.agent as int];
                assert(a == crate::agent::holdings_of(pre_agent));
                assert(a.assets[m as int] == pre_agent.assets@[m as int]);
                if outcome is Err {
                    assert(agents.agents@ =~= pre);
                    assert(price * fill > a.cash || a.assets[m as int] + fill > u64::MAX);
                    assert(fill_walk(hcur, oq, remaining as int, i as int,
                        m as int, price as int, true) == (hcur, false));
                } else {
                    let h2 = crate::agent::Holdings {
                        cash: a.cash - price * fill,
                        assets: a.assets.update(m as int, a.assets[m as int] + fill),
                    };
                    assert(crate::agent::holdings_of(cur) =~= h2) by {
                        assert(cur.assets@ == pre_agent.assets@.update(
                            m as int, (pre_agent.assets@[m as int] + fill) as u64));
                        assert(crate::agent::holdings_of(cur).assets
                            =~= a.assets.update(m as int, a.assets[m as int] + fill));
                    }
                    assert(crate::agent::holdings_seq(agents.agents@)
                        =~= hcur.update(o.agent as int, h2)) by {
                        assert forall|k: int| 0 <= k < agents.agents@.len()
                            implies crate::agent::holdings_seq(agents.agents@)[k]
                                == hcur.update(o.agent as int, h2)[k] by {
                            if k != o.agent {
                                assert(agents.agents@[k] == pre[k]);
                            } else {
                                assert(crate::agent::holdings_of(cur) == h2);
                            }
                        }
                    }
                    assert(fill_walk(hcur, oq, remaining as int, i as int,
                        m as int, price as int, true)
                        == fill_walk(hcur.update(o.agent as int, h2), oq,
                            remaining - fill, i + 1, m as int, price as int, true));
                }
                crate::agent::lemma_total_cash_update(pre, o.agent as int, cur);
                crate::agent::lemma_total_assets_update(pre, o.agent as int, cur, m as int);
                assert(price * (amount - (remaining - fill))
                    == price * (amount - remaining) + price * fill) by (nonlinear_arith);
                assert forall|m2: int| 0 <= m2 < agents.market_count && m2 != m
                    implies crate::agent::total_assets_spec(agents.agents@, m2)
                        == crate::agent::total_assets_spec(pre, m2) by {
                    crate::agent::lemma_total_assets_update(pre, o.agent as int, cur, m2);
                    if outcome is Ok {
                        assert(cur.assets@[m2] == pre_agent.assets@[m2]);
                    }
                }
            }
            match outcome {
                Result::Err(e) => {
                    return Err(e);
                }
                Result::Ok(()) => {}
            }
            remaining = remaining - fill as u128;
            i = i + 1;
        }
        proof {
            if remaining > 0 {
                assert(i == oq.len());
                assert(oq.skip(i as int) =~= Seq::<GenoaOrder>::empty());
            }
            assert(fill_walk(crate::agent::holdings_seq(agents.agents@), oq,
                remaining as int, i as int, m as int, price as int, true)
                == (crate::agent::holdings_seq(agents.agents@), true));
        }
        Ok(())
    }

    /// Walk the price-sorted sell orders, filling each against the executed
    /// volume budget. On success the population's cash rises by exactly
    /// `price * amount` and its holding of this asset falls by `amount`;
    /// per agent, the fills land as [`fill_walk`] says, and the walk
    /// succeeds if and only if every fill is covered.
    pub fn execute_sell_orders(
        &self,
        amount: u128,
        agents: &mut crate::agent::AgentCollection,
        price: u64,
    ) -> (r: Result<(), SimError>)
        requires
            market_wf(*self),
            crate::agent::collection_wf(*old(agents)),
            (self.id as int) < old(agents).market_count,
            sorted_by_price(self.sell_orders@, false),
            amount <= qty_sum(self.sell_orders@),
        ensures
            crate::agent::collection_wf(*final(agents)),
            final(agents).agents@.len() == old(agents).agents@.len(),
            final(agents).market_count == old(agents).market_count,
            final(agents).fundamentalists == old(agents).fundamentalists,
            r is Ok ==> crate::agent::total_cash_spec(final(agents).agents@)
                == crate::agent::total_cash_spec(old(agents).agents@) + price * amount,
            r is Ok ==> crate::agent::total_assets_spec(final(agents).agents@, self.id as int)
                == crate::agent::total_assets_spec(old(agents).agents@, self.id as int)
                    - amount,
            forall|m2: int| 0 <= m2 < old(agents).market_count && m2 != self.id
                ==> crate::agent::total_assets_spec(final(agents).agents@, m2)
                    == crate::agent::total_assets_spec(old(agents).agents@, m2),
            forall|i: int| 0 <= i < final(agents).agents@.len()
                ==> #[trigger] final(agents).agents@[i].state
                        == old(agents).agents@[i].state
                    && final(agents).agents@[i].friends
                        == old(agents).agents@[i].friends
                    && final(agents).agents@[i].influences
                        == old(agents).agents@[i].influences,
            r is Ok <==> fill_walk(crate::agent::holdings_seq(old(agents).agents@),
                self.sell_orders@, amount as int, 0, self.id as int,
                price as int, false).1,
            r is Ok ==> crate::agent::holdings_seq(final(agents).agents@)
                == fill_walk(crate::agent::holdings_seq(old(agents).agents@),
                    self.sell_orders@, amount as int, 0, self.id as int,
                    price as int, false).0,
    {
        let ghost start = agents.agents@;
        let ghost oq = self.sell_orders@;
        let m = self.id;
        let mut remaining: u128 = amount;
        let mut i: usize = 0;
        let ghost w0 = fill_walk(crate::agent::holdings_seq(start), oq,
            amount as int, 0, m as int, price as int, false);
        proof {
            assert(oq.skip(0) =~= oq);
        }
        while i < self.sell_orders.len() && remaining > 0
            invariant
                0 <= i <= oq.len(),
                oq == self.sell_orders@,
                market_wf(*self),
                m == self.id,
                crate::agent::collection_wf(*agents),
                (m as int) < agents.market_count,
                agents.agents@.len() == start.len(),
                agents.market_count == old(agents).market_count,
                agents.fundamentalists == old(agents).fundamentalists,
                start == old(agents).agents@,
                remaining <= amount,
                remaining <= qty_sum(oq.skip(i as int)),
                crate::agent::total_cash_spec(agents.agents@)
                    == crate::agent::total_cash_spec(start)
                        + price * (amount - remaining),
                crate::agent::total_assets_spec(agents.agents@, m as int)
                    == crate::agent::total_assets_spec(start, m as int)
                        - (amount - remaining),
                forall|m2: int| 0 <= m2 < agents.market_count && m2 != m
                    ==> crate::agent::total_assets_spec(agents.agents@, m2)
                        == crate::agent::total_assets_spec(start, m2),
                forall|k: int| 0 <= k < agents.agents@.len()
                    ==> #[trigger] agents.agents@[k].state == start[k].state
                        && agents.agents@[k].friends == start[k].friends
                        && agents.agents@[k].influences == start[k].influences,
                w0 == fill_walk(crate::agent::holdings_seq(start), oq,
                    amount as int, 0, m as int, price as int, false),
                w0 == fill_walk(crate::agent::holdings_seq(agents.agents@), oq,
                    remaining as int, i as int, m as int, price as int, false),
            decreases oq.len() - i,
        {
            let o = self.sell_orders[i];
            let ghost hcur = crate::agent::holdings_seq(agents.agents@);
            if o.agent >= agents.agents.len() {
                proof {
                    assert(fill_walk(hcur, oq, remaining as int, i as int,
                        m as int, price as int, false) == (hcur, false));
                }
                return Err(SimError::UnknownAgent { agent: o.agent, market: m });
            }
            proof {
                lemma_qty_sum_skip_step(oq, i as int);
                crate::order::lemma_qty_sum_nonneg(oq.skip(i as int + 1));
            }
            let fill: u64 = if remaining > o.asset_quantity as u128 {
                o.asset_quantity
            } else {
                remaining as u64
            };
            let ghost pre = agents.agents@;
            let ghost pre_agent = agents.agents@[o.agent as int];
            let outcome = agents.agents[o.agent].apply_sell(m, fill, price, o.agent);
            proof {
                let cur = agents.agents@[o.agent as int];
                let a = hcur[o.agent as int];
                assert(a == crate::agent::holdings_of(pre_agent));
                assert(a.assets[m as int] == pre_agent.assets@[m as int]);
                if outcome is Err {
                    assert(agents.agents@ =~= pre);
                    assert(fill > a.assets[m as int]
                        || a.cash + price * fill > u128::MAX);
                    assert(fill_walk(hcur, oq, remaining as int, i as int,
                        m as int, price as int, false) == (hcur, false));
                } else {
                    let h2 = crate::agent::Holdings {
                        cash: a.cash + price * fill,
                        assets: a.assets.update(m as int, a.assets[m as int] - fill),
                    };
                    assert(crate::agent::holdings_of(cur) =~= h2) by {
                        assert(cur.assets@ == pre_agent.assets@.update(
                            m as int, (pre_agent.assets@[m as int] - fill) as u64));
                        assert(crate::agent::holdings_of(cur).assets
                            =~= a.assets.update(m as int, a.assets[m as int] - fill));
                    }
                    assert(crate::agent::holdings_seq(agents.agents@)
                        =~= hcur.update(o.agent as int, h2)) by {
                        assert forall|k: int| 0 <= k < agents.agents@.len()
                            implies crate::agent::holdings_seq(agents.agents@)[k]
                                == hcur.update(o.agent as int, h2)[k] by {
                            if k != o.agent {
                                assert(agents.agents@[k] == pre[k]);
                            } else {
                                assert(crate::agent::holdings_of(cur) == h2);
                            }
                        }
                    }
                    assert(fill_walk(hcur, oq, remaining as int, i as int,
                        m as int, price as int, false)
                        == fill_walk(hcur.update(o.agent as int, h2), oq,
                            remaining - fill, i + 1, m as int, price as int, false));
                }
                crate::agent::lemma_total_cash_update(pre, o.agent as int, cur);
                crate::agent::lemma_total_assets_update(pre, o.agent as int, cur, m as int);
                assert(price * (amount - (remaining - fill))
                    == price * (amount - remaining) + price * fill) by (nonlinear_arith);
                assert forall|m2: int| 0 <= m2 < agents.market_count && m2 != m
                    implies crate::agent::total_assets_spec(agents.agents@, m2)
                        == crate::agent::total_assets_spec(pre, m2) by {
                    crate::agent::lemma_total_assets_update(pre, o.agent as int, cur, m2);
                    if outcome is Ok {
                        assert(cur.assets@[m2] == pre_agent.assets@[m2]);
                    }
                }
            }
            match outcome {
                Result::Err(e) => {
                    return Err(e);
                }
                Result::Ok(()) => {}
            }
            remaining = remaining - fill as u128;
            i = i + 1;
        }
        proof {
            if remaining > 0 {
                assert(i == oq.len());
                assert(oq.skip(i as int) =~= Seq::<GenoaOrder>::empty());
            }
            assert(fill_walk(crate::agent::holdings_seq(agents.agents@), oq,
                remaining as int, i as int, m as int, price as int, false)
                == (crate::agent::holdings_seq(agents.agents@), true));
        }
        Ok(())
    }
}

/// The truncated ratio `older * FP / newer`, floored at one so that its
/// logarithm is defined.
pub open spec fn price_ratio_fp(newer: int, older: int) -> int {
    let q = older * FP / newer;
    if q < 1 {
        1
    } else {
        q
    }
}

/// The consecutive log-returns of a price history (newest first): entry
/// `i` is the fixed-point logarithm of `price[i+1] / price[i]`.
pub open spec fn log_returns_spec(h: Seq<int>) -> Seq<int> {
    Seq::new((h.len() - 1) as nat, |i: int| crate::math::ln_fp_spec(
        price_ratio_fp(h[i], h[i + 1])))
}

/// The volatility of a price history: the Bessel-corrected sample standard
/// deviation of its consecutive log-returns.
pub open spec fn volatility_spec(h: Seq<int>) -> int {
    crate::stats::stddev_spec(log_returns_spec(h))
}

/// View of a price history as mathematical integers.
pub open spec fn prices_int(h: Seq<u64>) -> Seq<int> {
    h.map_values(|p: u64| p as int)
}

impl GenoaMarket {
    /// Recompute volatility from the retained price history. With fewer
    /// than three prices there are not enough returns for a sample
    /// deviation, and the estimate is left unchanged.
    pub fn compute_volatility(&mut self)
        requires
            market_wf(*old(self)),
        ensures
            market_wf(*final(self)),
            old(self).price_history@.len() < 3
                ==> final(self).volatility == old(self).volatility,
            old(self).price_history@.len() >= 3
                ==> final(self).volatility
                    == volatility_spec(prices_int(old(self).price_history@)),
            final(self).id == old(self).id,
            final(self).price_history == old(self).price_history,
            final(self).price_history_count == old(self).price_history_count,
            final(self).buy_orders == old(self).buy_orders,
            final(self).sell_orders == old(self).sell_orders,
    {
        let n = self.price_history.len();
        if n < 3 {
            return;
        }
        let ghost hp = prices_int(self.price_history@);
        let mut rets: Vec<i128> = Vec::new();
        let mut i: usize = 0;
        while i < n - 1
            invariant
                0 <= i <= n - 1,
                n == self.price_history@.len(),
                3 <= n,
                market_wf(*self),
                hp == prices_int(self.price_history@),
                rets@.len() == i,
                forall|j: int| 0 <= j < i
                    ==> #[trigger] rets@[j] == log_returns_spec(hp)[j],
                forall|j: int| 0 <= j < i
                    ==> -50_000_000 <= #[trigger] rets@[j] <= 50_000_000,
            decreases n - i,
        {
            let newer = self.price_history[i];
            let older = self.price_history[i + 1];
            let raw: u64 = (older * FP) / newer;
            let ratio: u64 = if raw < 1 {
                1
            } else {
                raw
            };
            proof {
                assert((older as int) * (FP as int)
                    <= (MAX_PRICE as int) * (FP as int)) by (nonlinear_arith)
                    requires 1 <= older <= MAX_PRICE;
                vstd::arithmetic::div_mod::lemma_div_is_ordered(
                    (older as int) * (FP as int),
                    (MAX_PRICE as int) * (FP as int),
                    newer as int);
                vstd::arithmetic::div_mod::lemma_div_is_ordered_by_denominator(
                    (MAX_PRICE as int) * (FP as int), 1, newer as int);
            }
            let r = crate::math::ln_fp(ratio);
            rets.push(r as i128);
            i = i + 1;
        }
        proof {
            assert(rets@.len() == log_returns_spec(hp).len());
        }
        let vol = crate::stats::stddev_fp(&rets, 50_000_000);
        proof {
            assert(crate::stats::view_int(rets@) =~= log_returns_spec(hp));
        }
        self.volatility = vol;
    }
}


/// Whether any buy order's limit reaches any sell order's limit: the
/// books admit a cross exactly when the best bid is at or above the best
/// ask.
pub open spec fn books_cross(buys: Seq<GenoaOrder>, sells: Seq<GenoaOrder>) -> bool {
    exists|i: int, j: int| 0 <= i < buys.len() && 0 <= j < sells.len()
        && #[trigger] buys[i].limit_price >= #[trigger] sells[j].limit_price
}

/// Sorting both books preserves whether they cross: the sorted heads are
/// the extreme limits of the unsorted books.
proof fn lemma_cross_sorted(
    ob: Seq<GenoaOrder>,
    os: Seq<GenoaOrder>,
    sb: Seq<GenoaOrder>,
    ss: Seq<GenoaOrder>,
)
    requires
        sb.to_multiset() == ob.to_multiset(),
        ss.to_multiset() == os.to_multiset(),
        sorted_by_price(sb, true),
        sorted_by_price(ss, false),
        sb.len() == ob.len(),
        ss.len() == os.len(),
    ensures
        books_cross(ob, os) <==> !no_cross_sorted(sb, ss),
        !no_cross_sorted(sb, ss) ==> ob.len() > 0 && os.len() > 0,
        sb.len() > 0 ==> ob.contains(sb[0]),
        ss.len() > 0 ==> os.contains(ss[0]),
        sb.len() > 0 ==> forall|i: int| 0 <= i < ob.len()
            ==> #[trigger] ob[i].limit_price <= sb[0].limit_price,
        ss.len() > 0 ==> forall|j: int| 0 <= j < os.len()
            ==> #[trigger] os[j].limit_price >= ss[0].limit_price,
{
    broadcast use vstd::seq_lib::group_to_multiset_ensures;
    broadcast use vstd::multiset::group_multiset_axioms;

    if sb.len() > 0 {
        assert(sb.to_multiset().count(sb[0]) > 0) by {
            assert(sb.contains(sb[0]));
        }
        assert(ob.contains(sb[0]));
        assert forall|i: int| 0 <= i < ob.len()
            implies #[trigger] ob[i].limit_price <= sb[0].limit_price by {
            assert(ob.to_multiset().count(ob[i]) > 0) by {
                assert(ob.contains(ob[i]));
            }
            assert(sb.contains(ob[i]));
            let k = choose|k: int| 0 <= k < sb.len() && sb[k] == ob[i];
            if k > 0 {
                assert(key_le(true, sb[0].limit_price, sb[k].limit_price));
            }
        }
    }
    if ss.len() > 0 {
        assert(ss.to_multiset().count(ss[0]) > 0) by {
            assert(ss.contains(ss[0]));
        }
        assert(os.contains(ss[0]));
        assert forall|j: int| 0 <= j < os.len()
            implies #[trigger] os[j].limit_price >= ss[0].limit_price by {
            assert(os.to_multiset().count(os[j]) > 0) by {
                assert(os.contains(os[j]));
            }
            assert(ss.contains(os[j]));
            let k = choose|k: int| 0 <= k < ss.len() && ss[k] == os[j];
            if k > 0 {
                assert(key_le(false, ss[0].limit_price, ss[k].limit_price));
            }
        }
    }
    if !no_cross_sorted(sb, ss) {
        let bi = choose|bi: int| 0 <= bi < ob.len() && ob[bi] == sb[0];
        let sj = choose|sj: int| 0 <= sj < os.len() && os[sj] == ss[0];
        assert(ob[bi].limit_price >= os[sj].limit_price);
    }
    if books_cross(ob, os) {
        let (i, j): (int, int) = choose|i: int, j: int| 0 <= i < ob.len()
            && 0 <= j < os.len()
            && #[trigger] ob[i].limit_price >= #[trigger] os[j].limit_price;
        assert(ob[i].limit_price <= sb[0].limit_price);
        assert(os[j].limit_price >= ss[0].limit_price);
    }
}

/// The spread of the order-price noise: `3.5 * volatility`, saturated at
/// the machine range.
pub open spec fn noise_sd_spec(vol: int) -> int {
    if 7 * vol / 2 > u64::MAX {
        u64::MAX as int
    } else {
        7 * vol / 2
    }
}

/// A noise factor within six spreads of its centre 1.01.
pub open spec fn noise_within(m: GenoaMarket, n: int) -> bool {
    1_010_000 - 6 * noise_sd_spec(m.volatility as int) <= n
        <= 1_010_000 + 6 * noise_sd_spec(m.volatility as int)
}

/// Clamp a computed limit price into the representable range.
pub open spec fn clamp_price_spec(x: int) -> int {
    if x < 1 {
        1
    } else if x > MAX_PRICE {
        MAX_PRICE as int
    } else {
        x
    }
}

/// The limit price a noise factor `n` yields: the current price times the
/// factor for buys, divided by it (floored at one) for sells, clamped
/// into range.
pub open spec fn noisy_price(m: GenoaMarket, n: int, buy: bool) -> int {
    clamp_price_spec(if buy {
        m.price_history@[0] * n / (FP as int)
    } else {
        m.price_history@[0] * (FP as int) / (if n < 1 { 1int } else { n })
    })
}

/// A limit price explained by some in-range noise factor: what every
/// submitted order's limit satisfies, whatever the draws.
pub open spec fn noisy_limit_from(m: GenoaMarket, limit: int, buy: bool) -> bool {
    exists|n: int| #[trigger] noise_within(m, n) && limit == noisy_price(m, n, buy)
}

impl GenoaMarket {
    /// Submit a buy order: a no-op for zero cash; otherwise the limit
    /// price is the current price skewed by a bell-shaped noise factor
    /// centred a little above one with spread proportional to volatility,
    /// clamped into the valid price range, and the quantity is the cash
    /// amount divided by that limit.
    pub fn buy_order(
        &mut self,
        agent: AgentId,
        cash_quantity: u128,
        rng: &mut rand::rngs::StdRng,
    )
        requires
            market_wf(*old(self)),
        ensures
            market_wf(*final(self)),
            final(self).id == old(self).id,
            final(self).price_history == old(self).price_history,
            final(self).price_history_count == old(self).price_history_count,
            final(self).volatility == old(self).volatility,
            final(self).sell_orders == old(self).sell_orders,
            cash_quantity == 0 ==> final(self).buy_orders == old(self).buy_orders,
            cash_quantity > 0 ==> {
                let o = final(self).buy_orders@.last();
                &&& final(self).buy_orders@ == old(self).buy_orders@.push(o)
                &&& o.agent == agent
                &&& order_wf(o)
                &&& noisy_limit_from(*old(self), o.limit_price as int, true)
                &&& o.asset_quantity == if cash_quantity as int / o.limit_price as int
                        > u64::MAX {
                    u64::MAX as int
                } else {
                    cash_quantity as int / o.limit_price as int
                }
            },
    {
        if cash_quantity == 0 {
            return;
        }
        let limit_price = self.noisy_limit(rng, true);
        let qty128: u128 = cash_quantity / (limit_price as u128);
        let qty: u64 = if qty128 > u64::MAX as u128 {
            u64::MAX
        } else {
            qty128 as u64
        };
        self.buy_orders.push(GenoaOrder {
            agent,
            asset_quantity: qty,
            limit_price,
        });
    }

    /// Submit a sell order: a no-op for zero quantity; otherwise the limit
    /// price is the current price divided by the same noise factor
    /// (sellers require a higher price to accept), clamped into the valid
    /// price range.
    pub fn sell_order(
        &mut self,
        agent: AgentId,
        asset_quantity: u64,
        rng: &mut rand::rngs::StdRng,
    )
        requires
            market_wf(*old(self)),
        ensures
            market_wf(*final(self)),
            final(self).id == old(self).id,
            final(self).price_history == old(self).price_history,
            final(self).price_history_count == old(self).price_history_count,
            final(self).volatility == old(self).volatility,
            final(self).buy_orders == old(self).buy_orders,
            asset_quantity == 0 ==> final(self).sell_orders == old(self).sell_orders,
            asset_quantity > 0 ==> {
                let o = final(self).sell_orders@.last();
                &&& final(self).sell_orders@ == old(self).sell_orders@.push(o)
                &&& o.agent == agent
                &&& order_wf(o)
                &&& noisy_limit_from(*old(self), o.limit_price as int, false)
                &&& o.asset_quantity == asset_quantity
            },
    {
        if asset_quantity == 0 {
            return;
        }
        let limit_price = self.noisy_limit(rng, false);
        self.sell_orders.push(GenoaOrder {
            agent,
            asset_quantity,
            limit_price,
        });
    }

    /// The noisy limit price of a new order: the current price times (for
    /// buys) or divided by (for sells) a noise factor centred at 1.01 with
    /// spread `3.5 * volatility`, clamped into `[1, MAX_PRICE]`.
    fn noisy_limit(&self, rng: &mut rand::rngs::StdRng, buy: bool) -> (r: u64)
        requires
            market_wf(*self),
        ensures
            1 <= r <= MAX_PRICE,
            noisy_limit_from(*self, r as int, buy),
    {
        let vol = self.volatility;
        let sd128: u128 = 7 * (vol as u128) / 2;
        let sd: u64 = if sd128 > u64::MAX as u128 {
            u64::MAX
        } else {
            sd128 as u64
        };
        let noise: i128 = crate::rng::normal_fp(rng, 1_010_000, sd);
        let price = self.price_history[0];
        let limit_i: i128 = if buy {
            proof {
                assert(-(i128::MAX as int) <= (price as int) * (noise as int)
                    <= i128::MAX as int) by (nonlinear_arith)
                    requires
                        1 <= price <= MAX_PRICE,
                        -0x2_0000_0000_0000_0000_0000i128 <= noise
                            <= 0x2_0000_0000_0000_0000_0000i128;
            }
            crate::math::div_floor((price as i128) * noise, FP as i128)
        } else {
            let noise_c: i128 = if noise < 1 {
                1
            } else {
                noise
            };
            crate::math::div_floor((price as i128) * (FP as i128), noise_c)
        };
        let r: u64 = if limit_i < 1 {
            1
        } else if limit_i > MAX_PRICE as i128 {
            MAX_PRICE
        } else {
            limit_i as u64
        };
        proof {
            assert(sd == noise_sd_spec(self.volatility as int));
            assert(noise_within(*self, noise as int));
            assert(r as int == noisy_price(*self, noise as int, buy));
        }
        r
    }

    /// One clearing step: sort the books, find the crossing price and
    /// executed volume, record the price (only when a cross occurred),
    /// apply the fills to the population, recompute volatility, and clear
    /// both books. Trading conserves population cash and assets exactly:
    /// buyers pay what sellers receive.
    pub fn step(&mut self, agents: &mut crate::agent::AgentCollection)
        -> (r: Result<(), SimError>)
        requires
            market_wf(*old(self)),
            crate::agent::collection_wf(*old(agents)),
            (old(self).id as int) < old(agents).market_count,
        ensures
            market_wf(*final(self)),
            crate::agent::collection_wf(*final(agents)),
            final(self).id == old(self).id,
            final(self).price_history_count == old(self).price_history_count,
            final(self).buy_orders@.len() == 0,
            final(self).sell_orders@.len() == 0,
            final(agents).agents@.len() == old(agents).agents@.len(),
            final(agents).market_count == old(agents).market_count,
            final(agents).fundamentalists == old(agents).fundamentalists,
            forall|i: int| 0 <= i < final(agents).agents@.len()
                ==> #[trigger] final(agents).agents@[i].state
                        == old(agents).agents@[i].state
                    && final(agents).agents@[i].friends
                        == old(agents).agents@[i].friends
                    && final(agents).agents@[i].influences
                        == old(agents).agents@[i].influences,
            r is Ok ==> crate::agent::total_cash_spec(final(agents).agents@)
                == crate::agent::total_cash_spec(old(agents).agents@),
            r is Ok ==> forall|m2: int| 0 <= m2 < old(agents).market_count
                ==> crate::agent::total_assets_spec(final(agents).agents@, m2)
                    == crate::agent::total_assets_spec(old(agents).agents@, m2),
            !books_cross(old(self).buy_orders@, old(self).sell_orders@)
                ==> final(self).price_history == old(self).price_history
                    && r is Ok
                    && *final(agents) == *old(agents),
            books_cross(old(self).buy_orders@, old(self).sell_orders@) ==> {
                let sb = crate::order::sort_spec(old(self).buy_orders@, true);
                let ss = crate::order::sort_spec(old(self).sell_orders@, false);
                let p = final(self).price_history@[0];
                &&& p == clearing_price_spec(sb, ss)
                &&& 1 <= p <= MAX_PRICE
                &&& exists|j: int| 0 <= j < old(self).sell_orders@.len()
                    && #[trigger] old(self).sell_orders@[j].limit_price <= p
                &&& exists|i: int| 0 <= i < old(self).buy_orders@.len()
                    && p <= #[trigger] old(self).buy_orders@[i].limit_price
                &&& final(self).price_history@.len()
                    == if old(self).price_history@.len() < old(self).price_history_count {
                        old(self).price_history@.len() + 1int
                    } else {
                        old(self).price_history_count as int
                    }
                &&& forall|j: int| 1 <= j < final(self).price_history@.len()
                    ==> final(self).price_history@[j]
                        == old(self).price_history@[j - 1]
            },
            ({
                let sb = crate::order::sort_spec(old(self).buy_orders@, true);
                let ss = crate::order::sort_spec(old(self).sell_orders@, false);
                let p = clearing_price_spec(sb, ss);
                let v = executed_volume_spec(sb, ss);
                let bw = fill_walk(crate::agent::holdings_seq(old(agents).agents@),
                    sb, v, 0, old(self).id as int, p, true);
                let sw = fill_walk(bw.0, ss, v, 0, old(self).id as int, p, false);
                &&& (r is Ok <==> (no_cross_sorted(sb, ss) || (bw.1 && sw.1)))
                &&& (r is Ok && !no_cross_sorted(sb, ss)
                    ==> crate::agent::holdings_seq(final(agents).agents@) == sw.0)
            }),
            final(self).volatility == if final(self).price_history@.len() >= 3 {
                volatility_spec(prices_int(final(self).price_history@))
            } else {
                old(self).volatility as int
            },
    {
        let ghost old_buys = self.buy_orders@;
        let ghost old_sells = self.sell_orders@;
        let sb = sort_book(&self.buy_orders, true);
        let ss = sort_book(&self.sell_orders, false);
        self.buy_orders = sb;
        self.sell_orders = ss;
        proof {
            lemma_cross_sorted(old_buys, old_sells,
                self.buy_orders@, self.sell_orders@);
        }
        proof {
            assert(self.buy_orders@ == crate::order::sort_spec(old_buys, true));
            assert(self.sell_orders@ == crate::order::sort_spec(old_sells, false));
        }
        let cross = self.compute_price();
        let outcome: Result<(), SimError> = match cross {
            Option::None => {
                Ok(())
            }
            Option::Some((price, volume)) => {
                let ghost sbq = self.buy_orders@;
                let ghost ssq = self.sell_orders@;
                let ghost h0 = crate::agent::holdings_seq(agents.agents@);
                self.record_price(price);
                proof {
                    assert(self.buy_orders@ == sbq);
                    assert(self.sell_orders@ == ssq);
                }
                let rb = self.execute_buy_orders(volume, agents, price);
                proof {
                    assert(volume == executed_volume_spec(sbq, ssq));
                    assert(price == clearing_price_spec(sbq, ssq));
                }
                match rb {
                    Result::Err(e) => Err(e),
                    Result::Ok(()) => {
                        proof {
                            assert(crate::agent::holdings_seq(agents.agents@)
                                == fill_walk(h0, sbq, volume as int, 0,
                                    self.id as int, price as int, true).0);
                        }
                        let rs = self.execute_sell_orders(volume, agents, price);
                        match rs {
                            Result::Err(e) => Err(e),
                            Result::Ok(()) => Ok(()),
                        }
                    }
                }
            }
        };
        self.compute_volatility();
        self.buy_orders = Vec::new();
        self.sell_orders = Vec::new();
        outcome
    }
}


} // verus!
