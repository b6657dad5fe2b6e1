//! The belief-diffusion pass: retrospective friend evaluation and belief
//! update by rounded consensus over sampled influencers.

use vstd::prelude::*;
use crate::{FP, MAX_MARKETS};
use crate::agent::{Agent, AgentCollection, Influence, agent_wf, belief_vec_wf, collection_wf};
use crate::order::AgentId;
use crate::market::{GenoaMarket, market_wf};
use crate::rng::{rng_below, rng_chance};
use crate::stats::{pearson_fp, bounded_by, STAT_BOUND};

verus! {

/// The belief vector an influencer index stands for: an agent's state for
/// indexes below the agent count, a fundamentalist vector beyond it.
pub open spec fn influence_view(c: AgentCollection, idx: int) -> Seq<u64> {
    if idx < c.agents@.len() {
        c.agents@[idx].state@
    } else {
        c.fundamentalists@[idx - c.agents@.len()]@
    }
}

/// A snapshot holds one well-formed belief vector per agent and
/// fundamentalist.
pub open spec fn snapshot_wf(snap: Seq<Vec<u64>>, c: AgentCollection) -> bool {
    &&& snap.len() == c.agents@.len() + c.fundamentalists@.len()
    &&& forall|k: int| 0 <= k < snap.len()
        ==> belief_vec_wf(#[trigger] snap[k]@, c.market_count as int)
}

/// Diffusion touches only an agent's beliefs, friends and pending
/// influences; everything financial and every sampled parameter stays.
pub open spec fn diffusion_frame(pre: AgentCollection, post: AgentCollection) -> bool {
    &&& post.agents@.len() == pre.agents@.len()
    &&& post.fundamentalists == pre.fundamentalists
    &&& post.market_count == pre.market_count
    &&& forall|i: int| 0 <= i < post.agents@.len()
        ==> #[trigger] post.agents@[i].cash == pre.agents@[i].cash
            && post.agents@[i].assets == pre.agents@[i].assets
            && post.agents@[i].order_probability == pre.agents@[i].order_probability
            && post.agents@[i].influence_probability
                == pre.agents@[i].influence_probability
            && post.agents@[i].influencers_count == pre.agents@[i].influencers_count
            && post.agents@[i].reflection_delay == pre.agents@[i].reflection_delay
            && post.agents@[i].friend_threshold == pre.agents@[i].friend_threshold
            && post.agents@[i].max_friends == pre.agents@[i].max_friends
            && post.agents@[i].friend_influence_probability
                == pre.agents@[i].friend_influence_probability
}

/// The frame composes.
proof fn lemma_frame_trans(a: AgentCollection, b: AgentCollection, c: AgentCollection)
    requires
        diffusion_frame(a, b),
        diffusion_frame(b, c),
    ensures
        diffusion_frame(a, c),
{
}

/// Copy a belief vector.
fn copy_u64_vec(v: &Vec<u64>) -> (r: Vec<u64>)
    ensures
        r@ =~= v@,
{
    let mut r: Vec<u64> = Vec::new();
    let mut i: usize = 0;
    while i < v.len()
        invariant
            0 <= i <= v@.len(),
            r@ =~= v@.take(i as int),
        decreases v@.len() - i,
    {
        let x = v[i];
        r.push(x);
        i = i + 1;
        proof {
            assert(r@ =~= v@.take(i as int));
        }
    }
    proof {
        assert(v@.take(v@.len() as int) =~= v@);
    }
    r
}

/// Draw `count` distinct influencer indexes below `total`, none of them
/// `self_idx`, by a partial shuffle of the candidate list.
pub fn select_influencers(
    rng: &mut rand::rngs::StdRng,
    total: usize,
    self_idx: usize,
    count: usize,
) -> (r: Vec<usize>)
    requires
        self_idx < total,
    ensures
        r@.len() == if count <= total - 1 { count as int } else { total - 1 },
        forall|k: int| 0 <= k < r@.len()
            ==> #[trigger] r@[k] < total && r@[k] != self_idx,
        forall|k1: int, k2: int| 0 <= k1 < k2 < r@.len()
            ==> #[trigger] r@[k1] != #[trigger] r@[k2],
{
    let mut cand: Vec<usize> = Vec::new();
    let mut i: usize = 0;
    while i < total
        invariant
            0 <= i <= total,
            self_idx < total,
            cand@.len() == if i <= self_idx { i as int } else { i - 1 },
            forall|k: int| 0 <= k < cand@.len()
                ==> #[trigger] cand@[k] < i && cand@[k] != self_idx,
            forall|k1: int, k2: int| 0 <= k1 < k2 < cand@.len()
                ==> #[trigger] cand@[k1] < #[trigger] cand@[k2],
        decreases total - i,
    {
        if i != self_idx {
            cand.push(i);
        }
        i = i + 1;
    }
    let take_n: usize = if count <= cand.len() {
        count
    } else {
        cand.len()
    };
    let mut s: usize = 0;
    while s < take_n
        invariant
            0 <= s <= take_n <= cand@.len(),
            cand@.len() == total - 1,
            self_idx < total,
            forall|k: int| 0 <= k < cand@.len()
                ==> #[trigger] cand@[k] < total && cand@[k] != self_idx,
            forall|k1: int, k2: int| 0 <= k1 < k2 < cand@.len()
                ==> #[trigger] cand@[k1] != #[trigger] cand@[k2],
        decreases take_n - s,
    {
        let j: usize = s + rng_below(rng, (cand.len() - s) as u64) as usize;
        let ghost pre = cand@;
        let a = cand[s];
        let b = cand[j];
        cand.set(s, b);
        cand.set(j, a);
        proof {
            assert forall|k1: int, k2: int| 0 <= k1 < k2 < cand@.len()
                implies #[trigger] cand@[k1] != #[trigger] cand@[k2] by {
                let m1: int = if k1 == s {
                    j as int
                } else if k1 == j {
                    s as int
                } else {
                    k1
                };
                let m2: int = if k2 == s {
                    j as int
                } else if k2 == j {
                    s as int
                } else {
                    k2
                };
                assert(cand@[k1] == pre[m1]);
                assert(cand@[k2] == pre[m2]);
            }
        }
        s = s + 1;
    }
    cand.truncate(take_n);
    cand
}

/// What one market moved over `delay` steps: its current price minus the
/// price that many steps ago (clamped to the oldest retained entry).
pub open spec fn movement_spec(m: GenoaMarket, delay: int) -> int {
    m.price_history@[0] - m.price_history@[
        if delay < m.price_history@.len() { delay } else { m.price_history@.len() - 1 }
    ]
}

/// The per-market price movement over the given number of steps:
/// `price_now - price_that_many_steps_ago`.
pub fn market_movements(markets: &Vec<GenoaMarket>, delay: usize) -> (r: Vec<i128>)
    requires
        forall|i: int| 0 <= i < markets@.len() ==> market_wf(#[trigger] markets@[i]),
        markets@.len() <= MAX_MARKETS,
    ensures
        r@.len() == markets@.len(),
        forall|i: int| 0 <= i < r@.len()
            ==> #[trigger] r@[i] == movement_spec(markets@[i], delay as int),
        bounded_by(r@, STAT_BOUND as int),
{
    let mut movements: Vec<i128> = Vec::new();
    let mut m: usize = 0;
    while m < markets.len()
        invariant
            0 <= m <= markets@.len(),
            forall|i: int| 0 <= i < markets@.len()
                ==> market_wf(#[trigger] markets@[i]),
            movements@.len() == m,
            forall|i: int| 0 <= i < m
                ==> #[trigger] movements@[i] == movement_spec(markets@[i], delay as int),
            bounded_by(movements@, STAT_BOUND as int),
        decreases markets@.len() - m,
    {
        let now = markets[m].price();
        let ago = markets[m].price_ago(delay);
        movements.push((now as i128) - (ago as i128));
        m = m + 1;
    }
    movements
}

/// The belief total of the selected influencers' snapshots at one market.
pub open spec fn consensus_sum(snap: Seq<Vec<u64>>, chosen: Seq<usize>, m: int) -> int
    decreases chosen.len(),
{
    if chosen.len() == 0 {
        0
    } else {
        consensus_sum(snap, chosen.drop_last(), m) + snap[chosen.last() as int]@[m]
    }
}

/// The rounded (half-up) all-or-nothing consensus of the selected
/// snapshots at one market: `FP` when their mean is at least one half,
/// else zero.
pub open spec fn consensus_belief(snap: Seq<Vec<u64>>, chosen: Seq<usize>, m: int) -> int {
    if 2 * consensus_sum(snap, chosen, m) >= chosen.len() * FP {
        FP as int
    } else {
        0
    }
}

/// Extending the selection by one influencer adds its belief.
proof fn lemma_consensus_sum_take_step(snap: Seq<Vec<u64>>, chosen: Seq<usize>, k: int, m: int)
    requires
        0 <= k < chosen.len(),
    ensures
        consensus_sum(snap, chosen.take(k + 1), m)
            == consensus_sum(snap, chosen.take(k), m) + snap[chosen[k] as int]@[m],
{
    assert(chosen.take(k + 1).drop_last() =~= chosen.take(k));
}

/// How many leading pending influences are due: recorded at or before the
/// reflection step. The queue is consumed in order, stopping at the first
/// entry that is not yet due.
pub open spec fn due_count(q: Seq<Influence>, refl_step: int) -> int
    decreases q.len(),
{
    if q.len() == 0 || q[0].step > refl_step {
        0
    } else {
        1 + due_count(q.drop_first(), refl_step)
    }
}

/// A belief snapshot as mathematical integers.
pub open spec fn beliefs_int(s: Seq<u64>) -> Seq<int> {
    s.map_values(|x: u64| x as int)
}

/// Whether a popped influence promotes its source: the Pearson correlation
/// of its belief snapshot with the price movements is defined (neither
/// side has zero variance) and exceeds the threshold.
pub open spec fn influence_admitted(mov: Seq<int>, inf: Influence, threshold: int) -> bool {
    &&& !crate::stats::zero_variance(mov)
    &&& !crate::stats::zero_variance(beliefs_int(inf.state@))
    &&& crate::stats::pearson_spec(mov, beliefs_int(inf.state@)) > threshold
}

/// A single sample deviates nowhere: its variance is zero, so no
/// correlation against it is ever defined.
proof fn lemma_single_sample_zero_variance(mov: Seq<int>)
    requires
        mov.len() == 1,
    ensures
        crate::stats::zero_variance(mov),
{
    let d = crate::stats::scaled_devs(mov);
    assert(crate::stats::sum_int(Seq::<int>::empty()) == 0);
    assert(crate::stats::dot_int(Seq::<int>::empty(), Seq::<int>::empty()) == 0);
    assert(crate::stats::sum_int(mov) == mov[0]) by {
        assert(mov.drop_last() =~= Seq::<int>::empty());
        assert(crate::stats::sum_int(Seq::<int>::empty()) == 0);
        assert(mov.last() == mov[0]);
    }
    assert(d[0] == 0);
    assert(d.len() == 1);
    assert(crate::stats::dot_int(d, d) == 0) by {
        assert(d.drop_last() =~= Seq::<int>::empty());
        assert(crate::stats::dot_int(Seq::<int>::empty(), Seq::<int>::empty()) == 0);
        assert(d.last() == 0);
    }
}

/// Append one friend, evicting the oldest beyond the capacity.
pub open spec fn push_evict(friends: Seq<AgentId>, max: int, f: AgentId) -> Seq<AgentId> {
    if friends.len() + 1 > max {
        friends.push(f).drop_first()
    } else {
        friends.push(f)
    }
}

/// The friend queue after evaluating the first `k` pending influences in
/// order: each admitted influence appends its source, with FIFO eviction.
pub open spec fn promoted_friends(
    friends: Seq<AgentId>,
    max: int,
    q: Seq<Influence>,
    k: int,
    mov: Seq<int>,
    threshold: int,
) -> Seq<AgentId>
    decreases k
        when k >= 0
{
    if k <= 0 {
        friends
    } else {
        let f1 = promoted_friends(friends, max, q, k - 1, mov, threshold);
        if influence_admitted(mov, q[k - 1], threshold) {
            push_evict(f1, max, q[k - 1].influencer)
        } else {
            f1
        }
    }
}

impl AgentCollection {
    /// Retrospective friend evaluation for one agent: pop every pending
    /// influence recorded at or before `refl_step`, correlate its belief
    /// snapshot with the market movement, and promote its source to a
    /// friend when the correlation exceeds the agent's threshold.
    /// Degenerate correlations (zero variance on either side) cause no
    /// update.
    pub fn reflect_on_influences(
        &mut self,
        idx: usize,
        movements: &Vec<i128>,
        refl_step: usize,
    )
        requires
            collection_wf(*old(self)),
            idx < old(self).agents@.len(),
            1 <= old(self).market_count <= MAX_MARKETS,
            movements@.len() == old(self).market_count,
            bounded_by(movements@, STAT_BOUND as int),
        ensures
            collection_wf(*final(self)),
            diffusion_frame(*old(self), *final(self)),
            forall|i: int| 0 <= i < final(self).agents@.len() && i != idx
                ==> #[trigger] final(self).agents@[i] == old(self).agents@[i],
            final(self).agents@[idx as int].state
                == old(self).agents@[idx as int].state,
            final(self).agents@[idx as int].influences@
                == old(self).agents@[idx as int].influences@.skip(due_count(
                    old(self).agents@[idx as int].influences@, refl_step as int)),
            final(self).agents@[idx as int].friends@
                == promoted_friends(
                    old(self).agents@[idx as int].friends@,
                    old(self).agents@[idx as int].max_friends as int,
                    old(self).agents@[idx as int].influences@,
                    due_count(old(self).agents@[idx as int].influences@,
                        refl_step as int),
                    crate::stats::view_int(movements@),
                    old(self).agents@[idx as int].friend_threshold as int,
                ),
    {
        let ghost start = *self;
        let ghost oq = self.agents@[idx as int].influences@;
        let ghost f0 = self.agents@[idx as int].friends@;
        let ghost maxf = self.agents@[idx as int].max_friends as int;
        let ghost thr = self.agents@[idx as int].friend_threshold as int;
        let ghost mov = crate::stats::view_int(movements@);
        let ghost k: int = 0;
        let mc = self.market_count;
        proof {
            assert(oq.skip(0) =~= oq);
        }
        loop
            invariant
                idx < self.agents@.len(),
                mc == self.market_count,
                1 <= mc <= MAX_MARKETS,
                collection_wf(*self),
                diffusion_frame(start, *self),
                movements@.len() == mc,
                bounded_by(movements@, STAT_BOUND as int),
                mov == crate::stats::view_int(movements@),
                forall|i: int| 0 <= i < self.agents@.len() && i != idx
                    ==> #[trigger] self.agents@[i] == start.agents@[i],
                self.agents@[idx as int].state == start.agents@[idx as int].state,
                oq == start.agents@[idx as int].influences@,
                f0 == start.agents@[idx as int].friends@,
                maxf == start.agents@[idx as int].max_friends,
                thr == start.agents@[idx as int].friend_threshold,
                0 <= k <= oq.len(),
                self.agents@[idx as int].influences@ == oq.skip(k),
                due_count(oq, refl_step as int)
                    == k + due_count(oq.skip(k), refl_step as int),
                self.agents@[idx as int].friends@
                    == promoted_friends(f0, maxf, oq, k, mov, thr),
            ensures
                k == due_count(oq, refl_step as int),
            decreases self.agents@[idx as int].influences@.len(),
        {
            let due = if self.agents[idx].influences.len() == 0 {
                false
            } else {
                self.agents[idx].influences[0].step <= refl_step
            };
            if !due {
                proof {
                    assert(due_count(oq.skip(k), refl_step as int) == 0);
                }
                break;
            }
            let ghost pre_agents = self.agents@;
            let popped = self.agents[idx].influences.pop_front();
            proof {
                lemma_one_agent_update(pre_agents, self.agents@, idx as int, mc as int);
                assert(oq.skip(k).drop_first() =~= oq.skip(k + 1));
                assert(oq.skip(k)[0] == oq[k]);
                assert(due_count(oq.skip(k), refl_step as int)
                    == 1 + due_count(oq.skip(k + 1), refl_step as int));
            }
            match popped {
                Option::None => {
                    proof {
                        assert(false);
                    }
                    break;
                }
                Option::Some(inf) => {
                    proof {
                        assert(inf == oq[k]);
                        assert(agent_wf(pre_agents[idx as int], mc as int));
                        assert(belief_vec_wf(inf.state@, mc as int)) by {
                            assert(inf == pre_agents[idx as int].influences@[0]);
                        }
                    }
                    let mut beliefs: Vec<i128> = Vec::new();
                    let mut m2: usize = 0;
                    let ghost pre_b = *self;
                    while m2 < mc
                        invariant
                            0 <= m2 <= mc,
                            *self == pre_b,
                            belief_vec_wf(inf.state@, mc as int),
                            beliefs@.len() == m2,
                            forall|j: int| 0 <= j < m2
                                ==> #[trigger] beliefs@[j] == inf.state@[j] as i128,
                            bounded_by(beliefs@, FP as int),
                        decreases mc - m2,
                    {
                        beliefs.push(inf.state[m2] as i128);
                        m2 = m2 + 1;
                    }
                    proof {
                        assert(crate::stats::view_int(beliefs@)
                            =~= beliefs_int(inf.state@));
                    }
                    // a single market has no cross-market deviation: its
                    // correlation is degenerate, so the influence is
                    // consumed with no friend update
                    let corr = if mc >= 2 {
                        pearson_fp(movements, &beliefs)
                    } else {
                        proof {
                            lemma_single_sample_zero_variance(
                                crate::stats::view_int(movements@));
                        }
                        None
                    };
                    let threshold = self.agents[idx].friend_threshold;
                    let ghost fpre = self.agents@[idx as int].friends@;
                    match corr {
                        Option::None => {
                            proof {
                                assert(!influence_admitted(mov, inf, thr));
                            }
                        }
                        Option::Some(c) => {
                            if c > threshold as i128 {
                                let ghost pre2 = self.agents@;
                                let src = inf.influencer;
                                self.agents[idx].add_friend(src);
                                proof {
                                    lemma_one_agent_update(pre2, self.agents@,
                                        idx as int, mc as int);
                                    assert(influence_admitted(mov, inf, thr));
                                    assert(self.agents@[idx as int].friends@
                                        == push_evict(fpre, maxf, src));
                                }
                            } else {
                                proof {
                                    assert(!influence_admitted(mov, inf, thr));
                                }
                            }
                        }
                    }
                    proof {
                        assert(self.agents@[idx as int].friends@
                            == promoted_friends(f0, maxf, oq, k + 1, mov, thr));
                        k = k + 1;
                    }
                }
            }
        }
    }

    /// Apply one influence event to one agent: set each market's belief to
    /// the rounded (half-up) mean of the selected influencers' beliefs,
    /// and record one pending influence per influencer. Every written
    /// belief is all-or-nothing, zero or `FP`, so beliefs stay in
    /// `[0, FP]`.
    pub fn apply_influence(
        &mut self,
        idx: usize,
        snapshot: &Vec<Vec<u64>>,
        influencers: &Vec<usize>,
        step: usize,
    )
        requires
            collection_wf(*old(self)),
            idx < old(self).agents@.len(),
            old(self).market_count <= MAX_MARKETS,
            snapshot_wf(snapshot@, *old(self)),
            1 <= influencers@.len(),
            forall|k: int| 0 <= k < influencers@.len()
                ==> #[trigger] influencers@[k] < snapshot@.len(),
        ensures
            collection_wf(*final(self)),
            diffusion_frame(*old(self), *final(self)),
            forall|i: int| 0 <= i < final(self).agents@.len() && i != idx
                ==> #[trigger] final(self).agents@[i] == old(self).agents@[i],
            final(self).agents@[idx as int].friends
                == old(self).agents@[idx as int].friends,
            forall|m: int| 0 <= m < final(self).market_count
                ==> #[trigger] final(self).agents@[idx as int].state@[m]
                    == consensus_belief(snapshot@, influencers@, m),
            forall|m: int| 0 <= m < final(self).market_count
                ==> #[trigger] final(self).agents@[idx as int].state@[m] == 0
                    || final(self).agents@[idx as int].state@[m] == FP,
            final(self).agents@[idx as int].influences@.len()
                == old(self).agents@[idx as int].influences@.len()
                    + influencers@.len(),
            forall|t: int| 0 <= t < old(self).agents@[idx as int].influences@.len()
                ==> #[trigger] final(self).agents@[idx as int].influences@[t]
                    == old(self).agents@[idx as int].influences@[t],
            forall|k: int| 0 <= k < influencers@.len() ==> {
                let e = #[trigger] final(self).agents@[idx as int].influences@[
                    old(self).agents@[idx as int].influences@.len() + k];
                &&& e.influencer == influencers@[k]
                &&& e.state@ == snapshot@[influencers@[k] as int]@
                &&& e.step == step
            },
    {
        let ghost start = *self;
        let mc = self.market_count;
        let ic = influencers.len();
        let mut m: usize = 0;
        while m < mc
            invariant
                0 <= m <= mc,
                idx < self.agents@.len(),
                mc == self.market_count,
                mc <= MAX_MARKETS,
                collection_wf(*self),
                diffusion_frame(start, *self),
                snapshot_wf(snapshot@, start),
                ic == influencers@.len(),
                1 <= ic,
                forall|k: int| 0 <= k < influencers@.len()
                    ==> #[trigger] influencers@[k] < snapshot@.len(),
                forall|i: int| 0 <= i < self.agents@.len() && i != idx
                    ==> #[trigger] self.agents@[i] == start.agents@[i],
                self.agents@[idx as int].friends
                    == start.agents@[idx as int].friends,
                self.agents@[idx as int].influences
                    == start.agents@[idx as int].influences,
                forall|m2: int| 0 <= m2 < m
                    ==> #[trigger] self.agents@[idx as int].state@[m2]
                        == consensus_belief(snapshot@, influencers@, m2),
                forall|m2: int| 0 <= m2 < m
                    ==> #[trigger] self.agents@[idx as int].state@[m2] == 0
                        || self.agents@[idx as int].state@[m2] == FP,
            decreases mc - m,
        {
            let ghost pre_s = *self;
            let mut sum: u128 = 0;
            let mut k2: usize = 0;
            proof {
                assert(influencers@.take(0) =~= Seq::<usize>::empty());
            }
            while k2 < ic
                invariant
                    0 <= k2 <= ic,
                    *self == pre_s,
                    m < mc,
                    ic == influencers@.len(),
                    snapshot_wf(snapshot@, start),
                    mc == start.market_count,
                    forall|k3: int| 0 <= k3 < influencers@.len()
                        ==> #[trigger] influencers@[k3] < snapshot@.len(),
                    sum == consensus_sum(snapshot@, influencers@.take(k2 as int), m as int),
                    sum <= (k2 as int) * (FP as int),
                decreases ic - k2,
            {
                let who = influencers[k2];
                proof {
                    assert(belief_vec_wf(snapshot@[who as int]@, mc as int));
                    lemma_consensus_sum_take_step(snapshot@, influencers@,
                        k2 as int, m as int);
                }
                let b = snapshot[who][m];
                sum = sum + b as u128;
                k2 = k2 + 1;
            }
            proof {
                assert(influencers@.take(ic as int) =~= influencers@);
            }
            // rounded consensus: a mean of at least one half rounds to one
            let nb: u64 = if 2 * sum >= (ic as u128) * (FP as u128) {
                FP
            } else {
                0
            };
            let ghost pre2 = self.agents@;
            self.agents[idx].state.set(m, nb);
            proof {
                assert(self.agents@[idx as int].state@
                    == pre2[idx as int].state@.update(m as int, nb));
                lemma_one_agent_update(pre2, self.agents@, idx as int, mc as int);
            }
            m = m + 1;
        }
        let mut k3: usize = 0;
        let ghost mid = *self;
        let ghost base = self.agents@[idx as int].influences@.len() as int;
        while k3 < ic
            invariant
                0 <= k3 <= ic,
                idx < self.agents@.len(),
                mc == self.market_count,
                mc <= MAX_MARKETS,
                collection_wf(*self),
                diffusion_frame(mid, *self),
                snapshot_wf(snapshot@, start),
                start.market_count == mc,
                ic == influencers@.len(),
                forall|k: int| 0 <= k < influencers@.len()
                    ==> #[trigger] influencers@[k] < snapshot@.len(),
                forall|i: int| 0 <= i < self.agents@.len() && i != idx
                    ==> #[trigger] self.agents@[i] == mid.agents@[i],
                self.agents@[idx as int].friends == mid.agents@[idx as int].friends,
                self.agents@[idx as int].state == mid.agents@[idx as int].state,
                base == mid.agents@[idx as int].influences@.len(),
                self.agents@[idx as int].influences@.len() == base + k3,
                forall|t: int| 0 <= t < base
                    ==> #[trigger] self.agents@[idx as int].influences@[t]
                        == mid.agents@[idx as int].influences@[t],
                forall|k: int| 0 <= k < k3 ==> {
                    let e = #[trigger] self.agents@[idx as int].influences@[base + k];
                    &&& e.influencer == influencers@[k]
                    &&& e.state@ == snapshot@[influencers@[k] as int]@
                    &&& e.step == step
                },
            decreases ic - k3,
        {
            let who = influencers[k3];
            proof {
                assert(belief_vec_wf(snapshot@[who as int]@, mc as int));
            }
            let snap = copy_u64_vec(&snapshot[who]);
            let ghost pre3 = self.agents@;
            self.agents[idx].influences.push_back(Influence {
                influencer: who,
                state: snap,
                step,
            });
            proof {
                lemma_one_agent_update(pre3, self.agents@, idx as int, mc as int);
            }
            k3 = k3 + 1;
        }
        proof {
            lemma_frame_trans(start, mid, *self);
            assert forall|m2: int| 0 <= m2 < self.market_count
                implies #[trigger] self.agents@[idx as int].state@[m2] == 0
                    || self.agents@[idx as int].state@[m2] == FP by {
                assert(self.agents@[idx as int].state
                    == mid.agents@[idx as int].state);
            }
        }
    }
}

/// If a population changed at one agent only, and the new agent is still
/// well-formed, well-formedness of the whole population carries over.
proof fn lemma_one_agent_update(
    pre: Seq<crate::agent::Agent>,
    post: Seq<crate::agent::Agent>,
    idx: int,
    mc: int,
)
    requires
        0 <= idx < pre.len(),
        post.len() == pre.len(),
        forall|i: int| 0 <= i < pre.len() && i != idx
            ==> #[trigger] post[i] == pre[i],
        forall|i: int| 0 <= i < pre.len() ==> agent_wf(#[trigger] pre[i], mc),
        agent_wf(post[idx], mc),
    ensures
        forall|i: int| 0 <= i < post.len() ==> agent_wf(#[trigger] post[i], mc),
{
}

/// The movement vector of all markets over `delay` steps.
pub open spec fn movements_spec(markets: Seq<GenoaMarket>, delay: int) -> Seq<int> {
    Seq::new(markets.len(), |i: int| movement_spec(markets[i], delay))
}

/// How many of an agent's pending influences fall due at a step: none
/// before its reflection delay has passed.
pub open spec fn due_after(a: Agent, step: int) -> int {
    if step >= a.reflection_delay {
        due_count(a.influences@, step - a.reflection_delay)
    } else {
        0
    }
}

/// The friend queue an agent ends the reflection phase with: its due
/// influences evaluated in order against the market movement over its own
/// reflection delay.
pub open spec fn reflected_friends(a: Agent, markets: Seq<GenoaMarket>, step: int)
    -> Seq<AgentId>
{
    if step >= a.reflection_delay {
        promoted_friends(
            a.friends@,
            a.max_friends as int,
            a.influences@,
            due_count(a.influences@, step - a.reflection_delay),
            movements_spec(markets, a.reflection_delay as int),
            a.friend_threshold as int,
        )
    } else {
        a.friends@
    }
}

/// A belief vector the consensus rewrote: every entry zero or `FP`.
pub open spec fn all_or_nothing(s: Seq<u64>) -> bool {
    forall|m: int| 0 <= m < s.len() ==> #[trigger] s[m] == 0 || s[m] == FP
}

impl AgentCollection {
    /// One full diffusion pass (the "DGA"), run once per step before any
    /// market clears: for every agent, first the retrospective friend
    /// evaluation against the market movement over that agent's
    /// reflection delay, then, with the agent's influence probability, a
    /// belief redraw from freshly sampled influencers plus any friends
    /// that pass their own draw. All belief reads go through a snapshot
    /// taken at entry, so no agent reads another's already-updated belief
    /// within the pass. Diffusion never touches cash or assets, and every
    /// belief stays in `[0, FP]`.
    pub fn dga(
        &mut self,
        markets: &Vec<GenoaMarket>,
        step: usize,
        rng: &mut rand::rngs::StdRng,
    )
        requires
            collection_wf(*old(self)),
            1 <= old(self).market_count <= MAX_MARKETS,
            markets@.len() == old(self).market_count,
            forall|i: int| 0 <= i < markets@.len()
                ==> market_wf(#[trigger] markets@[i]),
            old(self).agents@.len() + old(self).fundamentalists@.len() <= usize::MAX,
        ensures
            collection_wf(*final(self)),
            diffusion_frame(*old(self), *final(self)),
            forall|i: int, m: int| 0 <= i < final(self).agents@.len()
                && 0 <= m < final(self).market_count
                ==> 0 <= #[trigger] final(self).agents@[i].state@[m] <= FP,
            forall|i: int| 0 <= i < final(self).agents@.len()
                ==> #[trigger] final(self).agents@[i].friends@
                    == reflected_friends(old(self).agents@[i], markets@, step as int),
            forall|i: int| 0 <= i < final(self).agents@.len()
                ==> #[trigger] final(self).agents@[i].state
                        == old(self).agents@[i].state
                    || all_or_nothing(final(self).agents@[i].state@),
            forall|i: int| 0 <= i < final(self).agents@.len() ==> {
                let kept = old(self).agents@[i].influences@.skip(due_after(
                    old(self).agents@[i], step as int));
                let q = (#[trigger] final(self).agents@[i]).influences@;
                &&& q.len() >= kept.len()
                &&& forall|t: int| 0 <= t < kept.len() ==> #[trigger] q[t] == kept[t]
                &&& forall|t: int| kept.len() <= t < q.len()
                    ==> (#[trigger] q[t]).step == step
                        && q[t].influencer < old(self).agents@.len()
                            + old(self).fundamentalists@.len()
                        && q[t].state@ == influence_view(*old(self),
                            q[t].influencer as int)
            },
    {
        let ghost start = *self;
        let n = self.agents.len();
        let fcount = self.fundamentalists.len();
        let total = n + fcount;
        let mc = self.market_count;

        // belief snapshot: every agent's state, then every fundamentalist
        let mut snapshot: Vec<Vec<u64>> = Vec::new();
        let mut i: usize = 0;
        while i < n
            invariant
                0 <= i <= n,
                n == self.agents@.len(),
                *self == start,
                collection_wf(*self),
                snapshot@.len() == i,
                forall|k: int| 0 <= k < i
                    ==> #[trigger] snapshot@[k]@ == self.agents@[k].state@,
            decreases n - i,
        {
            let c = copy_u64_vec(&self.agents[i].state);
            snapshot.push(c);
            i = i + 1;
        }
        let mut j: usize = 0;
        while j < fcount
            invariant
                0 <= j <= fcount,
                n == self.agents@.len(),
                fcount == self.fundamentalists@.len(),
                *self == start,
                collection_wf(*self),
                snapshot@.len() == n + j,
                forall|k: int| 0 <= k < n
                    ==> #[trigger] snapshot@[k]@ == self.agents@[k].state@,
                forall|k: int| n <= k < n + j
                    ==> #[trigger] snapshot@[k]@ == self.fundamentalists@[k - n]@,
            decreases fcount - j,
        {
            let c = copy_u64_vec(&self.fundamentalists[j]);
            snapshot.push(c);
            j = j + 1;
        }
        proof {
            assert forall|k: int| 0 <= k < snapshot@.len()
                implies belief_vec_wf(#[trigger] snapshot@[k]@, mc as int) by {
                if k < n {
                    assert(agent_wf(self.agents@[k], mc as int));
                } else {
                    assert(belief_vec_wf(self.fundamentalists@[k - n]@, mc as int));
                }
            }
            assert(snapshot_wf(snapshot@, start));
        }

        let mut idx: usize = 0;
        while idx < n
            invariant
                0 <= idx <= n,
                n == self.agents@.len(),
                fcount == self.fundamentalists@.len(),
                total == n + fcount,
                mc == self.market_count,
                1 <= mc <= MAX_MARKETS,
                total <= usize::MAX,
                markets@.len() == mc,
                forall|i2: int| 0 <= i2 < markets@.len()
                    ==> market_wf(#[trigger] markets@[i2]),
                collection_wf(*self),
                diffusion_frame(start, *self),
                snapshot_wf(snapshot@, start),
                start.market_count == mc,
                start.agents@.len() == n,
                forall|k9: int| 0 <= k9 < total
                    ==> #[trigger] snapshot@[k9]@ == influence_view(start, k9),
                forall|i: int| idx <= i < n
                    ==> #[trigger] self.agents@[i] == start.agents@[i],
                forall|i: int| 0 <= i < idx
                    ==> #[trigger] self.agents@[i].friends@
                        == reflected_friends(start.agents@[i], markets@, step as int),
                forall|i: int| 0 <= i < idx
                    ==> #[trigger] self.agents@[i].state == start.agents@[i].state
                        || all_or_nothing(self.agents@[i].state@),
                forall|i: int| 0 <= i < idx ==> {
                    let kept = start.agents@[i].influences@.skip(due_after(
                        start.agents@[i], step as int));
                    let q = (#[trigger] self.agents@[i]).influences@;
                    &&& q.len() >= kept.len()
                    &&& forall|t: int| 0 <= t < kept.len()
                        ==> #[trigger] q[t] == kept[t]
                    &&& forall|t: int| kept.len() <= t < q.len()
                        ==> (#[trigger] q[t]).step == step
                            && q[t].influencer < total
                            && q[t].state@ == influence_view(start,
                                q[t].influencer as int)
                },
            decreases n - idx,
        {
            let ghost a0 = self.agents@[idx as int];
            // phase one: retrospective friend evaluation
            let delay = self.agents[idx].reflection_delay;
            if step >= delay {
                let ghost pre_r = *self;
                let movements = market_movements(markets, delay);
                proof {
                    assert(*self == pre_r);
                    assert(crate::stats::view_int(movements@)
                        =~= movements_spec(markets@, delay as int));
                }
                self.reflect_on_influences(idx, &movements, step - delay);
                proof {
                    lemma_frame_trans(start, pre_r, *self);
                }
            }
            proof {
                assert(self.agents@[idx as int].friends@
                    == reflected_friends(a0, markets@, step as int));
                assert(self.agents@[idx as int].influences@
                    == a0.influences@.skip(due_after(a0, step as int)));
                assert(self.agents@[idx as int].state == a0.state);
            }
            let ghost a_r = self.agents@[idx as int];

            // phase two: influence application by rounded consensus
            let ip = self.agents[idx].influence_probability;
            if rng_chance(rng, ip) && total >= 2 {
                let count = self.agents[idx].influencers_count;
                let mut influencers = select_influencers(rng, total, idx, count);
                let ghost pre_f = *self;
                let fl = self.agents[idx].friends.len();
                let mut k: usize = 0;
                while k < fl
                    invariant
                        0 <= k <= fl,
                        idx < n,
                        *self == pre_f,
                        n == self.agents@.len(),
                        total == n + fcount,
                        fl == self.agents@[idx as int].friends@.len(),
                        forall|k2: int| 0 <= k2 < influencers@.len()
                            ==> #[trigger] influencers@[k2] < total,
                    decreases fl - k,
                {
                    let f = self.agents[idx].friends[k];
                    let fip = self.agents[idx].friend_influence_probability;
                    if rng_chance(rng, fip) {
                        if f < total {
                            influencers.push(f);
                        }
                    }
                    k = k + 1;
                }
                if influencers.len() > 0 {
                    let ghost pre_i = *self;
                    proof {
                        assert(snapshot_wf(snapshot@, *self)) by {
                            assert(self.agents@.len() == start.agents@.len());
                            assert(self.fundamentalists == start.fundamentalists);
                            assert(self.market_count == start.market_count);
                        }
                        assert(snapshot@.len() == total);
                    }
                    self.apply_influence(idx, &snapshot, &influencers, step);
                    proof {
                        lemma_frame_trans(start, pre_i, *self);
                        assert(all_or_nothing(self.agents@[idx as int].state@)) by {
                            assert(agent_wf(self.agents@[idx as int], mc as int));
                        }
                    }
                }
            }
            proof {
                let af = self.agents@[idx as int];
                let kept = a0.influences@.skip(due_after(a0, step as int));
                assert(af.friends@ == reflected_friends(a0, markets@, step as int));
                assert(af.influences@.len() >= kept.len());
                assert(forall|t: int| 0 <= t < kept.len()
                    ==> #[trigger] af.influences@[t] == kept[t]);
                assert forall|t: int| kept.len() <= t < af.influences@.len()
                    implies (#[trigger] af.influences@[t]).step == step
                        && af.influences@[t].influencer < total
                        && af.influences@[t].state@ == influence_view(start,
                            af.influences@[t].influencer as int) by {
                    assert(a_r.influences@.len() == kept.len());
                    let e = af.influences@[a_r.influences@.len()
                        + (t - a_r.influences@.len())];
                    assert(e.step == step);
                    assert(e.influencer < total);
                    assert(e.state@ == snapshot@[e.influencer as int]@);
                }
            }
            idx = idx + 1;
        }
        proof {
            assert forall|i2: int, m: int| 0 <= i2 < self.agents@.len()
                && 0 <= m < self.market_count
                implies 0 <= #[trigger] self.agents@[i2].state@[m] <= FP by {
                assert(agent_wf(self.agents@[i2], self.market_count as int));
            }
        }
    }

    /// Run the diffusion pass; call once per step, before any market.
    pub fn step(
        &mut self,
        markets: &Vec<GenoaMarket>,
        step: usize,
        rng: &mut rand::rngs::StdRng,
    )
        requires
            collection_wf(*old(self)),
            1 <= old(self).market_count <= MAX_MARKETS,
            markets@.len() == old(self).market_count,
            forall|i: int| 0 <= i < markets@.len()
                ==> market_wf(#[trigger] markets@[i]),
            old(self).agents@.len() + old(self).fundamentalists@.len() <= usize::MAX,
        ensures
            collection_wf(*final(self)),
            diffusion_frame(*old(self), *final(self)),
            forall|i: int| 0 <= i < final(self).agents@.len()
                ==> #[trigger] final(self).agents@[i].friends@
                    == reflected_friends(old(self).agents@[i], markets@, step as int),
            forall|i: int| 0 <= i < final(self).agents@.len()
                ==> #[trigger] final(self).agents@[i].state
                        == old(self).agents@[i].state
                    || all_or_nothing(final(self).agents@[i].state@),
            forall|i: int| 0 <= i < final(self).agents@.len() ==> {
                let kept = old(self).agents@[i].influences@.skip(due_after(
                    old(self).agents@[i], step as int));
                let q = (#[trigger] final(self).agents@[i]).influences@;
                &&& q.len() >= kept.len()
                &&& forall|t: int| 0 <= t < kept.len() ==> #[trigger] q[t] == kept[t]
                &&& forall|t: int| kept.len() <= t < q.len()
                    ==> (#[trigger] q[t]).step == step
            },
    {
        self.dga(markets, step, rng);
    }
}

} // verus!
