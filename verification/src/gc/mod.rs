//! Which segments to evacuate when space runs short.
//!
//! A segment's benefit is what it would free, weighted by the age of its data;
//! its cost is reading and writing what is live in it, inflated by its wear.
//! Above one watermark of free space nothing is planned; below another one the
//! most freeable bytes win, whatever they cost.

use crate::common::num;
use vstd::prelude::*;

verus! {

/// Free space, in percent, below which segments are evacuated.
pub const DEFAULT_KICK_PCT: u8 = 20;

/// Free space, in percent, below which cost no longer counts.
pub const DEFAULT_AGGRESSIVE_PCT: u8 = 8;

/// The best score; that of a segment with nothing live in it.
pub const TOP_SCORE: u64 = 9_223_372_036_854_775_807;

/// One, in fixed point with 32 fractional bits.
pub const FIXED_ONE: u128 = 4_294_967_296;

/// One unit that can be evacuated: a zone, a band or a slice of a region.
#[derive(Clone, Copy, Debug, PartialEq, Eq, Structural)]
pub struct SegmentStat {
    pub segment_id: u64,
    /// Bytes that the segment holds, live and stale.
    pub total_bytes: u64,
    /// Bytes that are still referenced.
    pub live_bytes: u64,
    /// Time since the newest write in this segment, in nanoseconds.
    pub age_ns: u64,
    /// Writes of the segment over its lifetime.
    pub write_cycles: u64,
}

impl SegmentStat {
    /// What evacuating the segment frees.
    pub open spec fn freeable(self) -> int {
        if self.total_bytes >= self.live_bytes {
            self.total_bytes - self.live_bytes
        } else {
            0
        }
    }

    /// Bytes that evacuating the segment frees.
    #[must_use]
    pub fn freeable_bytes(&self) -> (r: u64)
        ensures
            r == self.freeable(),
    {
        self.total_bytes.saturating_sub(self.live_bytes)
    }

    /// The live part, in hundredths of a percent.
    #[must_use]
    pub fn live_bps(&self) -> (r: u64)
        ensures
            r == (if self.total_bytes == 0 {
                0
            } else {
                num::capped(self.live_bytes * 10_000 / self.total_bytes as int)
            }),
    {
        if self.total_bytes == 0 {
            return 0;
        }
        num::part_of(self.live_bytes, 10_000, self.total_bytes)
    }
}

/// What the planner goes by.
#[derive(Clone, Copy, Debug)]
pub struct GcConfig {
    /// Free space, in percent, below which segments are evacuated.
    pub kick_pct: u8,
    /// Free space, in percent, below which cost no longer counts.
    pub aggressive_pct: u8,
    /// What a hundred write cycles add to the cost, in hundredths of a percent.
    pub wear_bps_per_100_cycles: u64,
    /// The age at which a segment is worth twice a fresh one.
    pub age_half_life_ns: u64,
    /// The most segments in one plan.
    pub max_segments_per_plan: usize,
}

impl Default for GcConfig {
    fn default() -> (r: Self)
        ensures
            r.kick_pct == DEFAULT_KICK_PCT,
            r.aggressive_pct == DEFAULT_AGGRESSIVE_PCT,
            r.wear_bps_per_100_cycles == 5,
            r.age_half_life_ns == 7 * 24 * 3600 * 1_000_000_000,
            r.max_segments_per_plan == 8,
    {
        GcConfig {
            kick_pct: DEFAULT_KICK_PCT,
            aggressive_pct: DEFAULT_AGGRESSIVE_PCT,
            wear_bps_per_100_cycles: 5,
            age_half_life_ns: 604_800_000_000_000,
            max_segments_per_plan: 8,
        }
    }
}

/// How urgent a plan is.
#[derive(Clone, Copy, PartialEq, Eq, Debug, Structural)]
pub enum GcUrgency {
    /// There is space: nothing is planned.
    Idle,
    /// A trickle in the background.
    Background,
    /// Space is nearly gone: the most freeable bytes first.
    Aggressive,
}

/// The segments to evacuate, in order, with what that costs and brings.
#[derive(Clone, Debug, PartialEq, Eq)]
pub struct GcPlan {
    pub urgency: GcUrgency,
    /// The segments, the best first.
    pub segments: Vec<u64>,
    /// Bytes to read and to write.
    pub estimated_copy_bytes: u64,
    /// Bytes that are free afterwards.
    pub estimated_reclaimed_bytes: u64,
}

/// An extent whose last reference is gone.
#[derive(Clone, Copy, Debug, PartialEq, Eq, Structural)]
pub struct ReclaimEvent {
    pub segment_id: u64,
    pub freed_bytes: u64,
    /// When it was released, in nanoseconds.
    pub at_ns: u64,
}

/// Picks segments to evacuate.
#[derive(Clone, Debug)]
pub struct GcPlanner {
    pub config: GcConfig,
}

impl Default for GcPlanner {
    fn default() -> (r: Self)
        ensures
            r.config.kick_pct == DEFAULT_KICK_PCT,
            r.config.aggressive_pct == DEFAULT_AGGRESSIVE_PCT,
            r.config.wear_bps_per_100_cycles == 5,
            r.config.age_half_life_ns == 7 * 24 * 3600 * 1_000_000_000,
            r.config.max_segments_per_plan == 8,
    {
        GcPlanner { config: GcConfig::default() }
    }
}

/// Free space, in whole percent.
pub open spec fn free_percent(total: u64, free: u64) -> int {
    free * 100 / total as int
}

/// The bytes to read and to write for segments.
pub open spec fn copy_sum(s: Seq<SegmentStat>) -> int
    decreases s.len(),
{
    if s.len() == 0 {
        0
    } else {
        copy_sum(s.drop_last()) + 2 * s.last().live_bytes
    }
}

/// The bytes that evacuating segments frees.
pub open spec fn freeable_sum(s: Seq<SegmentStat>) -> int
    decreases s.len(),
{
    if s.len() == 0 {
        0
    } else {
        freeable_sum(s.drop_last()) + s.last().freeable()
    }
}

/// The segments at positions.
pub open spec fn picked(stats: Seq<SegmentStat>, order: Seq<int>) -> Seq<SegmentStat> {
    order.map_values(|i: int| stats[i])
}

impl GcPlanner {
    /// How the age of a segment multiplies its benefit, in fixed point.
    pub open spec fn age_factor(self, s: SegmentStat) -> int {
        let half_life = if self.config.age_half_life_ns == 0 {
            1
        } else {
            self.config.age_half_life_ns as int
        };
        FIXED_ONE + (s.age_ns * FIXED_ONE) / half_life
    }

    /// What evacuating the segment is worth.
    pub open spec fn benefit(self, s: SegmentStat) -> int {
        (s.freeable() * self.age_factor(s)) / FIXED_ONE as int
    }

    /// How the wear of a segment multiplies its cost, in fixed point.
    pub open spec fn wear_factor(self, s: SegmentStat) -> int {
        let bps = num::capped(s.write_cycles * self.config.wear_bps_per_100_cycles / 100);
        FIXED_ONE + (bps * FIXED_ONE) / 10_000
    }

    /// What evacuating the segment costs.
    pub open spec fn cost(self, s: SegmentStat) -> int {
        (2 * s.live_bytes * self.wear_factor(s)) / FIXED_ONE as int
    }

    /// Benefit and cost can be computed.
    pub open spec fn in_range(self, s: SegmentStat) -> bool {
        &&& s.freeable() * self.age_factor(s) <= u128::MAX
        &&& 2 * s.live_bytes * self.wear_factor(s) <= u128::MAX
    }

    /// How much evacuating the segment is to be preferred.
    pub open spec fn score_of(self, s: SegmentStat, aggressive: bool) -> int {
        if s.freeable() == 0 {
            0
        } else if aggressive {
            s.freeable()
        } else if self.cost(s) == 0 {
            TOP_SCORE as int
        } else {
            let scaled = (self.benefit(s) * 1_048_576) / self.cost(s);
            if scaled > TOP_SCORE {
                TOP_SCORE as int
            } else {
                scaled
            }
        }
    }

    /// The segment at `i` comes before the one at `j`: by its score, then by
    /// its id, then by its place.
    pub open spec fn before(
        self,
        stats: Seq<SegmentStat>,
        aggressive: bool,
        i: int,
        j: int,
    ) -> bool {
        let a = self.score_of(stats[i], aggressive);
        let b = self.score_of(stats[j], aggressive);
        a > b || (a == b && (stats[i].segment_id < stats[j].segment_id || (
        stats[i].segment_id == stats[j].segment_id && i < j)))
    }

    /// `order` holds the places of the first `n` segments that free anything,
    /// the best first.
    pub open spec fn is_ranking(
        self,
        stats: Seq<SegmentStat>,
        n: int,
        aggressive: bool,
        order: Seq<int>,
    ) -> bool {
        &&& forall|a: int|
            0 <= a < order.len() ==> 0 <= #[trigger] order[a] < n && stats[order[a]].freeable() > 0
        &&& forall|i: int|
            0 <= i < n && #[trigger] stats[i].freeable() > 0 ==> order.contains(i)
        &&& forall|a: int, b: int|
            0 <= a < b < order.len() ==> self.before(
                stats,
                aggressive,
                #[trigger] order[a],
                #[trigger] order[b],
            )
    }

    /// A planner with a configuration.
    #[must_use]
    pub fn new(config: GcConfig) -> (r: Self)
        ensures
            r.config == config,
    {
        GcPlanner { config }
    }

    /// The configuration.
    #[must_use]
    pub fn config(&self) -> (r: &GcConfig)
        ensures
            *r == self.config,
    {
        &self.config
    }

    /// How much evacuating a segment is to be preferred.
    #[must_use]
    pub fn score(&self, s: &SegmentStat, aggressive: bool) -> (r: u64)
        requires
            s.freeable() == 0 || aggressive || self.in_range(*s),
        ensures
            r == self.score_of(*s, aggressive),
    {
        let freeable = s.freeable_bytes();
        if freeable == 0 {
            return 0;
        }
        if aggressive {
            return freeable;
        }
        let half_life: u128 = if self.config.age_half_life_ns == 0 {
            1
        } else {
            self.config.age_half_life_ns as u128
        };
        let extra: u128 = (s.age_ns as u128 * FIXED_ONE) / half_life;
        proof {
            lemma_quotient_no_larger(s.age_ns * FIXED_ONE, half_life as int);
            lemma_fits(freeable as int, self.age_factor(*s), s.live_bytes as int);
        }
        let age_factor: u128 = FIXED_ONE + extra;
        assert(age_factor == self.age_factor(*s));
        let benefit: u128 = (freeable as u128 * age_factor) / FIXED_ONE;
        let wear_bps: u64 = num::part_of(
            s.write_cycles,
            self.config.wear_bps_per_100_cycles,
            100,
        );
        let wear_factor: u128 = FIXED_ONE + (wear_bps as u128 * FIXED_ONE) / 10_000;
        assert(wear_factor == self.wear_factor(*s));
        let cost: u128 = (2 * s.live_bytes as u128 * wear_factor) / FIXED_ONE;
        if cost == 0 {
            return TOP_SCORE;
        }
        let scaled: u128 = (benefit * 1_048_576) / cost;
        if scaled > TOP_SCORE as u128 {
            TOP_SCORE
        } else {
            scaled as u64
        }
    }

    /// Puts the segment at `i` in its place among those before it.
    fn rank_one(
        &self,
        stats: &[SegmentStat],
        aggressive: bool,
        order: &mut Vec<usize>,
        scores: &mut Vec<u64>,
        i: usize,
        score: u64,
    )
        requires
            i < stats@.len(),
            stats@[i as int].freeable() > 0,
            score == self.score_of(stats@[i as int], aggressive),
            scores_match(*self, stats@, aggressive, places(old(order)@), old(scores)@),
            self.is_ranking(stats@, i as int, aggressive, places(old(order)@)),
        ensures
            scores_match(*self, stats@, aggressive, places(final(order)@), final(scores)@),
            self.is_ranking(stats@, i + 1, aggressive, places(final(order)@)),
    {
        let mut at: usize = order.len();
        let ghost before = places(order@);
        while at > 0 && (scores[at - 1] < score || (scores[at - 1] == score
            && stats[order[at - 1]].segment_id > stats[i].segment_id))
            invariant
                at <= order@.len(),
                i < stats@.len(),
                before == places(order@),
                score == self.score_of(stats@[i as int], aggressive),
                scores_match(*self, stats@, aggressive, before, scores@),
                self.is_ranking(stats@, i as int, aggressive, before),
                forall|a: int|
                    at <= a < before.len() ==> self.before(
                        stats@,
                        aggressive,
                        i as int,
                        #[trigger] before[a],
                    ),
            decreases at,
        {
            assert(before[at - 1] == order@[at - 1]);
            at = at - 1;
        }
        proof {
            if at > 0 {
                assert(before[at - 1] == order@[at - 1]);
            }
        }
        order.insert(at, i);
        scores.insert(at, score);
        proof {
            let after = places(order@);
            assert(after =~= before.insert(at as int, i as int));
            assert forall|k: int| 0 <= k < i + 1 && #[trigger] stats@[k].freeable() > 0 implies
                after.contains(k) by {
                if k == i {
                    assert(after[at as int] == k);
                } else {
                    let a = before.index_of(k);
                    assert(before.contains(k));
                    if a < at {
                        assert(after[a] == k);
                    } else {
                        assert(after[a + 1] == k);
                    }
                }
            }
            assert forall|a: int, b: int| 0 <= a < b < after.len() implies self.before(
                stats@,
                aggressive,
                #[trigger] after[a],
                #[trigger] after[b],
            ) by {
                let pa = if a < at {
                    a
                } else {
                    a - 1
                };
                let pb = if b < at {
                    b
                } else {
                    b - 1
                };
                if a != at {
                    assert(after[a] == before[pa]);
                }
                if b != at {
                    assert(after[b] == before[pb]);
                }
                if b == at {
                    assert(self.before(stats@, aggressive, before[at - 1], i as int));
                    if a < at - 1 {
                        assert(self.before(stats@, aggressive, before[a], before[at - 1]));
                    }
                }
            }
        }
    }

    /// The segments that free anything, the best first.
    fn rank(&self, stats: &[SegmentStat], aggressive: bool) -> (r: Vec<usize>)
        requires
            aggressive || forall|i: int|
                0 <= i < stats@.len() && #[trigger] stats@[i].freeable() > 0 ==> self.in_range(
                    stats@[i],
                ),
        ensures
            self.is_ranking(stats@, stats@.len() as int, aggressive, places(r@)),
    {
        let mut order: Vec<usize> = Vec::new();
        let mut scores: Vec<u64> = Vec::new();
        let mut i: usize = 0;
        while i < stats.len()
            invariant
                i <= stats@.len(),
                aggressive || forall|i: int|
                    0 <= i < stats@.len() && #[trigger] stats@[i].freeable() > 0 ==> self.in_range(
                        stats@[i],
                    ),
                scores_match(*self, stats@, aggressive, places(order@), scores@),
                self.is_ranking(stats@, i as int, aggressive, places(order@)),
            decreases stats@.len() - i,
        {
            if stats[i].freeable_bytes() > 0 {
                let score = self.score(&stats[i], aggressive);
                self.rank_one(stats, aggressive, &mut order, &mut scores, i, score);
            }
            i = i + 1;
        }
        order
    }

    /// The next segments to evacuate, if space is short and any would free
    /// something.
    #[must_use]
    pub fn plan(&self, stats: &[SegmentStat], pool_total_bytes: u64, pool_free_bytes: u64) -> (r:
        Option<GcPlan>)
        requires
            ({
                let pct = free_percent(pool_total_bytes, pool_free_bytes);
                pool_total_bytes > 0 && pct < self.config.kick_pct ==> self.can_plan(
                    stats@,
                    pct < self.config.aggressive_pct,
                )
            }),
        ensures
            self.plans(stats@, pool_total_bytes, pool_free_bytes, r),
    {
        if pool_total_bytes == 0 {
            return None;
        }
        let free_pct: u64 = num::part_of(pool_free_bytes, 100, pool_total_bytes);
        assert(free_pct == num::capped(free_percent(pool_total_bytes, pool_free_bytes)));
        if free_pct >= self.config.kick_pct as u64 {
            return None;
        }
        let aggressive = free_pct < self.config.aggressive_pct as u64;
        assert(aggressive == (free_percent(pool_total_bytes, pool_free_bytes)
            < self.config.aggressive_pct));
        let urgency = if aggressive {
            GcUrgency::Aggressive
        } else {
            GcUrgency::Background
        };
        let order = self.rank(stats, aggressive);
        let ghost all = places(order@);
        if order.len() == 0 {
            assert forall|i: int| 0 <= i < stats@.len() implies #[trigger] stats@[i].freeable()
                == 0 by {
                assert(!all.contains(i));
            }
            assert(nothing_freeable(stats@));
            return None;
        }
        assert(stats@[all[0]].freeable() > 0);
        assert(!nothing_freeable(stats@));
        let limit: usize = self.config.max_segments_per_plan;
        let n: usize = if order.len() > limit {
            limit
        } else {
            order.len()
        };
        let mut copy: u64 = 0;
        let mut reclaimed: u64 = 0;
        let mut ids: Vec<u64> = Vec::new();
        let mut k: usize = 0;
        while k < n
            invariant
                k <= n <= order@.len(),
                n <= limit,
                limit == self.config.max_segments_per_plan,
                all == places(order@),
                self.is_ranking(stats@, stats@.len() as int, aggressive, all),
                self.can_plan(stats@, aggressive),
                copy == num::capped(copy_sum(picked(stats@, all.take(k as int)))),
                reclaimed == num::capped(freeable_sum(picked(stats@, all.take(k as int)))),
                ids@.len() == k,
                forall|a: int|
                    0 <= a < k ==> #[trigger] ids@[a] == stats@[all[a]].segment_id,
            decreases n - k,
        {
            assert(all[k as int] == order@[k as int]);
            let s = &stats[order[k]];
            copy = copy.saturating_add(2 * s.live_bytes);
            reclaimed = reclaimed.saturating_add(s.freeable_bytes());
            ids.push(s.segment_id);
            assert(picked(stats@, all.take(k + 1)).drop_last() =~= picked(
                stats@,
                all.take(k as int),
            ));
            proof {
                lemma_sums_nonneg(picked(stats@, all.take(k as int)));
            }
            k = k + 1;
        }
        let plan = GcPlan {
            urgency,
            segments: ids,
            estimated_copy_bytes: copy,
            estimated_reclaimed_bytes: reclaimed,
        };
        assert(self.is_plan(stats@, aggressive, all, plan));
        assert(self.planned(stats@, aggressive, plan));
        Some(plan)
    }

    /// The numbers of a plan can be computed.
    pub open spec fn can_plan(self, stats: Seq<SegmentStat>, aggressive: bool) -> bool {
        &&& aggressive || forall|i: int|
            0 <= i < stats.len() && #[trigger] stats[i].freeable() > 0 ==> self.in_range(stats[i])
        &&& forall|order: Seq<int>, a: int|
            #![trigger self.is_ranking(stats, stats.len() as int, aggressive, order), order[a]]
            self.is_ranking(stats, stats.len() as int, aggressive, order) && 0 <= a < order.len()
                && a < self.config.max_segments_per_plan ==> 2 * stats[order[a]].live_bytes
                <= u64::MAX
    }

    /// What is planned: nothing while enough is free or no segment would free
    /// anything, else what the ranking of the segments gives.
    pub open spec fn plans(
        self,
        stats: Seq<SegmentStat>,
        total: u64,
        free: u64,
        r: Option<GcPlan>,
    ) -> bool {
        let pct = free_percent(total, free);
        if total == 0 || pct >= self.config.kick_pct || nothing_freeable(stats) {
            r is None
        } else {
            r is Some && self.planned(stats, pct < self.config.aggressive_pct, r->0)
        }
    }

    /// The plan is the one that the ranking of the segments gives.
    pub open spec fn planned(self, stats: Seq<SegmentStat>, aggressive: bool, plan: GcPlan) -> bool {
        exists|order: Seq<int>| #[trigger]
            self.is_ranking(stats, stats.len() as int, aggressive, order) && self.is_plan(
                stats,
                aggressive,
                order,
                plan,
            )
    }

    /// The plan that a ranking gives: as many of its segments as a plan takes.
    pub open spec fn is_plan(
        self,
        stats: Seq<SegmentStat>,
        aggressive: bool,
        order: Seq<int>,
        plan: GcPlan,
    ) -> bool {
        let n = if order.len() > self.config.max_segments_per_plan {
            self.config.max_segments_per_plan as int
        } else {
            order.len() as int
        };
        let chosen = picked(stats, order.take(n));
        &&& plan.urgency == if aggressive {
            GcUrgency::Aggressive
        } else {
            GcUrgency::Background
        }
        &&& plan.segments@ =~= chosen.map_values(|s: SegmentStat| s.segment_id)
        &&& plan.estimated_copy_bytes == num::capped(copy_sum(chosen))
        &&& plan.estimated_reclaimed_bytes == num::capped(freeable_sum(chosen))
    }
}

/// No segment frees anything.
pub open spec fn nothing_freeable(stats: Seq<SegmentStat>) -> bool {
    forall|i: int| 0 <= i < stats.len() ==> #[trigger] stats[i].freeable() == 0
}

/// Positions as numbers.
pub open spec fn places(v: Seq<usize>) -> Seq<int> {
    v.map_values(|i: usize| i as int)
}

/// `scores` holds the score of each segment of `order`.
spec fn scores_match(
    p: GcPlanner,
    stats: Seq<SegmentStat>,
    aggressive: bool,
    order: Seq<int>,
    scores: Seq<u64>,
) -> bool {
    &&& scores.len() == order.len()
    &&& forall|a: int|
        0 <= a < order.len() ==> #[trigger] scores[a] == p.score_of(stats[order[a]], aggressive)
}

proof fn lemma_sums_nonneg(s: Seq<SegmentStat>)
    ensures
        copy_sum(s) >= 0,
        freeable_sum(s) >= 0,
    decreases s.len(),
{
    if s.len() > 0 {
        lemma_sums_nonneg(s.drop_last());
    }
}

proof fn lemma_quotient_no_larger(x: int, d: int)
    by (nonlinear_arith)
    requires
        0 <= x,
        1 <= d,
    ensures
        0 <= x / d <= x,
{
}

proof fn lemma_fits(freeable: int, age_factor: int, live: int)
    by (nonlinear_arith)
    requires
        freeable > 0,
        age_factor > 0,
        freeable * age_factor <= u128::MAX,
    ensures
        age_factor <= u128::MAX,
{
}

/// Of two segments that differ in age alone the older one scores no lower.
pub proof fn older_scores_no_lower(p: GcPlanner, old: SegmentStat, young: SegmentStat)
    requires
        old.age_ns >= young.age_ns,
        (SegmentStat { age_ns: young.age_ns, ..old }) == young,
    ensures
        p.score_of(old, false) >= p.score_of(young, false),
{
    let h = if p.config.age_half_life_ns == 0 {
        1
    } else {
        p.config.age_half_life_ns as int
    };
    let f = old.freeable();
    let one = FIXED_ONE as int;
    lemma_div_monotone(young.age_ns * one, old.age_ns * one, h);
    lemma_mul_monotone(f, p.age_factor(young), p.age_factor(old));
    lemma_div_monotone(f * p.age_factor(young), f * p.age_factor(old), one);
    if p.cost(old) != 0 {
        lemma_cost_nonneg(p, old);
        lemma_div_monotone(p.benefit(young) * 1_048_576, p.benefit(old) * 1_048_576, p.cost(old));
    }
}

/// Of two segments that differ in wear alone the more worn one scores no
/// higher.
pub proof fn worn_scores_no_higher(p: GcPlanner, worn: SegmentStat, fresh: SegmentStat)
    requires
        worn.write_cycles >= fresh.write_cycles,
        (SegmentStat { write_cycles: fresh.write_cycles, ..worn }) == fresh,
    ensures
        p.score_of(worn, false) <= p.score_of(fresh, false),
{
    let w = p.config.wear_bps_per_100_cycles as int;
    let live = 2 * worn.live_bytes;
    let one = FIXED_ONE as int;
    lemma_mul_monotone(w, fresh.write_cycles as int, worn.write_cycles as int);
    assert(fresh.write_cycles * w <= worn.write_cycles * w) by (nonlinear_arith)
        requires
            w * fresh.write_cycles <= w * worn.write_cycles,
    ;
    lemma_mul_monotone(live, p.wear_factor(fresh), p.wear_factor(worn));
    lemma_div_monotone(live * p.wear_factor(fresh), live * p.wear_factor(worn), one);
    lemma_cost_nonneg(p, fresh);
    if p.cost(fresh) != 0 {
        lemma_benefit_nonneg(p, worn);
        lemma_div_antitone(p.benefit(worn) * 1_048_576, p.cost(fresh), p.cost(worn));
    } else if p.cost(worn) != 0 {
        assert(p.score_of(worn, false) <= TOP_SCORE);
    }
}

/// No segment scores higher than one with nothing live in it.
pub proof fn dead_segment_scores_highest(p: GcPlanner, dead: SegmentStat, other: SegmentStat)
    requires
        dead.live_bytes == 0,
        dead.total_bytes > 0,
    ensures
        p.score_of(dead, false) == TOP_SCORE,
        p.score_of(other, false) <= TOP_SCORE,
{
    assert(2 * dead.live_bytes * p.wear_factor(dead) == 0) by (nonlinear_arith)
        requires
            dead.live_bytes == 0,
    ;
}

/// The segments that free anything.
pub open spec fn freeables(stats: Seq<SegmentStat>) -> Seq<SegmentStat> {
    stats.filter(|s: SegmentStat| s.freeable() > 0)
}

/// No two segments have the same id.
pub open spec fn distinct_ids(stats: Seq<SegmentStat>) -> bool {
    forall|i: int, j: int|
        0 <= i < j < stats.len() ==> (#[trigger] stats[i]).segment_id != (
        #[trigger] stats[j]).segment_id
}

/// The first segment ranks above the second: it scores higher, or as high and
/// has the lower id.
pub open spec fn ranks_above(
    p: GcPlanner,
    aggressive: bool,
    s: SegmentStat,
    t: SegmentStat,
) -> bool {
    let a = p.score_of(s, aggressive);
    let b = p.score_of(t, aggressive);
    a > b || (a == b && s.segment_id < t.segment_id)
}

/// `chosen` are the best of the segments that free anything, as many as a plan
/// takes, each above the next, and no segment that is left out is above one of
/// them.
pub open spec fn best_segments(
    p: GcPlanner,
    stats: Seq<SegmentStat>,
    aggressive: bool,
    chosen: Seq<SegmentStat>,
) -> bool {
    &&& chosen.len() == (if freeables(stats).len() < p.config.max_segments_per_plan {
        freeables(stats).len()
    } else {
        p.config.max_segments_per_plan as nat
    })
    &&& forall|a: int|
        0 <= a < chosen.len() ==> stats.contains(#[trigger] chosen[a]) && chosen[a].freeable() > 0
    &&& forall|a: int, b: int|
        0 <= a < b < chosen.len() ==> ranks_above(
            p,
            aggressive,
            #[trigger] chosen[a],
            #[trigger] chosen[b],
        )
    &&& forall|i: int, a: int|
        0 <= i < stats.len() && 0 <= a < chosen.len() && (#[trigger] stats[i]).freeable() > 0
            && !chosen.contains(stats[i]) ==> ranks_above(
            p,
            aggressive,
            #[trigger] chosen[a],
            stats[i],
        )
}

/// The plan is to evacuate `chosen`, which are the best segments, and has their
/// sums, as far as these can be counted.
pub open spec fn takes_best(
    p: GcPlanner,
    stats: Seq<SegmentStat>,
    plan: GcPlan,
    chosen: Seq<SegmentStat>,
) -> bool {
    &&& best_segments(p, stats, plan.urgency == GcUrgency::Aggressive, chosen)
    &&& plan.segments@ == chosen.map_values(|s: SegmentStat| s.segment_id)
    &&& copy_sum(chosen) <= u64::MAX ==> plan.estimated_copy_bytes == copy_sum(chosen)
    &&& freeable_sum(chosen) <= u64::MAX ==> plan.estimated_reclaimed_bytes == freeable_sum(chosen)
}

/// A ranking has every segment that frees anything once.
proof fn lemma_ranking_len(p: GcPlanner, stats: Seq<SegmentStat>, aggressive: bool, order: Seq<int>)
    requires
        p.is_ranking(stats, stats.len() as int, aggressive, order),
    ensures
        order.len() == freeables(stats).len(),
    decreases stats.len(),
{
    reveal(Seq::filter);
    if stats.len() == 0 {
        if order.len() > 0 {
            let first = order[0];
            assert(0 <= first < stats.len());
        }
    } else {
        let n = stats.len() - 1;
        let rest = stats.drop_last();
        assert(stats.last() == stats[n]);
        if stats[n].freeable() > 0 {
            assert(order.contains(n));
            let at = order.index_of(n);
            let fewer = order.remove(at);
            assert forall|a: int| 0 <= a < fewer.len() implies 0 <= #[trigger] fewer[a] < n
                && rest[fewer[a]].freeable() > 0 by {
                let b = if a < at {
                    a
                } else {
                    a + 1
                };
                assert(fewer[a] == order[b]);
                if order[b] == n {
                    if b < at {
                        assert(p.before(stats, aggressive, order[b], order[at]));
                    } else {
                        assert(p.before(stats, aggressive, order[at], order[b]));
                    }
                }
            }
            assert forall|i: int| 0 <= i < n && #[trigger] rest[i].freeable() > 0 implies
                fewer.contains(i) by {
                assert(stats[i].freeable() > 0);
                let b = order.index_of(i);
                assert(order[b] == i);
                if b < at {
                    assert(fewer[b] == i);
                } else {
                    assert(fewer[b - 1] == i);
                }
            }
            assert forall|a: int, b: int| 0 <= a < b < fewer.len() implies p.before(
                rest,
                aggressive,
                #[trigger] fewer[a],
                #[trigger] fewer[b],
            ) by {
                let x = if a < at {
                    a
                } else {
                    a + 1
                };
                let y = if b < at {
                    b
                } else {
                    b + 1
                };
                assert(fewer[a] == order[x] && fewer[b] == order[y]);
                assert(p.before(stats, aggressive, order[x], order[y]));
            }
            lemma_ranking_len(p, rest, aggressive, fewer);
        } else {
            assert forall|a: int| 0 <= a < order.len() implies 0 <= #[trigger] order[a] < n
                && rest[order[a]].freeable() > 0 by {}
            assert forall|i: int| 0 <= i < n && #[trigger] rest[i].freeable() > 0 implies
                order.contains(i) by {
                assert(stats[i].freeable() > 0);
            }
            assert forall|a: int, b: int| 0 <= a < b < order.len() implies p.before(
                rest,
                aggressive,
                #[trigger] order[a],
                #[trigger] order[b],
            ) by {
                assert(p.before(stats, aggressive, order[a], order[b]));
            }
            lemma_ranking_len(p, rest, aggressive, order);
        }
    }
}

/// A plan takes the best segments: those that free anything, by their score and
/// then by their id, as many as a plan takes. What it is to copy is twice what is
/// live in them, and what it frees is what they free, as far as these can be
/// counted.
pub proof fn plan_takes_the_best(
    p: GcPlanner,
    stats: Seq<SegmentStat>,
    total: u64,
    free: u64,
    plan: GcPlan,
)
    requires
        p.plans(stats, total, free, Some(plan)),
        distinct_ids(stats),
    ensures
        exists|chosen: Seq<SegmentStat>| #[trigger] takes_best(p, stats, plan, chosen),
{
    let aggressive = free_percent(total, free) < p.config.aggressive_pct;
    let order = choose|order: Seq<int>| #[trigger]
        p.is_ranking(stats, stats.len() as int, aggressive, order) && p.is_plan(
            stats,
            aggressive,
            order,
            plan,
        );
    let n = if order.len() > p.config.max_segments_per_plan {
        p.config.max_segments_per_plan as int
    } else {
        order.len() as int
    };
    let chosen = picked(stats, order.take(n));
    lemma_ranking_len(p, stats, aggressive, order);
    lemma_sums_nonneg(chosen);
    assert forall|a: int| 0 <= a < chosen.len() implies stats.contains(#[trigger] chosen[a])
        && chosen[a].freeable() > 0 by {
        assert(chosen[a] == stats[order[a]]);
    }
    assert forall|a: int, b: int| 0 <= a < b < chosen.len() implies ranks_above(
        p,
        aggressive,
        #[trigger] chosen[a],
        #[trigger] chosen[b],
    ) by {
        assert(chosen[a] == stats[order[a]] && chosen[b] == stats[order[b]]);
        assert(p.before(stats, aggressive, order[a], order[b]));
    }
    assert forall|i: int, a: int|
        0 <= i < stats.len() && 0 <= a < chosen.len() && (#[trigger] stats[i]).freeable() > 0
            && !chosen.contains(stats[i]) implies ranks_above(
        p,
        aggressive,
        #[trigger] chosen[a],
        stats[i],
    ) by {
        assert(order.contains(i));
        let at = order.index_of(i);
        assert(order[at] == i);
        if at < n {
            assert(chosen[at] == stats[i]);
        }
        assert(p.before(stats, aggressive, order[a], order[at]));
        assert(chosen[a] == stats[order[a]]);
    }
    assert(takes_best(p, stats, plan, chosen));
}

/// Only one order ranks segments.
pub proof fn ranking_is_unique(
    p: GcPlanner,
    stats: Seq<SegmentStat>,
    n: int,
    aggressive: bool,
    a: Seq<int>,
    b: Seq<int>,
)
    requires
        p.is_ranking(stats, n, aggressive, a),
        p.is_ranking(stats, n, aggressive, b),
    ensures
        a == b,
{
    lemma_ranking_prefix(p, stats, n, aggressive, a, b, a.len() as int);
    lemma_ranking_prefix(p, stats, n, aggressive, b, a, b.len() as int);
    assert(a =~= b);
}

proof fn lemma_ranking_prefix(
    p: GcPlanner,
    stats: Seq<SegmentStat>,
    n: int,
    aggressive: bool,
    a: Seq<int>,
    b: Seq<int>,
    k: int,
)
    requires
        p.is_ranking(stats, n, aggressive, a),
        p.is_ranking(stats, n, aggressive, b),
        0 <= k <= a.len(),
    ensures
        k <= b.len(),
        forall|i: int| 0 <= i < k ==> a[i] == b[i],
    decreases k,
{
    if k > 0 {
        lemma_ranking_prefix(p, stats, n, aggressive, a, b, k - 1);
        let x = a[k - 1];
        assert(b.contains(x));
        let j = b.index_of(x);
        assert(0 <= j < b.len() && b[j] == x);
        if j < k - 1 {
            assert(a[j] == x);
            assert(p.before(stats, aggressive, a[j], a[k - 1]));
        } else if j > k - 1 {
            let y = b[k - 1];
            assert(p.before(stats, aggressive, b[k - 1], b[j]));
            assert(a.contains(y));
            let i = a.index_of(y);
            assert(0 <= i < a.len() && a[i] == y);
            if i < k - 1 {
                assert(b[i] == y);
                assert(p.before(stats, aggressive, b[i], b[k - 1]));
            } else if i > k - 1 {
                assert(p.before(stats, aggressive, a[k - 1], a[i]));
            }
        }
    }
}

proof fn lemma_mul_monotone(x: int, a: int, b: int)
    by (nonlinear_arith)
    requires
        0 <= x,
        a <= b,
    ensures
        x * a <= x * b,
{
}

proof fn lemma_div_monotone(a: int, b: int, d: int)
    requires
        a <= b,
        d > 0,
    ensures
        a / d <= b / d,
{
    vstd::arithmetic::div_mod::lemma_div_is_ordered(a, b, d);
}

proof fn lemma_div_antitone(x: int, c: int, d: int)
    requires
        0 <= x,
        0 < c <= d,
    ensures
        x / d <= x / c,
{
    vstd::arithmetic::div_mod::lemma_div_is_ordered_by_denominator(x, c, d);
}

proof fn lemma_cost_nonneg(p: GcPlanner, s: SegmentStat)
    ensures
        p.cost(s) >= 0,
{
    let w = p.wear_factor(s);
    assert(s.write_cycles * p.config.wear_bps_per_100_cycles >= 0) by (nonlinear_arith);
    assert(2 * s.live_bytes * w >= 0) by (nonlinear_arith)
        requires
            w >= 0,
    ;
    lemma_div_monotone(0, 2 * s.live_bytes * w, FIXED_ONE as int);
}

proof fn lemma_benefit_nonneg(p: GcPlanner, s: SegmentStat)
    ensures
        p.benefit(s) >= 0,
{
    let h = if p.config.age_half_life_ns == 0 {
        1
    } else {
        p.config.age_half_life_ns as int
    };
    lemma_quotient_no_larger(s.age_ns * FIXED_ONE, h);
    let f = p.age_factor(s);
    let x = s.freeable();
    assert(x * f >= 0) by (nonlinear_arith)
        requires
            x >= 0,
            f >= 0,
    ;
    lemma_div_monotone(0, x * f, FIXED_ONE as int);
}

/// What a segment is worth, by what it frees and what it costs to move what
/// lives in it: its live bytes are read and written. Nothing to free is worth
/// nothing. In a hurry only what it frees counts.
pub proof fn score_weighs_gain_against_cost(p: GcPlanner, s: SegmentStat)
    ensures
        s.total_bytes <= s.live_bytes ==> p.score_of(s, false) == 0 && p.score_of(s, true) == 0,
        s.total_bytes > s.live_bytes ==> p.score_of(s, true) == s.total_bytes - s.live_bytes,
        s.total_bytes > s.live_bytes && s.live_bytes > 0 && s.age_ns == 0 && s.write_cycles == 0 ==> {
            let exact = (s.total_bytes - s.live_bytes) * 1_048_576 / (2 * s.live_bytes);
            p.score_of(s, false) == (if exact > 0x7fff_ffff_ffff_ffff {
                0x7fff_ffff_ffff_ffff
            } else {
                exact
            })
        },
{
    if s.age_ns == 0 {
        age_and_wear_count_in_proportion(p, s, 0, 0);
    }
}

/// Each half-life of age adds the gain once more, and each hundred percent of
/// wear the cost once more.
pub proof fn age_and_wear_count_in_proportion(
    p: GcPlanner,
    s: SegmentStat,
    half_lives: int,
    wears: int,
)
    requires
        0 <= half_lives,
        0 <= wears,
    ensures
        s.age_ns == half_lives * (if p.config.age_half_life_ns == 0 {
            1int
        } else {
            p.config.age_half_life_ns as int
        }) ==> p.benefit(s) == s.freeable() * (1 + half_lives),
        s.write_cycles * p.config.wear_bps_per_100_cycles == 1_000_000 * wears && 10_000 * wears
            <= u64::MAX ==> p.cost(s) == 2 * s.live_bytes * (1 + wears),
{
    let one = FIXED_ONE as int;
    let hl = if p.config.age_half_life_ns == 0 {
        1int
    } else {
        p.config.age_half_life_ns as int
    };
    if s.age_ns == half_lives * hl {
        let f = s.freeable();
        assert((s.age_ns * one) / hl == half_lives * one) by (nonlinear_arith)
            requires
                s.age_ns == half_lives * hl,
                hl > 0,
        ;
        assert(p.age_factor(s) == one * (1 + half_lives)) by (nonlinear_arith)
            requires
                p.age_factor(s) == one + half_lives * one,
        ;
        assert((f * (one * (1 + half_lives))) / one == f * (1 + half_lives)) by (nonlinear_arith)
            requires
                one > 0,
        ;
    }
    if s.write_cycles * p.config.wear_bps_per_100_cycles == 1_000_000 * wears && 10_000 * wears
        <= u64::MAX {
        let live = s.live_bytes as int;
        assert(num::capped(s.write_cycles * p.config.wear_bps_per_100_cycles / 100) == 10_000
            * wears);
        assert((10_000 * wears * one) / 10_000 == wears * one) by (nonlinear_arith);
        assert(p.wear_factor(s) == one * (1 + wears)) by (nonlinear_arith)
            requires
                p.wear_factor(s) == one + wears * one,
        ;
        assert((2 * live * (one * (1 + wears))) / one == 2 * live * (1 + wears))
            by (nonlinear_arith)
            requires
                one > 0,
        ;
    }
}

/// A plan is made exactly if less is free than the mark says and something can
/// be freed; it is urgent exactly if less is free than the lower mark says.
pub proof fn plan_is_made_below_the_mark(
    p: GcPlanner,
    stats: Seq<SegmentStat>,
    total: u64,
    free: u64,
    r: Option<GcPlan>,
    i: int,
)
    requires
        p.plans(stats, total, free, r),
        total > 0,
    ensures
        free * 100 / total as int >= p.config.kick_pct ==> r is None,
        (forall|k: int|
            0 <= k < stats.len() ==> (#[trigger] stats[k]).total_bytes <= stats[k].live_bytes)
            ==> r is None,
        free * 100 / (total as int) < p.config.kick_pct && 0 <= i < stats.len()
            && stats[i].total_bytes > stats[i].live_bytes ==> {
            &&& r matches Some(plan)
            &&& plan.urgency is Aggressive <==> free * 100 / (total as int)
                < p.config.aggressive_pct
        },
{
    if forall|k: int|
        0 <= k < stats.len() ==> (#[trigger] stats[k]).total_bytes <= stats[k].live_bytes {
        assert(nothing_freeable(stats));
    }
    if 0 <= i < stats.len() && stats[i].total_bytes > stats[i].live_bytes {
        assert(stats[i].freeable() > 0);
    }
}

} // verus!
