use lionfs::gc::{GcConfig, GcPlanner, GcUrgency, ReclaimEvent, SegmentStat};

const HOUR: u64 = 3600 * 1_000_000_000;
const DAY: u64 = 24 * HOUR;
const SEG: u64 = 256 << 20; // 256 MiB segments

fn seg(id: u64, live: u64, age_ns: u64, cycles: u64) -> SegmentStat {
    SegmentStat {
        segment_id: id,
        total_bytes: SEG,
        live_bytes: live,
        age_ns,
        write_cycles: cycles,
    }
}

#[test]
fn freeable_and_live_bps() {
    let s = seg(1, SEG / 4, 0, 0);
    assert_eq!(s.freeable_bytes(), 3 * SEG / 4);
    assert_eq!(s.live_bps(), 2_500);
    assert_eq!(seg(1, 0, 0, 0).live_bps(), 0);
    // Degenerate: zero-size segment is all-live-zero, not a div-by-zero.
    assert_eq!(
        SegmentStat { segment_id: 9, total_bytes: 0, live_bytes: 0, age_ns: 0, write_cycles: 0 }.live_bps(),
        0
    );
}

#[test]
fn healthy_pool_plans_nothing() {
    let p = GcPlanner::default();
    let stats = vec![seg(1, 0, DAY, 0)];
    assert!(p.plan(&stats, 100 * SEG, 50 * SEG).is_none()); // 50% free
}

#[test]
fn background_mode_between_watermarks() {
    let p = GcPlanner::default(); // kick 20%, aggressive 8%
    let stats = vec![seg(1, SEG / 2, DAY, 0)];
    let plan = p.plan(&stats, 100 * SEG, 15 * SEG).expect("15% free -> background");
    assert_eq!(plan.urgency, GcUrgency::Background);
    assert_eq!(plan.segments, vec![1]);
    assert_eq!(plan.estimated_reclaimed_bytes, SEG / 2);
    assert_eq!(plan.estimated_copy_bytes, SEG); // 2x live
}

#[test]
fn panic_mode_below_aggressive_watermark() {
    let p = GcPlanner::default();
    // Two candidates: an old 90%-dead segment and a young 10%-dead
    // one. Panic mode must pick by pure freeable bytes.
    let old = seg(1, SEG / 10, 30 * DAY, 0);
    let young_dead = seg(2, 9 * SEG / 10, HOUR, 0);
    let plan = p
        .plan(&[young_dead, old], 100 * SEG, 5 * SEG)
        .expect("5% free -> aggressive");
    assert_eq!(plan.urgency, GcUrgency::Aggressive);
    assert_eq!(plan.segments.first().copied(), Some(1)); // most freeable first
}

#[test]
fn age_prior_prefers_cold_segments() {
    let p = GcPlanner::default();
    // Identical freeable/live, different ages: the older one must
    // score higher.
    let cold = seg(1, SEG / 2, 30 * DAY, 0);
    let hot = seg(2, SEG / 2, HOUR, 0);
    assert!(p.score(&cold, false) > p.score(&hot, false));
}

#[test]
fn wear_penalty_favors_undamaged_segments() {
    let p = GcPlanner::default();
    let fresh = seg(1, SEG / 2, DAY, 0);
    let worn = seg(2, SEG / 2, DAY, 5_000); // 5000 cycles
    assert!(p.score(&fresh, false) > p.score(&worn, false));
}

#[test]
fn fully_dead_segment_scores_maximal() {
    let p = GcPlanner::default();
    let dead = seg(1, 0, HOUR, 0);
    assert_eq!(p.score(&dead, false), u64::MAX / 2);
}

#[test]
fn zero_freeable_segment_never_scores() {
    let p = GcPlanner::default();
    assert_eq!(p.score(&seg(1, SEG, DAY, 0), false), 0);
}

#[test]
fn plan_is_capped_at_max_segments() {
    let mut cfg = GcConfig::default();
    cfg.max_segments_per_plan = 3;
    let p = GcPlanner::new(cfg);
    let stats: Vec<SegmentStat> = (0..10).map(|i| seg(i, SEG / 4, DAY, 0)).collect();
    let plan = p.plan(&stats, 100 * SEG, 10 * SEG).expect("10% free -> aggressive");
    assert_eq!(plan.segments.len(), 3);
    // Deterministic tiebreak: equal scores order by segment id.
    assert_eq!(plan.segments, vec![0, 1, 2]);
}

#[test]
fn all_live_pool_plans_nothing_even_when_low_on_space() {
    // Free space below watermark but every segment 100% live: the
    // honest answer is None -- the pool is full of live data, and
    // the operator needs to hear that, not get an infinite loop.
    let p = GcPlanner::default();
    let stats = vec![seg(1, SEG, DAY, 0), seg(2, SEG, DAY, 0)];
    assert!(p.plan(&stats, 100 * SEG, 5 * SEG).is_none());
}

#[test]
fn custom_watermarks_are_respected() {
    let mut cfg = GcConfig::default();
    cfg.kick_pct = 50;
    cfg.aggressive_pct = 25;
    let p = GcPlanner::new(cfg);
    let stats = vec![seg(1, SEG / 2, DAY, 0)];
    // 40% free: below custom kick (50%), above aggressive (25%).
    let plan = p.plan(&stats, 100 * SEG, 40 * SEG).expect("40% < 50%");
    assert_eq!(plan.urgency, GcUrgency::Background);
    // 20% free: below custom aggressive.
    let plan = p.plan(&stats, 100 * SEG, 20 * SEG).expect("20% < 25%");
    assert_eq!(plan.urgency, GcUrgency::Aggressive);
}

#[test]
fn reclaim_event_is_a_plain_record() {
    let e = ReclaimEvent { segment_id: 3, freed_bytes: 4096, at_ns: 99 };
    assert_eq!(e, e);
}

#[test]
fn huge_pools_are_measured_exactly() {
    let full = seg(1, 1 << 60, 1 << 60, 0);
    assert_eq!(
        SegmentStat { total_bytes: 1 << 60, live_bytes: 1 << 60, ..full }.live_bps(),
        10_000
    );
    let dead = SegmentStat { total_bytes: 1 << 60, live_bytes: 0, ..full };
    let p = GcPlanner::default();
    assert!(p.plan(&[dead], 1 << 60, 1 << 60).is_none());
    let plan = p.plan(&[dead], 1 << 60, (1 << 60) / 100 * 7).expect("7% free");
    assert_eq!(plan.urgency, GcUrgency::Aggressive);
}

#[test]
fn a_plan_takes_the_best_segments() {
    let mut cfg = GcConfig::default();
    cfg.max_segments_per_plan = 2;
    let p = GcPlanner::new(cfg);
    let stats = [
        seg(7, SEG / 2, DAY, 0),
        seg(5, SEG, DAY, 0),
        seg(4, SEG / 4, DAY, 0),
        seg(3, SEG / 2, DAY, 0),
    ];
    for free in [5 * SEG, 15 * SEG] {
        let plan = p.plan(&stats, 100 * SEG, free).expect("short of space");
        assert_eq!(plan.segments, vec![4, 3]);
        assert_eq!(plan.estimated_copy_bytes, SEG / 2 + SEG);
        assert_eq!(plan.estimated_reclaimed_bytes, 3 * SEG / 4 + SEG / 2);
    }
}
