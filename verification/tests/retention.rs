use lionfs::fs::retention::{
    apply_retention, calendar_month_key, calendar_year_key, days_from_civil, is_leap, iso_week_key,
    year_and_day_of_year, RetentionPolicy, SnapshotStamp,
};

const HOUR: u64 = 3_600;
const DAY: u64 = 86_400;

fn snaps_at(times: &[u64]) -> Vec<SnapshotStamp> {
    times
        .iter()
        .enumerate()
        .map(|(i, &t)| SnapshotStamp { id: (i + 1) as u64, at: t })
        .collect()
}

#[test]
fn empty_input_keeps_nothing() {
    let r = apply_retention(&[], &RetentionPolicy::default());
    assert!(r.keep.is_empty());
    assert!(r.expire.is_empty());
}

#[test]
fn hourly_budget_keeps_newest_n() {
    // 30 hourly snapshots; default keeps 24, expires 6 oldest.
    let times: Vec<u64> = (0..30).map(|i| 1_700_000_000 + i * HOUR).collect();
    let snaps = snaps_at(&times);
    let r = apply_retention(&snaps, &RetentionPolicy::default());
    assert_eq!(r.keep.len() + r.expire.len(), 30);
    // Every snapshot is in exactly one set.
    assert!(!r.keep.is_empty());
    // The newest 24 hourly... daily representatives may pull older
    // ones into keep, so expire is the tail older than what any
    // tier wants.
    assert_eq!(r.expire.len(), 30 - r.keep.len());
    // The oldest snapshot (id 1) is expired: 30 hours spans < a
    // day boundary? 1.7e9 + 30h... all within ~1.25 days: only the
    // newest daily representative survives; older-than-hourly-24
    // entries within the same day are redundant and expire.
    assert!(r.expire.contains(&1));
}

#[test]
fn daily_representatives_are_kept_not_hourly() {
    // Two snapshots per day, 20 days, hourly budget 0: the newest
    // per day must survive (daily budget 14 keeps 14 days).
    let policy = RetentionPolicy {
        hourly: 0,
        ..RetentionPolicy::default()
    };
    let mut times = Vec::new();
    for d in 0..20u64 {
        times.push(1_700_000_000 + d * DAY);
        times.push(1_700_000_000 + d * DAY + 6 * HOUR);
    }
    let snaps = snaps_at(&times);
    let r = apply_retention(&snaps, &policy);
    // Daily (14) + weekly/monthly/yearly representatives from the
    // older days: at least the daily budget, at most all 20 days.
    assert!(r.keep.len() >= 14, "keep {} {:?}", r.keep.len(), r.keep);
    assert!(r.keep.len() <= 20, "keep {} {:?}", r.keep.len(), r.keep);
    // The newest snapshot of the newest day is kept.
    assert!(r.keep.contains(&40)); // id 40 = day 19's 6pm snapshot
    // No keep entry appears in expire.
    for id in &r.keep {
        assert!(!r.expire.contains(id));
    }
}

#[test]
fn single_snapshot_is_kept() {
    let snaps = snaps_at(&[1_700_000_000]);
    let r = apply_retention(&snaps, &RetentionPolicy::default());
    assert_eq!(r.keep, vec![1]);
    assert!(r.expire.is_empty());
}

#[test]
fn zero_budgets_expire_everything() {
    let snaps = snaps_at(&[100, 200, 300]);
    let policy = RetentionPolicy::default_all_zero();
    let r = apply_retention(&snaps, &policy);
    assert!(r.keep.is_empty());
    assert_eq!(r.expire.len(), 3);
}

#[test]
fn unsorted_input_is_handled() {
    let mut times: Vec<u64> = (0..10).map(|i| 1_700_000_000 + i * HOUR).collect();
    times.reverse();
    let snaps = snaps_at(&times);
    let sorted = snaps_at(&[1_700_000_000, 1_700_000_000 + HOUR, 1_700_000_000 + 2 * HOUR, 1_700_000_000 + 3 * HOUR, 1_700_000_000 + 4 * HOUR, 1_700_000_000 + 5 * HOUR, 1_700_000_000 + 6 * HOUR, 1_700_000_000 + 7 * HOUR, 1_700_000_000 + 8 * HOUR, 1_700_000_000 + 9 * HOUR]);
    let r1 = apply_retention(&snaps, &RetentionPolicy::default());
    let r2 = apply_retention(&sorted, &RetentionPolicy::default());
    assert_eq!(r1.keep.len(), r2.keep.len());
    // Same sets regardless of input order.
    let mut k1 = r1.keep.clone();
    let mut k2 = r2.keep.clone();
    k1.sort_unstable();
    k2.sort_unstable();
    assert_eq!(k1, k2);
}

#[test]
fn year_boundary_math_is_sane() {
    // 1970-01-01 (day 0): year 1970, doy 0.
    assert_eq!(year_and_day_of_year(0), (1970, 0));
    // 2024-02-29 is day 60 of leap year 2024 (doy 59 0-based).
    let d = days_from_civil(2024, 3, 1);
    assert_eq!(year_and_day_of_year(d - 1), (2024, 59));
    assert_eq!(days_from_civil(1970, 1, 1), 0);
    // Leap years.
    assert!(is_leap(2024));
    assert!(!is_leap(2023));
    assert!(!is_leap(1900));
    assert!(is_leap(2000));
}

#[test]
fn iso_week_keys_are_monday_aligned() {
    // 2024-01-01 (Mon) and 2024-01-04 (Thu): same ISO week.
    let mon = days_from_civil(2024, 1, 1) as u64 * DAY;
    let thu = days_from_civil(2024, 1, 4) as u64 * DAY;
    assert_eq!(iso_week_key(mon * 1), iso_week_key(thu * 1));
    // 2024-01-07 (Sun) is still week 1; 2024-01-08 (Mon) is week 2.
    let sun = days_from_civil(2024, 1, 7) as u64 * DAY;
    let next_mon = days_from_civil(2024, 1, 8) as u64 * DAY;
    assert_eq!(iso_week_key(sun), iso_week_key(mon));
    assert_ne!(iso_week_key(next_mon), iso_week_key(mon));
    // Week 1 of 2021 started 2021-01-04 (Mon) because 2021-01-01
    // was a Friday.
    let fri2021 = days_from_civil(2021, 1, 1) as u64 * DAY;
    let mon2021w2 = days_from_civil(2021, 1, 11) as u64 * DAY;
    // 2021-01-01 (Fri) belongs to ISO week 53 of 2020.
    assert_eq!(iso_week_key(fri2021) / 100, 2020);
    assert_eq!(iso_week_key(fri2021) % 100, 53);
    assert_eq!(iso_week_key(mon2021w2) / 100, 2021);
    assert_eq!(iso_week_key(mon2021w2) % 100, 2);
}

#[test]
fn month_keys_bucket_correctly() {
    // Any two times within January 2024 share a month key; Feb 1
    // differs.
    let jan_a = days_from_civil(2024, 1, 3) as u64 * DAY + 3_600;
    let jan_b = days_from_civil(2024, 1, 31) as u64 * DAY + 3_600;
    let feb_1 = days_from_civil(2024, 2, 1) as u64 * DAY + 3_600;
    assert_eq!(calendar_month_key(jan_a), calendar_month_key(jan_b));
    assert_ne!(calendar_month_key(jan_a), calendar_month_key(feb_1));
    // Year key boundary.
    assert_eq!(calendar_year_key(jan_a), 2024);
}
