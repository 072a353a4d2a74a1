//! What keeping snapshots by hours, days, weeks, months and years promises.

use crate::fs::retention;
use crate::fs::retention::{RetentionPolicy, SnapshotStamp, Tier};
use vstd::prelude::*;

verus! {

/// What a tier picks are snapshots that are not kept, with the newest first.
proof fn lemma_picks_are_newer(
    ordered: Seq<SnapshotStamp>,
    n: int,
    tier: Tier,
    budget: usize,
    kept: Seq<u64>,
    a: int,
) -> (j: int)
    requires
        0 <= n <= ordered.len(),
        0 <= a < retention::tier_picks(ordered, n, tier, budget, kept).len(),
    ensures
        0 <= j < n,
        retention::tier_picks(ordered, n, tier, budget, kept)[a] == ordered[j],
        !kept.contains(ordered[j].id),
    decreases n,
{
    let before = retention::tier_picks(ordered, n - 1, tier, budget, kept);
    if a < before.len() {
        lemma_picks_are_newer(ordered, n - 1, tier, budget, kept, a)
    } else {
        n - 1
    }
}

/// What a tier has picked stays picked.
proof fn lemma_picks_stay(
    ordered: Seq<SnapshotStamp>,
    m: int,
    n: int,
    tier: Tier,
    budget: usize,
    kept: Seq<u64>,
    id: u64,
)
    requires
        0 <= m <= n,
        retention::ids(retention::tier_picks(ordered, m, tier, budget, kept)).contains(id),
    ensures
        retention::ids(retention::tier_picks(ordered, n, tier, budget, kept)).contains(id),
    decreases n,
{
    if m < n {
        lemma_picks_stay(ordered, m, n - 1, tier, budget, kept, id);
        let before = retention::tier_picks(ordered, n - 1, tier, budget, kept);
        let k = choose|k: int| 0 <= k < retention::ids(before).len() && retention::ids(before)[k] == id;
        assert(retention::ids(retention::tier_picks(ordered, n, tier, budget, kept))[k] == id);
    }
}

/// A tier with room left for the span of a snapshot that is the newest of it
/// keeps that snapshot.
proof fn lemma_tier_keeps_newest_of_span(
    ordered: Seq<SnapshotStamp>,
    tier: Tier,
    budget: usize,
    kept: Seq<u64>,
    i: int,
    newer_spans: Set<int>,
)
    requires
        0 <= i < ordered.len(),
        newer_spans.finite(),
        newer_spans.len() < budget,
        forall|j: int|
            0 <= j < i && !kept.contains((#[trigger] ordered[j]).id) ==> newer_spans.contains(
                retention::span_of(tier, ordered[j].at),
            ) && retention::span_of(tier, ordered[j].at) != retention::span_of(tier, ordered[i].at),
    ensures
        retention::with_tier(ordered, tier, budget, kept).contains(ordered[i].id),
{
    let id = ordered[i].id;
    let picks = retention::tier_picks(ordered, i, tier, budget, kept);
    let keys = retention::spans(tier, picks);
    let all = retention::ids(retention::tier_picks(ordered, ordered.len() as int, tier, budget, kept));
    retention::tier_picks_one_of_each_span(ordered, i, tier, budget, kept);
    assert(keys.no_duplicates()) by {
        assert forall|a: int, b: int|
            0 <= a < keys.len() && 0 <= b < keys.len() && a != b implies keys[a] != keys[b] by {
            if a < b {
                assert(retention::span_of(tier, picks[a].at) != retention::span_of(tier, picks[b].at));
            } else {
                assert(retention::span_of(tier, picks[b].at) != retention::span_of(tier, picks[a].at));
            }
        }
    }
    assert forall|a: int| 0 <= a < keys.len() implies newer_spans.contains(#[trigger] keys[a])
        && keys[a] != retention::span_of(tier, ordered[i].at) by {
        let j = lemma_picks_are_newer(ordered, i, tier, budget, kept, a);
        assert(keys[a] == retention::span_of(tier, ordered[j].at));
    }
    assert(picks.len() <= newer_spans.len()) by {
        keys.unique_seq_to_set();
        assert(keys.to_set().subset_of(newer_spans));
        vstd::set_lib::lemma_len_subset(keys.to_set(), newer_spans);
    }
    retention::lemma_concat_contains(kept, all, id);
    if !kept.contains(id) {
        let next = retention::tier_picks(ordered, i + 1, tier, budget, kept);
        if !retention::ids(picks).contains(id) {
            assert(next == picks.push(ordered[i]));
            assert(retention::ids(next)[picks.len() as int] == id);
            lemma_picks_stay(ordered, i + 1, ordered.len() as int, tier, budget, kept, id);
        } else {
            lemma_picks_stay(ordered, i, ordered.len() as int, tier, budget, kept, id);
        }
    }
}

/// A tier without a budget keeps nothing more.
proof fn lemma_no_budget(ordered: Seq<SnapshotStamp>, tier: Tier, kept: Seq<u64>)
    ensures
        retention::with_tier(ordered, tier, 0, kept) == kept,
{
    retention::tier_picks_one_of_each_span(ordered, ordered.len() as int, tier, 0, kept);
    assert(retention::with_tier(ordered, tier, 0, kept) =~= kept);
}

/// Daily: of the days that have a snapshot which the hourly budget does not
/// keep, as many as the budget, the newest first, the newest such snapshot of
/// each is kept. `newer_days` holds the days of the newer ones.
pub proof fn newest_of_each_day_is_kept(
    ordered: Seq<SnapshotStamp>,
    policy: RetentionPolicy,
    i: int,
    newer_days: Set<int>,
)
    requires
        0 <= i < ordered.len(),
        newer_days.finite(),
        newer_days.len() < policy.daily,
        ({
            let early = retention::kept_of(
                ordered,
                RetentionPolicy { daily: 0, weekly: 0, monthly: 0, yearly: 0, ..policy },
            );
            forall|j: int|
                0 <= j < i && !early.contains((#[trigger] ordered[j]).id) ==> newer_days.contains(
                    ordered[j].at as int / 86_400,
                ) && ordered[j].at as int / 86_400 != ordered[i].at as int / 86_400
        }),
    ensures
        retention::kept_of(ordered, policy).contains(ordered[i].id),
{
    let id = ordered[i].id;
    let hourly = retention::newest(ordered, policy.hourly);
    let daily = retention::with_tier(ordered, Tier::Daily, policy.daily, hourly);
    let weekly = retention::with_tier(ordered, Tier::Weekly, policy.weekly, daily);
    let monthly = retention::with_tier(ordered, Tier::Monthly, policy.monthly, weekly);
    lemma_no_budget(ordered, Tier::Daily, hourly);
    lemma_no_budget(ordered, Tier::Weekly, hourly);
    lemma_no_budget(ordered, Tier::Monthly, hourly);
    lemma_no_budget(ordered, Tier::Yearly, hourly);
    lemma_tier_keeps_newest_of_span(ordered, Tier::Daily, policy.daily, hourly, i, newer_days);
    retention::lemma_tier_keeps_kept(ordered, Tier::Weekly, policy.weekly, daily, id);
    retention::lemma_tier_keeps_kept(ordered, Tier::Monthly, policy.monthly, weekly, id);
    retention::lemma_tier_keeps_kept(ordered, Tier::Yearly, policy.yearly, monthly, id);
}

/// Weekly: of the weeks, from Monday to Sunday, that have a snapshot which
/// neither the hourly nor the daily budget keeps, as many as the budget, the
/// newest first, the newest such snapshot of each is kept. `newer_weeks` holds
/// the weeks of the newer ones, counted from that of the epoch.
pub proof fn newest_of_each_week_is_kept(
    ordered: Seq<SnapshotStamp>,
    policy: RetentionPolicy,
    i: int,
    newer_weeks: Set<int>,
)
    requires
        0 <= i < ordered.len(),
        newer_weeks.finite(),
        newer_weeks.len() < policy.weekly,
        ({
            let early = retention::kept_of(
                ordered,
                RetentionPolicy { weekly: 0, monthly: 0, yearly: 0, ..policy },
            );
            forall|j: int|
                0 <= j < i && !early.contains((#[trigger] ordered[j]).id) ==> newer_weeks.contains(
                    (ordered[j].at as int / 86_400 + 3) / 7,
                ) && (ordered[j].at as int / 86_400 + 3) / 7 != (ordered[i].at as int / 86_400 + 3)
                    / 7
        }),
    ensures
        retention::kept_of(ordered, policy).contains(ordered[i].id),
{
    let id = ordered[i].id;
    let hourly = retention::newest(ordered, policy.hourly);
    let daily = retention::with_tier(ordered, Tier::Daily, policy.daily, hourly);
    let weekly = retention::with_tier(ordered, Tier::Weekly, policy.weekly, daily);
    let monthly = retention::with_tier(ordered, Tier::Monthly, policy.monthly, weekly);
    lemma_no_budget(ordered, Tier::Weekly, daily);
    lemma_no_budget(ordered, Tier::Monthly, daily);
    lemma_no_budget(ordered, Tier::Yearly, daily);
    let key = |w: int| retention::week_key(7 * w);
    let keys = newer_weeks.map(key);
    vstd::set_lib::lemma_map_size_bound(newer_weeks, keys, key);
    assert forall|j: int|
        0 <= j < i && !daily.contains((#[trigger] ordered[j]).id) implies keys.contains(
        retention::span_of(Tier::Weekly, ordered[j].at),
    ) && retention::span_of(Tier::Weekly, ordered[j].at) != retention::span_of(
        Tier::Weekly,
        ordered[i].at,
    ) by {
        let a = ordered[j].at as int / 86_400;
        let b = ordered[i].at as int / 86_400;
        weeks_run_from_monday_to_sunday(a, b);
        weeks_run_from_monday_to_sunday(a, 7 * ((a + 3) / 7));
        assert(key((a + 3) / 7) == retention::week_key(a));
    }
    lemma_tier_keeps_newest_of_span(ordered, Tier::Weekly, policy.weekly, daily, i, keys);
    retention::lemma_tier_keeps_kept(ordered, Tier::Monthly, policy.monthly, weekly, id);
    retention::lemma_tier_keeps_kept(ordered, Tier::Yearly, policy.yearly, monthly, id);
}

/// Monthly: of the calendar months that have a snapshot which no earlier budget
/// keeps, as many as the budget, the newest first, the newest such snapshot of
/// each is kept. `newer_months` holds the months of the newer ones.
pub proof fn newest_of_each_month_is_kept(
    ordered: Seq<SnapshotStamp>,
    policy: RetentionPolicy,
    i: int,
    newer_months: Set<int>,
)
    requires
        0 <= i < ordered.len(),
        newer_months.finite(),
        newer_months.len() < policy.monthly,
        ({
            let early = retention::kept_of(ordered, RetentionPolicy { monthly: 0, yearly: 0, ..policy });
            forall|j: int|
                0 <= j < i && !early.contains((#[trigger] ordered[j]).id)
                    ==> newer_months.contains(retention::month_key(ordered[j].at as int / 86_400))
                    && retention::month_key(ordered[j].at as int / 86_400) != retention::month_key(
                    ordered[i].at as int / 86_400,
                )
        }),
    ensures
        retention::kept_of(ordered, policy).contains(ordered[i].id),
{
    let id = ordered[i].id;
    let hourly = retention::newest(ordered, policy.hourly);
    let daily = retention::with_tier(ordered, Tier::Daily, policy.daily, hourly);
    let weekly = retention::with_tier(ordered, Tier::Weekly, policy.weekly, daily);
    let monthly = retention::with_tier(ordered, Tier::Monthly, policy.monthly, weekly);
    lemma_no_budget(ordered, Tier::Monthly, weekly);
    lemma_no_budget(ordered, Tier::Yearly, weekly);
    lemma_tier_keeps_newest_of_span(
        ordered,
        Tier::Monthly,
        policy.monthly,
        weekly,
        i,
        newer_months,
    );
    retention::lemma_tier_keeps_kept(ordered, Tier::Yearly, policy.yearly, monthly, id);
}

/// Yearly: of the years that have a snapshot which no earlier budget keeps, as
/// many as the budget, the newest first, the newest such snapshot of each is
/// kept. `newer_years` holds the years of the newer ones.
pub proof fn newest_of_each_year_is_kept(
    ordered: Seq<SnapshotStamp>,
    policy: RetentionPolicy,
    i: int,
    newer_years: Set<int>,
)
    requires
        0 <= i < ordered.len(),
        newer_years.finite(),
        newer_years.len() < policy.yearly,
        ({
            let early = retention::kept_of(ordered, RetentionPolicy { yearly: 0, ..policy });
            forall|j: int|
                0 <= j < i && !early.contains((#[trigger] ordered[j]).id) ==> newer_years.contains(
                    retention::year_of(ordered[j].at as int / 86_400),
                ) && retention::year_of(ordered[j].at as int / 86_400) != retention::year_of(
                    ordered[i].at as int / 86_400,
                )
        }),
    ensures
        retention::kept_of(ordered, policy).contains(ordered[i].id),
{
    let hourly = retention::newest(ordered, policy.hourly);
    let daily = retention::with_tier(ordered, Tier::Daily, policy.daily, hourly);
    let weekly = retention::with_tier(ordered, Tier::Weekly, policy.weekly, daily);
    let monthly = retention::with_tier(ordered, Tier::Monthly, policy.monthly, weekly);
    lemma_no_budget(ordered, Tier::Yearly, monthly);
    lemma_tier_keeps_newest_of_span(
        ordered,
        Tier::Yearly,
        policy.yearly,
        monthly,
        i,
        newer_years,
    );
}

/// With a budget for months alone, the newest snapshot of each of the newest
/// months, as many as the budget, is kept.
pub proof fn monthly_budget_keeps_newest_of_each_month(
    ordered: Seq<SnapshotStamp>,
    budget: usize,
    i: int,
    newer_months: Set<int>,
)
    requires
        0 <= i < ordered.len(),
        newer_months.finite(),
        newer_months.len() < budget,
        forall|j: int|
            0 <= j < i ==> newer_months.contains(
                retention::month_key((#[trigger] ordered[j]).at as int / 86_400),
            ) && retention::month_key(ordered[j].at as int / 86_400) != retention::month_key(
                ordered[i].at as int / 86_400,
            ),
    ensures
        retention::kept_of(
            ordered,
            RetentionPolicy { hourly: 0, daily: 0, weekly: 0, monthly: budget, yearly: 0 },
        ).contains(ordered[i].id),
{
    newest_of_each_month_is_kept(
        ordered,
        RetentionPolicy { hourly: 0, daily: 0, weekly: 0, monthly: budget, yearly: 0 },
        i,
        newer_months,
    );
}

/// Each budget adds at most that many snapshots to what the budgets before it
/// keep, and takes nothing back.
pub proof fn budgets_add_no_more_than_they_allow(
    ordered: Seq<SnapshotStamp>,
    policy: RetentionPolicy,
)
    ensures
        ({
            let h = retention::kept_of(
                ordered,
                RetentionPolicy { daily: 0, weekly: 0, monthly: 0, yearly: 0, ..policy },
            );
            let d = retention::kept_of(
                ordered,
                RetentionPolicy { weekly: 0, monthly: 0, yearly: 0, ..policy },
            );
            let w = retention::kept_of(ordered, RetentionPolicy { monthly: 0, yearly: 0, ..policy });
            let m = retention::kept_of(ordered, RetentionPolicy { yearly: 0, ..policy });
            let y = retention::kept_of(ordered, policy);
            &&& h.len() == (if policy.hourly <= ordered.len() {
                policy.hourly as int
            } else {
                ordered.len() as int
            })
            &&& h.is_prefix_of(d) && d.len() <= h.len() + policy.daily
            &&& d.is_prefix_of(w) && w.len() <= d.len() + policy.weekly
            &&& w.is_prefix_of(m) && m.len() <= w.len() + policy.monthly
            &&& m.is_prefix_of(y) && y.len() <= m.len() + policy.yearly
        }),
{
    let n = ordered.len() as int;
    let hourly = retention::newest(ordered, policy.hourly);
    let daily = retention::with_tier(ordered, Tier::Daily, policy.daily, hourly);
    let weekly = retention::with_tier(ordered, Tier::Weekly, policy.weekly, daily);
    let monthly = retention::with_tier(ordered, Tier::Monthly, policy.monthly, weekly);
    lemma_no_budget(ordered, Tier::Daily, hourly);
    lemma_no_budget(ordered, Tier::Weekly, hourly);
    lemma_no_budget(ordered, Tier::Monthly, hourly);
    lemma_no_budget(ordered, Tier::Yearly, hourly);
    lemma_no_budget(ordered, Tier::Weekly, daily);
    lemma_no_budget(ordered, Tier::Monthly, daily);
    lemma_no_budget(ordered, Tier::Yearly, daily);
    lemma_no_budget(ordered, Tier::Monthly, weekly);
    lemma_no_budget(ordered, Tier::Yearly, weekly);
    lemma_no_budget(ordered, Tier::Yearly, monthly);
    retention::tier_picks_one_of_each_span(ordered, n, Tier::Daily, policy.daily, hourly);
    retention::tier_picks_one_of_each_span(ordered, n, Tier::Weekly, policy.weekly, daily);
    retention::tier_picks_one_of_each_span(ordered, n, Tier::Monthly, policy.monthly, weekly);
    retention::tier_picks_one_of_each_span(ordered, n, Tier::Yearly, policy.yearly, monthly);
}

/// Two days are of one week exactly if no Monday lies between them: weeks begin
/// on Mondays, and 1970-01-01 was a Thursday.
pub proof fn weeks_run_from_monday_to_sunday(a: int, b: int)
    requires
        a >= -3,
        b >= -3,
    ensures
        retention::week_key(a) == retention::week_key(b) <==> (a + 3) / 7 == (b + 3) / 7,
{
    let ta = retention::thursday_of(a);
    let tb = retention::thursday_of(b);
    assert(ta == 7 * ((a + 3) / 7));
    assert(tb == 7 * ((b + 3) / 7));
    lemma_year_found(ta);
    lemma_year_found(tb);
    let ya = retention::year_of(ta);
    let yb = retention::year_of(tb);
    retention::lemma_year_length(ya);
    retention::lemma_year_length(yb);
    if retention::week_key(a) == retention::week_key(b) {
        assert(ya == yb);
    }
}

/// Every day has a year.
proof fn lemma_year_found(day: int)
    requires
        day >= 0,
    ensures
        ({
            let y = retention::year_of(day);
            retention::days_to_year(y) - 719_162 <= day < retention::days_to_year(y + 1) - 719_162
        }),
{
    lemma_year_after(day, 1970);
}

proof fn lemma_year_after(day: int, y: int)
    requires
        retention::days_to_year(y) - 719_162 <= day,
    ensures
        ({
            let z = retention::year_of(day);
            retention::days_to_year(z) - 719_162 <= day < retention::days_to_year(z + 1) - 719_162
        }),
    decreases day + 719_162 - retention::days_to_year(y),
{
    retention::lemma_year_length(y);
    if day < retention::days_to_year(y + 1) - 719_162 {
        retention::lemma_year_of(day, y);
    } else {
        lemma_year_after(day, y + 1);
    }
}

/// The year and the month of a day are those of its date: the months of a year
/// are numbered one after the other, those of the next year after them.
pub proof fn day_has_the_month_of_its_date(y: int, m: int, d: int)
    requires
        retention::valid_date(y, m, d),
    ensures
        retention::year_of(retention::day_number(y, m, d)) == y,
        retention::month_key(retention::day_number(y, m, d)) == 12 * y + (m - 1),
{
    let k = 12 * y + (m - 1);
    assert(k / 12 == y && k % 12 == m - 1);
    retention::lemma_month_length(k);
    retention::lemma_month_key(retention::day_number(y, m, d), k);
    retention::lemma_year_length(y);
    retention::lemma_year_of(retention::day_number(y, m, d), y);
}

/// Days are counted from 1970-01-01, and the day after a date is that of the
/// next date: the next of the month, else the first of the next month, else
/// the first of the next year. April, June, September and November have 30
/// days, February 28 or, in a leap year, 29, and the others 31.
pub proof fn dates_follow_one_another(y: int, m: int, d: int)
    requires
        retention::valid_date(y, m, d),
    ensures
        retention::day_number(1970, 1, 1) == 0,
        d < (if m == 2 {
            if y % 4 == 0 && (y % 100 != 0 || y % 400 == 0) {
                29int
            } else {
                28
            }
        } else if m == 4 || m == 6 || m == 9 || m == 11 {
            30
        } else {
            31
        }) <==> retention::valid_date(y, m, d + 1),
        retention::valid_date(y, m, d + 1) ==> retention::day_number(y, m, d + 1)
            == retention::day_number(y, m, d) + 1,
        !retention::valid_date(y, m, d + 1) && m < 12 ==> retention::day_number(y, m + 1, 1)
            == retention::day_number(y, m, d) + 1,
        !retention::valid_date(y, m, d + 1) && m == 12 ==> retention::day_number(y + 1, 1, 1)
            == retention::day_number(y, m, d) + 1,
{
    retention::lemma_year_length(y);
}

/// The newest comes first, and every snapshot is there.
pub proof fn order_is_newest_first(snaps: Seq<SnapshotStamp>, order: Seq<int>, a: int, b: int)
    requires
        retention::is_order(snaps, snaps.len() as int, order),
        0 <= a < b < order.len(),
    ensures
        retention::at_places(snaps, order)[a].at >= retention::at_places(snaps, order)[b].at,
        forall|i: int|
            0 <= i < snaps.len() ==> retention::at_places(snaps, order).contains(#[trigger] snaps[i]),
{
    let s = retention::at_places(snaps, order);
    assert(retention::newer(snaps, order[a], order[b]));
    assert forall|i: int| 0 <= i < snaps.len() implies s.contains(#[trigger] snaps[i]) by {
        assert(order.contains(i));
        let k = choose|k: int| 0 <= k < order.len() && order[k] == i;
        assert(s[k] == snaps[i]);
    }
}

} // verus!
