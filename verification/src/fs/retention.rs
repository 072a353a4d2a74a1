//! Which snapshots to keep: the newest ones, and one for each of the last
//! days, weeks, months and years.
//!
//! Times are seconds since 1970-01-01 UTC. Days begin at midnight UTC, weeks
//! on Monday; the first week of a year is the one with its first Thursday.

use vstd::prelude::*;

verus! {

/// How many snapshots each tier keeps.
#[derive(Clone, Copy, Debug, PartialEq, Eq, Structural)]
pub struct RetentionPolicy {
    pub hourly: usize,
    pub daily: usize,
    pub weekly: usize,
    pub monthly: usize,
    pub yearly: usize,
}

impl Default for RetentionPolicy {
    fn default() -> (r: Self)
        ensures
            r == (RetentionPolicy { hourly: 24, daily: 14, weekly: 8, monthly: 12, yearly: 3 }),
    {
        RetentionPolicy { hourly: 24, daily: 14, weekly: 8, monthly: 12, yearly: 3 }
    }
}

impl RetentionPolicy {
    /// The policy that keeps nothing.
    #[must_use]
    pub fn default_all_zero() -> (r: Self)
        ensures
            r == (RetentionPolicy { hourly: 0, daily: 0, weekly: 0, monthly: 0, yearly: 0 }),
    {
        RetentionPolicy { hourly: 0, daily: 0, weekly: 0, monthly: 0, yearly: 0 }
    }
}

/// A snapshot and when it was made.
#[derive(Clone, Copy, Debug, PartialEq, Eq, Structural)]
pub struct SnapshotStamp {
    pub id: u64,
    /// In seconds.
    pub at: u64,
}

/// What is kept and what expires.
#[derive(Clone, Debug, PartialEq, Eq)]
pub struct RetentionResult {
    /// The ids to keep: tier by tier, the newest first in each.
    pub keep: Vec<u64>,
    /// The ids that expire, the newest first.
    pub expire: Vec<u64>,
}

impl Default for RetentionResult {
    fn default() -> (r: Self)
        ensures
            r.keep@.len() == 0,
            r.expire@.len() == 0,
    {
        RetentionResult { keep: Vec::new(), expire: Vec::new() }
    }
}

/// A tier that keeps one snapshot for each span of time.
#[derive(Clone, Copy, Debug, PartialEq, Eq, Structural)]
pub enum Tier {
    Daily,
    Weekly,
    Monthly,
    Yearly,
}

/// The year has a 29th of February.
pub open spec fn leap(y: int) -> bool {
    (y % 4 == 0 && y % 100 != 0) || y % 400 == 0
}

/// The days from the first of January of the year 1 to that of `y`.
pub open spec fn days_to_year(y: int) -> int {
    365 * (y - 1) + (y - 1) / 4 - (y - 1) / 100 + (y - 1) / 400
}

/// The days of a year before its month `m`.
pub open spec fn days_to_month(y: int, m: int) -> int {
    let feb = if leap(y) {
        29int
    } else {
        28int
    };
    if m <= 1 {
        0
    } else if m == 2 {
        31
    } else if m == 3 {
        31 + feb
    } else if m == 4 {
        62 + feb
    } else if m == 5 {
        92 + feb
    } else if m == 6 {
        123 + feb
    } else if m == 7 {
        153 + feb
    } else if m == 8 {
        184 + feb
    } else if m == 9 {
        215 + feb
    } else if m == 10 {
        245 + feb
    } else if m == 11 {
        276 + feb
    } else if m == 12 {
        306 + feb
    } else {
        337 + feb
    }
}

/// The day of a date, counted from 1970-01-01.
pub open spec fn day_number(y: int, m: int, d: int) -> int {
    days_to_year(y) + days_to_month(y, m) + (d - 1) - 719_162
}

/// The date exists.
pub open spec fn valid_date(y: int, m: int, d: int) -> bool {
    &&& 1 <= m <= 12
    &&& 1 <= d <= days_to_month(y, m + 1) - days_to_month(y, m)
}

/// The year of a day.
pub open spec fn year_of(day: int) -> int {
    choose|y: int| #[trigger] days_to_year(y) - 719_162 <= day < days_to_year(y + 1) - 719_162
}

/// A day between two first days of years is of the first of these years.
pub proof fn lemma_year_of(day: int, y: int)
    requires
        days_to_year(y) - 719_162 <= day < days_to_year(y + 1) - 719_162,
    ensures
        year_of(day) == y,
{
    let c = year_of(day);
    assert(days_to_year(c) - 719_162 <= day < days_to_year(c + 1) - 719_162);
    if c < y {
        lemma_years_grow(c + 1, y);
    } else if y < c {
        lemma_years_grow(y + 1, c);
    }
}

proof fn lemma_years_grow(a: int, b: int)
    requires
        a <= b,
    ensures
        days_to_year(a) <= days_to_year(b),
{
    let x = a - 1;
    let y = b - 1;
    assert(x / 4 <= y / 4);
    assert(y / 100 - x / 100 <= (y - x) / 100 + 1);
    assert(x / 400 <= y / 400);
}

/// What the shifted arithmetic of a 400-year era comes to.
proof fn lemma_era(doe: int) -> (r: (int, int))
    requires
        0 <= doe <= 146_096,
    ensures
        ({
            let yoe = (doe - doe / 1_460 + doe / 36_524 - doe / 146_096) / 365;
            let doy = doe - (365 * yoe + yoe / 4 - yoe / 100);
            &&& r == (yoe, doy)
            &&& 0 <= yoe <= 399
            &&& 0 <= doy <= 365
            &&& doy == 365 ==> leap(yoe + 1)
        }),
{
    let yoe = (doe - doe / 1_460 + doe / 36_524 - doe / 146_096) / 365;
    let doy = doe - (365 * yoe + yoe / 4 - yoe / 100);
    (yoe, doy)
}

/// The date that the shifted arithmetic comes to is the right one.
proof fn lemma_civil(era: int, yoe: int, doy: int)
    requires
        0 <= yoe <= 399,
        0 <= doy <= 365,
        doy == 365 ==> leap(yoe + 1),
    ensures
        ({
            let mp = (5 * doy + 2) / 153;
            let d = doy - (153 * mp + 2) / 5 + 1;
            let m = if mp < 10 {
                mp + 3
            } else {
                mp - 9
            };
            let y = yoe + 400 * era + if m <= 2 {
                1int
            } else {
                0int
            };
            &&& 0 <= mp <= 11
            &&& 1 <= d <= 31
            &&& valid_date(y, m, d)
            &&& day_number(y, m, d) == era * 146_097 + 365 * yoe + yoe / 4 - yoe / 100 + doy
                - 719_468
        }),
{
    let mp = (5 * doy + 2) / 153;
    let y0 = yoe + 400 * era;
    assert(0 <= mp <= 11);
    assert(y0 / 4 == yoe / 4 + 100 * era);
    assert(y0 / 100 == yoe / 100 + 4 * era);
    assert(y0 / 400 == era);
    assert((y0 + 1) % 4 == (yoe + 1) % 4);
    assert((y0 + 1) % 100 == (yoe + 1) % 100);
    assert((y0 + 1) % 400 == (yoe + 1) % 400);
    assert(leap(y0 + 1) == leap(yoe + 1));
    assert(days_to_year(y0 + 1) == era * 146_097 + 365 * yoe + yoe / 4 - yoe / 100);
    assert(days_to_year(y0 + 1) - days_to_year(y0) == if leap(y0) {
        366int
    } else {
        365int
    }) by {
        lemma_year_length(y0);
    }
}

/// A year has 366 days if it is a leap year, and 365 if not.
pub proof fn lemma_year_length(y: int)
    ensures
        days_to_year(y + 1) - days_to_year(y) == if leap(y) {
            366int
        } else {
            365int
        },
{
    lemma_quotient_step(y, 4);
    lemma_quotient_step(y, 100);
    lemma_quotient_step(y, 400);
    assert(y % 400 == 0 ==> y % 100 == 0);
    assert(y % 100 == 0 ==> y % 4 == 0);
}

proof fn lemma_quotient_step(y: int, n: int)
    requires
        n == 4 || n == 100 || n == 400,
    ensures
        y / n - (y - 1) / n == if y % n == 0 {
            1int
        } else {
            0int
        },
{
}

/// The quotient that leaves no negative remainder.
fn floor_div(a: i64, b: i64) -> (r: i64)
    requires
        b > 0,
    ensures
        r == a as int / b as int,
        a >= 0 ==> r >= 0,
        r <= a || a < 0,
        a < 0 ==> a <= r,
{
    proof {
        lemma_quotient_bounds(a as int, b as int);
    }
    match a.checked_div_euclid(b) {
        Some(q) => q,
        None => 0,
    }
}

/// The remainder that is not negative.
fn floor_rem(a: i64, b: i64) -> (r: i64)
    requires
        b > 0,
    ensures
        r == a as int % b as int,
{
    match a.checked_rem_euclid(b) {
        Some(q) => q,
        None => 0,
    }
}

proof fn lemma_quotient_bounds(a: int, b: int)
    by (nonlinear_arith)
    requires
        b > 0,
    ensures
        a >= 0 ==> 0 <= a / b <= a,
        a < 0 ==> a <= a / b < 0,
{
}

/// Whether the year has a 29th of February.
pub fn is_leap(y: i64) -> (r: bool)
    ensures
        r == leap(y as int),
{
    (floor_rem(y, 4) == 0 && floor_rem(y, 100) != 0) || floor_rem(y, 400) == 0
}

/// The date of a day.
pub fn civil_from_days(days: i64) -> (r: (i64, i64, i64))
    requires
        days <= i64::MAX - 719_468,
    ensures
        valid_date(r.0 as int, r.1 as int, r.2 as int),
        day_number(r.0 as int, r.1 as int, r.2 as int) == days,
        -9_220_000_000_000_000_000 <= days <= 9_220_000_000_000_000_000 ==>
            -25_252_000_000_000_000 < r.0 < 25_252_000_000_000_000,
{
    let z: i64 = days + 719_468;
    let era: i64 = floor_div(z, 146_097);
    let doe: i64 = z - era * 146_097;
    let yoe: i64 = floor_div(
        doe - floor_div(doe, 1_460) + floor_div(doe, 36_524) - floor_div(doe, 146_096),
        365,
    );
    proof {
        let _ = lemma_era(doe as int);
    }
    let doy: i64 = doe - (365 * yoe + floor_div(yoe, 4) - floor_div(yoe, 100));
    let mp: i64 = floor_div(5 * doy + 2, 153);
    proof {
        lemma_civil(era as int, yoe as int, doy as int);
    }
    let d: i64 = doy - floor_div(153 * mp + 2, 5) + 1;
    let m: i64 = if mp < 10 {
        mp + 3
    } else {
        mp - 9
    };
    let y: i64 = yoe + era * 400 + if m <= 2 {
        1
    } else {
        0
    };
    (y, m, d)
}

/// The day of a date.
pub fn days_from_civil(y: i64, m: i64, d: i64) -> (r: i64)
    requires
        -25_252_000_000_000_000 < y < 25_252_000_000_000_000,
        1 <= m <= 12,
        1 <= d <= 31,
    ensures
        r == day_number(y as int, m as int, d as int),
{
    let y0: i64 = if m <= 2 {
        y - 1
    } else {
        y
    };
    let era: i64 = floor_div(y0, 400);
    let yoe: i64 = y0 - era * 400;
    let mp: i64 = if m <= 2 {
        m + 9
    } else {
        m - 3
    };
    let doy: i64 = floor_div(153 * mp + 2, 5) + d - 1;
    let doe: i64 = yoe * 365 + floor_div(yoe, 4) - floor_div(yoe, 100) + doy;
    proof {
        let ye = yoe as int;
        assert(y0 as int / 4 == ye / 4 + 100 * era);
        assert(y0 as int / 100 == ye / 100 + 4 * era);
        assert(days_to_year(y0 + 1) == era * 146_097 + 365 * ye + ye / 4 - ye / 100);
        lemma_year_length(y0 as int);
    }
    era * 146_097 + doe - 719_468
}

/// The year of a day, and the days of that year before it.
pub fn year_and_day_of_year(days: i64) -> (r: (i64, i64))
    requires
        -9_220_000_000_000_000_000 <= days <= 9_220_000_000_000_000_000,
    ensures
        r.0 == year_of(days as int),
        r.1 == days - day_number(year_of(days as int), 1, 1),
        0 <= r.1 < 366,
        days_to_year(r.0 as int) - 719_162 <= days < days_to_year(r.0 + 1) - 719_162,
        -25_252_000_000_000_000 < r.0 < 25_252_000_000_000_000,
{
    let (y, m, d) = civil_from_days(days);
    let jan1: i64 = days_from_civil(y, 1, 1);
    proof {
        lemma_year_length(y as int);
        lemma_year_of(days as int, y as int);
    }
    (y, days - jan1)
}

/// The Thursday of the week of a day.
pub open spec fn thursday_of(day: int) -> int {
    day - (day + 3) % 7 + 3
}

/// The week of a day: the year of its Thursday times a hundred, and which
/// Thursday of that year it is.
pub open spec fn week_key(day: int) -> int {
    let thursday = thursday_of(day);
    let y = year_of(thursday);
    y * 100 + (thursday - day_number(y, 1, 1)) / 7 + 1
}

/// The week, counted from that of 1970-01-01, with the first Thursday of a
/// year.
fn first_monday_week(y: i64) -> (r: i64)
    requires
        -25_252_000_000_000_000 < y < 25_252_000_000_000_000,
    ensures
        0 <= 7 * r - day_number(y as int, 1, 1) < 7,
{
    let jan1: i64 = days_from_civil(y, 1, 1);
    let since_monday: i64 = jan1 + 3;
    let weekday: i64 = since_monday - floor_div(since_monday, 7) * 7;
    let offset: i64 = if weekday <= 3 {
        -weekday
    } else {
        7 - weekday
    };
    floor_div(since_monday + offset, 7)
}

/// The week of a time: its year times a hundred and its number.
pub fn iso_week_key(unix_secs: u64) -> (r: u64)
    ensures
        r == week_key(unix_secs as int / 86_400),
{
    let days: i64 = (unix_secs / 86_400) as i64;
    let week: i64 = floor_div(days + 3, 7);
    let thursday: i64 = week * 7;
    assert(thursday == thursday_of(days as int));
    let (iso_year, _) = year_and_day_of_year(thursday);
    proof {
        lemma_epoch_year(thursday as int, iso_year as int);
    }
    let first: i64 = first_monday_week(iso_year);
    (iso_year * 100 + (week - first) + 1) as u64
}

proof fn lemma_epoch_year(day: int, y: int)
    requires
        day >= 0,
        days_to_year(y) - 719_162 <= day < days_to_year(y + 1) - 719_162,
    ensures
        y >= 1970,
{
    if y < 1970 {
        lemma_years_grow(y + 1, 1970);
    }
}

/// The first day of a month, the months counted from January of the year 0.
pub open spec fn first_of_month(k: int) -> int {
    day_number(k / 12, k % 12 + 1, 1)
}

/// The month of a day: its year times twelve and the months of it before.
pub open spec fn month_key(day: int) -> int {
    choose|k: int| #[trigger] first_of_month(k) <= day < first_of_month(k + 1)
}

/// A month begins where the one before ends.
pub proof fn lemma_month_length(k: int)
    ensures
        first_of_month(k + 1) == first_of_month(k) + days_to_month(k / 12, k % 12 + 2)
            - days_to_month(k / 12, k % 12 + 1),
        first_of_month(k + 1) > first_of_month(k),
{
    lemma_year_length(k / 12);
    if k % 12 == 11 {
        assert((k + 1) / 12 == k / 12 + 1);
        assert((k + 1) % 12 == 0);
    } else {
        assert((k + 1) / 12 == k / 12);
        assert((k + 1) % 12 == k % 12 + 1);
    }
}

proof fn lemma_months_grow(a: int, b: int)
    requires
        a <= b,
    ensures
        first_of_month(a) <= first_of_month(b),
    decreases b - a,
{
    if a < b {
        lemma_months_grow(a, b - 1);
        lemma_month_length(b - 1);
    }
}

/// A day between two first days of months is of the first of these months.
pub proof fn lemma_month_key(day: int, k: int)
    requires
        first_of_month(k) <= day < first_of_month(k + 1),
    ensures
        month_key(day) == k,
{
    let c = month_key(day);
    assert(first_of_month(c) <= day < first_of_month(c + 1));
    if c < k {
        lemma_months_grow(c + 1, k);
    } else if k < c {
        lemma_months_grow(k + 1, c);
    }
}

/// The month of a time: its year times twelve and the months of it before.
pub fn calendar_month_key(unix_secs: u64) -> (r: u64)
    ensures
        r == month_key(unix_secs as int / 86_400),
{
    let days: i64 = (unix_secs / 86_400) as i64;
    let (y, m, d) = civil_from_days(days);
    proof {
        let k = y * 12 + (m - 1);
        assert(k / 12 == y && k % 12 == m - 1);
        lemma_month_length(k);
        lemma_month_key(days as int, k);
        lemma_year_length(y as int);
        lemma_epoch_year(days as int, y as int);
    }
    (y * 12 + (m - 1)) as u64
}

/// The year of a time.
pub fn calendar_year_key(unix_secs: u64) -> (r: u64)
    ensures
        r == year_of(unix_secs as int / 86_400),
{
    let days: i64 = (unix_secs / 86_400) as i64;
    let (y, _) = year_and_day_of_year(days);
    proof {
        lemma_epoch_year(days as int, y as int);
    }
    y as u64
}

/// The span of time that a tier puts a time into.
pub open spec fn span_of(tier: Tier, at: u64) -> int {
    let day = at as int / 86_400;
    match tier {
        Tier::Daily => day,
        Tier::Weekly => week_key(day),
        Tier::Monthly => month_key(day),
        Tier::Yearly => year_of(day),
    }
}

fn span_key(tier: Tier, at: u64) -> (r: u64)
    ensures
        r == span_of(tier, at),
{
    match tier {
        Tier::Daily => at / 86_400,
        Tier::Weekly => iso_week_key(at),
        Tier::Monthly => calendar_month_key(at),
        Tier::Yearly => calendar_year_key(at),
    }
}

/// The ids of snapshots.
pub open spec fn ids(s: Seq<SnapshotStamp>) -> Seq<u64> {
    s.map_values(|x: SnapshotStamp| x.id)
}

/// The spans of time of snapshots.
pub open spec fn spans(tier: Tier, s: Seq<SnapshotStamp>) -> Seq<int> {
    s.map_values(|x: SnapshotStamp| span_of(tier, x.at))
}

/// The snapshot at `i` comes before the one at `j`: it is newer, or of the
/// same time and stands first.
pub open spec fn newer(snaps: Seq<SnapshotStamp>, i: int, j: int) -> bool {
    snaps[i].at > snaps[j].at || (snaps[i].at == snaps[j].at && i < j)
}

/// `order` holds the places of the first `n` snapshots, the newest first.
pub open spec fn is_order(snaps: Seq<SnapshotStamp>, n: int, order: Seq<int>) -> bool {
    &&& forall|a: int| 0 <= a < order.len() ==> 0 <= #[trigger] order[a] < n
    &&& forall|i: int| 0 <= i < n ==> #[trigger] order.contains(i)
    &&& forall|a: int, b: int|
        0 <= a < b < order.len() ==> newer(snaps, #[trigger] order[a], #[trigger] order[b])
}

/// The snapshots at places.
pub open spec fn at_places(snaps: Seq<SnapshotStamp>, order: Seq<int>) -> Seq<SnapshotStamp> {
    order.map_values(|i: int| snaps[i])
}

/// What a tier picks of the first `n` snapshots, the newest first: of each
/// span of time the first one that is not kept yet, as long as the budget
/// lasts.
pub open spec fn tier_picks(
    ordered: Seq<SnapshotStamp>,
    n: int,
    tier: Tier,
    budget: usize,
    kept: Seq<u64>,
) -> Seq<SnapshotStamp>
    decreases n,
{
    if n <= 0 {
        Seq::empty()
    } else {
        let before = tier_picks(ordered, n - 1, tier, budget, kept);
        let s = ordered[n - 1];
        if before.len() < budget && !kept.contains(s.id) && !ids(before).contains(s.id) && !spans(
            tier,
            before,
        ).contains(span_of(tier, s.at)) {
            before.push(s)
        } else {
            before
        }
    }
}

/// What is kept once a tier has picked.
pub open spec fn with_tier(
    ordered: Seq<SnapshotStamp>,
    tier: Tier,
    budget: usize,
    kept: Seq<u64>,
) -> Seq<u64> {
    kept + ids(tier_picks(ordered, ordered.len() as int, tier, budget, kept))
}

/// What the newest snapshots alone keep.
pub open spec fn newest(ordered: Seq<SnapshotStamp>, n: usize) -> Seq<u64> {
    ids(
        ordered.take(
            if n <= ordered.len() {
                n as int
            } else {
                ordered.len() as int
            },
        ),
    )
}

/// The ids to keep, given the snapshots with the newest first.
pub open spec fn kept_of(ordered: Seq<SnapshotStamp>, policy: RetentionPolicy) -> Seq<u64> {
    let hourly = newest(ordered, policy.hourly);
    let daily = with_tier(ordered, Tier::Daily, policy.daily, hourly);
    let weekly = with_tier(ordered, Tier::Weekly, policy.weekly, daily);
    let monthly = with_tier(ordered, Tier::Monthly, policy.monthly, weekly);
    with_tier(ordered, Tier::Yearly, policy.yearly, monthly)
}

/// The ids that expire, given those to keep.
pub open spec fn expired_of(ordered: Seq<SnapshotStamp>, kept: Seq<u64>) -> Seq<u64> {
    ids(ordered.filter(|s: SnapshotStamp| !kept.contains(s.id)))
}

/// Whether an id is among others.
fn has_id(ids: &Vec<u64>, id: u64) -> (r: bool)
    ensures
        r == ids@.contains(id),
{
    let mut i: usize = 0;
    while i < ids.len()
        invariant
            i <= ids@.len(),
            forall|j: int| 0 <= j < i ==> ids@[j] != id,
        decreases ids@.len() - i,
    {
        if ids[i] == id {
            return true;
        }
        i = i + 1;
    }
    false
}

/// The snapshots with the newest first; those of one time stay in order.
fn newest_first(snaps: &[SnapshotStamp]) -> (r: Vec<SnapshotStamp>)
    ensures
        exists|order: Seq<int>| #[trigger]
            is_order(snaps@, snaps@.len() as int, order) && r@ == at_places(snaps@, order),
{
    let mut out: Vec<SnapshotStamp> = Vec::new();
    let ghost mut order: Seq<int> = Seq::empty();
    let mut i: usize = 0;
    while i < snaps.len()
        invariant
            i <= snaps@.len(),
            is_order(snaps@, i as int, order),
            out@ == at_places(snaps@, order),
        decreases snaps@.len() - i,
    {
        let mut at: usize = out.len();
        while at > 0 && out[at - 1].at < snaps[i].at
            invariant
                at <= out@.len(),
                i < snaps@.len(),
                is_order(snaps@, i as int, order),
                out@ == at_places(snaps@, order),
                forall|a: int|
                    at <= a < order.len() ==> snaps@[#[trigger] order[a]].at < snaps@[i as int].at,
            decreases at,
        {
            assert(out@[at - 1] == snaps@[order[at - 1]]);
            at = at - 1;
        }
        out.insert(at, snaps[i]);
        proof {
            let before = order;
            if at > 0 {
                assert(at_places(snaps@, before)[at - 1] == snaps@[before[at - 1]]);
            }
            order = before.insert(at as int, i as int);
            assert(out@ =~= at_places(snaps@, order));
            lemma_order_inserted(snaps@, i as int, before, at as int);
        }
        i = i + 1;
    }
    out
}

proof fn lemma_order_inserted(snaps: Seq<SnapshotStamp>, i: int, before: Seq<int>, at: int)
    requires
        is_order(snaps, i, before),
        0 <= at <= before.len(),
        0 <= i,
        at > 0 ==> snaps[before[at - 1]].at >= snaps[i].at,
        forall|a: int| at <= a < before.len() ==> snaps[#[trigger] before[a]].at < snaps[i].at,
    ensures
        is_order(snaps, i + 1, before.insert(at, i)),
{
    let after = before.insert(at, i);
    assert forall|k: int| 0 <= k < i + 1 implies #[trigger] after.contains(k) by {
        if k == i {
            assert(after[at] == k);
        } else {
            assert(before.contains(k));
            let a = before.index_of(k);
            if a < at {
                assert(after[a] == k);
            } else {
                assert(after[a + 1] == k);
            }
        }
    }
    assert forall|a: int, b: int| 0 <= a < b < after.len() implies newer(
        snaps,
        #[trigger] after[a],
        #[trigger] after[b],
    ) by {
        let pa = if a < at {
            a
        } else {
            a - 1
        };
        let pb = if b < at {
            b
        } else {
            b - 1
        };
        if a != at {
            assert(after[a] == before[pa]);
        }
        if b != at {
            assert(after[b] == before[pb]);
        }
        if b == at {
            assert(newer(snaps, before[at - 1], i));
            if a < at - 1 {
                assert(newer(snaps, before[a], before[at - 1]));
            }
        }
    }
}

/// Adds what a tier picks to what is kept.
fn pick_representatives(
    ordered: &Vec<SnapshotStamp>,
    tier: Tier,
    budget: usize,
    keep: &mut Vec<u64>,
)
    ensures
        final(keep)@ == with_tier(ordered@, tier, budget, old(keep)@),
{
    let ghost kept = keep@;
    let mut seen: Vec<u64> = Vec::new();
    let mut i: usize = 0;
    assert(keep@ =~= kept + ids(tier_picks(ordered@, 0, tier, budget, kept)));
    while i < ordered.len()
        invariant
            i <= ordered@.len(),
            keep@ == kept + ids(tier_picks(ordered@, i as int, tier, budget, kept)),
            seen@.len() == tier_picks(ordered@, i as int, tier, budget, kept).len(),
            forall|a: int|
                0 <= a < seen@.len() ==> #[trigger] seen@[a] == span_of(
                    tier,
                    tier_picks(ordered@, i as int, tier, budget, kept)[a].at,
                ),
        decreases ordered@.len() - i,
    {
        let ghost before = tier_picks(ordered@, i as int, tier, budget, kept);
        let ghost next = tier_picks(ordered@, i + 1, tier, budget, kept);
        let s = ordered[i];
        let key = span_key(tier, s.at);
        let open_span = !has_id(&seen, key);
        let already = has_id(keep, s.id);
        proof {
            lemma_concat_contains(kept, ids(before), s.id);
            lemma_same_numbers(seen@, spans(tier, before), key);
        }
        if seen.len() < budget && !already && open_span {
            assert(next == before.push(s));
            keep.push(s.id);
            seen.push(key);
            assert(ids(next) =~= ids(before).push(s.id));
            assert(keep@ =~= kept + ids(next));
        }
        i = i + 1;
    }
}

/// What two lists hold together.
pub proof fn lemma_concat_contains(a: Seq<u64>, b: Seq<u64>, x: u64)
    ensures
        (a + b).contains(x) == (a.contains(x) || b.contains(x)),
{
    if a.contains(x) {
        let i = a.index_of(x);
        assert((a + b)[i] == x);
    }
    if b.contains(x) {
        let i = b.index_of(x);
        assert((a + b)[a.len() + i] == x);
    }
    if (a + b).contains(x) {
        let i = (a + b).index_of(x);
        if i < a.len() {
            assert(a[i] == x);
        } else {
            assert(b[i - a.len()] == x);
        }
    }
}

proof fn lemma_same_numbers(a: Seq<u64>, b: Seq<int>, x: u64)
    requires
        a.len() == b.len(),
        forall|i: int| 0 <= i < a.len() ==> #[trigger] a[i] == b[i],
    ensures
        a.contains(x) == b.contains(x as int),
{
    if a.contains(x) {
        let i = a.index_of(x);
        assert(b[i] == x);
    }
    if b.contains(x as int) {
        let i = b.index_of(x as int);
        assert(a[i] == x);
    }
}

/// Chooses which snapshots to keep and which expire.
#[must_use]
pub fn apply_retention(snaps: &[SnapshotStamp], policy: &RetentionPolicy) -> (r: RetentionResult)
    ensures
        exists|order: Seq<int>| #[trigger]
            is_order(snaps@, snaps@.len() as int, order) && {
                let ordered = at_places(snaps@, order);
                &&& r.keep@ == kept_of(ordered, *policy)
                &&& r.expire@ == expired_of(ordered, kept_of(ordered, *policy))
            },
{
    let ordered = newest_first(snaps);
    let mut keep: Vec<u64> = Vec::new();
    let mut i: usize = 0;
    while i < ordered.len() && i < policy.hourly
        invariant
            i <= ordered@.len(),
            i <= policy.hourly,
            keep@ =~= ids(ordered@.take(i as int)),
        decreases ordered@.len() - i,
    {
        assert(ids(ordered@.take(i + 1)) =~= ids(ordered@.take(i as int)).push(
            ordered@[i as int].id,
        ));
        keep.push(ordered[i].id);
        i = i + 1;
    }
    assert(keep@ == newest(ordered@, policy.hourly));
    pick_representatives(&ordered, Tier::Daily, policy.daily, &mut keep);
    pick_representatives(&ordered, Tier::Weekly, policy.weekly, &mut keep);
    pick_representatives(&ordered, Tier::Monthly, policy.monthly, &mut keep);
    pick_representatives(&ordered, Tier::Yearly, policy.yearly, &mut keep);
    let expire = not_kept(&ordered, &keep);
    RetentionResult { keep, expire }
}

fn not_kept(ordered: &Vec<SnapshotStamp>, keep: &Vec<u64>) -> (r: Vec<u64>)
    ensures
        r@ == expired_of(ordered@, keep@),
{
    let mut out: Vec<u64> = Vec::new();
    let mut i: usize = 0;
    proof {
        reveal(Seq::filter);
        assert(expired_of(ordered@.take(0), keep@) =~= Seq::empty());
    }
    while i < ordered.len()
        invariant
            i <= ordered@.len(),
            out@ == expired_of(ordered@.take(i as int), keep@),
        decreases ordered@.len() - i,
    {
        proof {
            lemma_expired_step(ordered@, keep@, i as int);
        }
        if !has_id(keep, ordered[i].id) {
            out.push(ordered[i].id);
        }
        i = i + 1;
    }
    assert(ordered@.take(ordered@.len() as int) =~= ordered@);
    out
}

proof fn lemma_expired_step(ordered: Seq<SnapshotStamp>, keep: Seq<u64>, i: int)
    requires
        0 <= i < ordered.len(),
    ensures
        expired_of(ordered.take(i + 1), keep) == (if keep.contains(ordered[i].id) {
            expired_of(ordered.take(i), keep)
        } else {
            expired_of(ordered.take(i), keep).push(ordered[i].id)
        }),
{
    reveal(Seq::filter);
    let p = |s: SnapshotStamp| !keep.contains(s.id);
    let next = ordered.take(i + 1);
    assert(next.drop_last() =~= ordered.take(i));
    assert(next.last() == ordered[i]);
    if !keep.contains(ordered[i].id) {
        assert(ids(ordered.take(i).filter(p).push(ordered[i])) =~= ids(
            ordered.take(i).filter(p),
        ).push(ordered[i].id));
    }
}

/// Each snapshot either is kept or expires.
pub proof fn every_snapshot_is_kept_or_expires(
    ordered: Seq<SnapshotStamp>,
    policy: RetentionPolicy,
    i: int,
)
    requires
        0 <= i < ordered.len(),
    ensures
        ({
            let kept = kept_of(ordered, policy);
            kept.contains(ordered[i].id) != expired_of(ordered, kept).contains(ordered[i].id)
        }),
{
    let kept = kept_of(ordered, policy);
    let p = |s: SnapshotStamp| !kept.contains(s.id);
    let rest = ordered.filter(p);
    let expired = expired_of(ordered, kept);
    assert(expired == ids(rest));
    if !kept.contains(ordered[i].id) {
        ordered.lemma_filter_contains(p, i);
        let k = rest.index_of(ordered[i]);
        assert(expired[k] == ordered[i].id);
    }
    if expired.contains(ordered[i].id) {
        let k = expired.index_of(ordered[i].id);
        ordered.lemma_filter_pred(p, k);
        assert(rest[k].id == ordered[i].id);
    }
}

/// A tier takes nothing back.
pub proof fn lemma_tier_keeps_kept(
    ordered: Seq<SnapshotStamp>,
    tier: Tier,
    budget: usize,
    kept: Seq<u64>,
    id: u64,
)
    requires
        kept.contains(id),
    ensures
        with_tier(ordered, tier, budget, kept).contains(id),
{
    lemma_concat_contains(
        kept,
        ids(tier_picks(ordered, ordered.len() as int, tier, budget, kept)),
        id,
    );
}

/// The newest snapshots, as many as the hourly budget, are kept.
pub proof fn newest_are_kept(ordered: Seq<SnapshotStamp>, policy: RetentionPolicy, i: int)
    requires
        0 <= i < ordered.len(),
        i < policy.hourly,
    ensures
        kept_of(ordered, policy).contains(ordered[i].id),
{
    let id = ordered[i].id;
    let hourly = newest(ordered, policy.hourly);
    assert(hourly[i] == id);
    let daily = with_tier(ordered, Tier::Daily, policy.daily, hourly);
    let weekly = with_tier(ordered, Tier::Weekly, policy.weekly, daily);
    let monthly = with_tier(ordered, Tier::Monthly, policy.monthly, weekly);
    lemma_tier_keeps_kept(ordered, Tier::Daily, policy.daily, hourly, id);
    lemma_tier_keeps_kept(ordered, Tier::Weekly, policy.weekly, daily, id);
    lemma_tier_keeps_kept(ordered, Tier::Monthly, policy.monthly, weekly, id);
    lemma_tier_keeps_kept(ordered, Tier::Yearly, policy.yearly, monthly, id);
}

/// A tier keeps to its budget, picks nothing that is kept already, and of a
/// span of time picks one snapshot.
pub proof fn tier_picks_one_of_each_span(
    ordered: Seq<SnapshotStamp>,
    n: int,
    tier: Tier,
    budget: usize,
    kept: Seq<u64>,
)
    requires
        0 <= n <= ordered.len(),
    ensures
        ({
            let picks = tier_picks(ordered, n, tier, budget, kept);
            &&& picks.len() <= budget
            &&& forall|a: int| 0 <= a < picks.len() ==> !kept.contains(#[trigger] picks[a].id)
            &&& forall|a: int, b: int|
                0 <= a < b < picks.len() ==> span_of(tier, (#[trigger] picks[a]).at) != span_of(
                    tier,
                    (#[trigger] picks[b]).at,
                )
        }),
    decreases n,
{
    if n > 0 {
        tier_picks_one_of_each_span(ordered, n - 1, tier, budget, kept);
        let before = tier_picks(ordered, n - 1, tier, budget, kept);
        let picks = tier_picks(ordered, n, tier, budget, kept);
        if picks != before {
            assert forall|a: int| 0 <= a < before.len() implies span_of(
                tier,
                (#[trigger] picks[a]).at,
            ) != span_of(tier, ordered[n - 1].at) by {
                assert(spans(tier, before)[a] == span_of(tier, before[a].at));
            }
        }
    }
}

/// What a tier leaves out is kept already, or is of a span of time of which a
/// newer snapshot was picked, or came when the budget was spent.
pub proof fn tier_leaves_out_only_what_it_may(
    ordered: Seq<SnapshotStamp>,
    n: int,
    tier: Tier,
    budget: usize,
    kept: Seq<u64>,
    i: int,
)
    requires
        0 <= i < n <= ordered.len(),
    ensures
        ({
            let picks = tier_picks(ordered, n, tier, budget, kept);
            let newer_picks = tier_picks(ordered, i, tier, budget, kept);
            ||| kept.contains(ordered[i].id)
            ||| ids(picks).contains(ordered[i].id)
            ||| spans(tier, newer_picks).contains(span_of(tier, ordered[i].at))
            ||| newer_picks.len() >= budget
        }),
    decreases n,
{
    let picks = tier_picks(ordered, n, tier, budget, kept);
    if n == i + 1 {
        let before = tier_picks(ordered, i, tier, budget, kept);
        if picks == before.push(ordered[i]) {
            assert(ids(picks)[before.len() as int] == ordered[i].id);
        }
    } else {
        tier_leaves_out_only_what_it_may(ordered, n - 1, tier, budget, kept, i);
        let before = tier_picks(ordered, n - 1, tier, budget, kept);
        if ids(before).contains(ordered[i].id) {
            let k = ids(before).index_of(ordered[i].id);
            assert(ids(picks)[k] == ordered[i].id);
        }
    }
}

/// Budgets of zero keep nothing.
pub proof fn zero_budgets_keep_nothing(ordered: Seq<SnapshotStamp>)
    ensures
        kept_of(
            ordered,
            RetentionPolicy { hourly: 0, daily: 0, weekly: 0, monthly: 0, yearly: 0 },
        ).len() == 0,
{
    let n = ordered.len() as int;
    let k0 = newest(ordered, 0);
    tier_picks_one_of_each_span(ordered, n, Tier::Daily, 0, k0);
    let k1 = with_tier(ordered, Tier::Daily, 0, k0);
    tier_picks_one_of_each_span(ordered, n, Tier::Weekly, 0, k1);
    let k2 = with_tier(ordered, Tier::Weekly, 0, k1);
    tier_picks_one_of_each_span(ordered, n, Tier::Monthly, 0, k2);
    let k3 = with_tier(ordered, Tier::Monthly, 0, k2);
    tier_picks_one_of_each_span(ordered, n, Tier::Yearly, 0, k3);
}

/// Where no two snapshots are of one time, it does not matter in which order
/// they come.
pub proof fn input_order_does_not_matter(
    a: Seq<SnapshotStamp>,
    b: Seq<SnapshotStamp>,
    order_a: Seq<int>,
    order_b: Seq<int>,
)
    requires
        is_order(a, a.len() as int, order_a),
        is_order(b, b.len() as int, order_b),
        forall|i: int, j: int|
            0 <= i < j < a.len() ==> (#[trigger] a[i]).at != (#[trigger] a[j]).at,
        forall|i: int, j: int|
            0 <= i < j < b.len() ==> (#[trigger] b[i]).at != (#[trigger] b[j]).at,
        forall|s: SnapshotStamp| #[trigger] a.contains(s) == b.contains(s),
    ensures
        at_places(a, order_a) == at_places(b, order_b),
{
    lemma_same_prefix(a, b, order_a, order_b, order_a.len() as int);
    lemma_same_prefix(b, a, order_b, order_a, order_b.len() as int);
    assert(at_places(a, order_a) =~= at_places(b, order_b));
}

proof fn lemma_same_prefix(
    a: Seq<SnapshotStamp>,
    b: Seq<SnapshotStamp>,
    order_a: Seq<int>,
    order_b: Seq<int>,
    k: int,
)
    requires
        is_order(a, a.len() as int, order_a),
        is_order(b, b.len() as int, order_b),
        forall|i: int, j: int|
            0 <= i < j < a.len() ==> (#[trigger] a[i]).at != (#[trigger] a[j]).at,
        forall|i: int, j: int|
            0 <= i < j < b.len() ==> (#[trigger] b[i]).at != (#[trigger] b[j]).at,
        forall|s: SnapshotStamp| #[trigger] a.contains(s) == b.contains(s),
        0 <= k <= order_a.len(),
    ensures
        k <= order_b.len(),
        forall|i: int| 0 <= i < k ==> a[#[trigger] order_a[i]] == b[order_b[i]],
    decreases k,
{
    if k > 0 {
        lemma_same_prefix(a, b, order_a, order_b, k - 1);
        let x = a[order_a[k - 1]];
        assert(a.contains(x));
        let jb = b.index_of(x);
        assert(order_b.contains(jb));
        let j = order_b.index_of(jb);
        assert(b[order_b[j]] == x);
        if j < k - 1 {
            assert(a[order_a[j]] == x);
            assert(newer(a, order_a[j], order_a[k - 1]));
        } else if j > k - 1 {
            let y = b[order_b[k - 1]];
            assert(newer(b, order_b[k - 1], order_b[j]));
            assert(b.contains(y));
            assert(a.contains(y));
            let ia = a.index_of(y);
            assert(order_a.contains(ia));
            let i = order_a.index_of(ia);
            assert(a[order_a[i]] == y);
            if i < k - 1 {
                assert(b[order_b[i]] == y);
                assert(newer(b, order_b[i], order_b[k - 1]));
            } else if i > k - 1 {
                assert(newer(a, order_a[k - 1], order_a[i]));
            }
        }
    }
}

} // verus!
