//! Times of inodes, as seconds since the epoch.

use crate::fs::metadata::TimeOrNow;
use std::time::{Duration, SystemTime, UNIX_EPOCH};
use vstd::prelude::*;

verus! {

/// A point in time of the system clock.
#[verifier::external_type_specification]
#[verifier::external_body]
pub struct ExSystemTime(std::time::SystemTime);

/// The nanoseconds from the epoch to a point in time, negative for one before
/// it.
pub uninterp spec fn nanos_from_epoch(t: SystemTime) -> int;

/// The whole seconds from the epoch to a point in time, 0 for one before it.
pub open spec fn secs_after_epoch(t: SystemTime) -> int {
    if nanos_from_epoch(t) > 0 {
        nanos_from_epoch(t) / 1_000_000_000
    } else {
        0
    }
}

/// The seconds from the epoch to a point in time as a number with a sign.
pub open spec fn signed_secs(t: SystemTime) -> i64 {
    secs_after_epoch(t) as i64
}

/// Calls `SystemTime::now`: what the clock shows. Nothing is claimed of it.
#[verifier::external_body]
fn clock() -> (r: SystemTime) {
    SystemTime::now()
}

/// Calls `SystemTime::duration_since`: the whole seconds from the epoch to
/// `t`, `None` if `t` is earlier.
#[verifier::external_body]
fn since_epoch(t: SystemTime) -> (r: Option<u64>)
    ensures
        match r {
            Some(secs) => 0 <= nanos_from_epoch(t) && secs == nanos_from_epoch(t) / 1_000_000_000,
            None => nanos_from_epoch(t) < 0,
        },
{
    match t.duration_since(UNIX_EPOCH) {
        Ok(d) => Some(d.as_secs()),
        Err(_) => None,
    }
}

/// Calls `SystemTime::checked_add`: the point `secs` seconds after the epoch,
/// `None` only if the clock has no such point. Which points it has besides the
/// epoch is not said.
#[verifier::external_body]
fn after_epoch(secs: u64) -> (r: Option<SystemTime>)
    ensures
        secs == 0 ==> r is Some,
        r is None ==> forall|t: SystemTime| #[trigger]
            nanos_from_epoch(t) != secs * 1_000_000_000,
        r matches Some(t) ==> nanos_from_epoch(t) == secs * 1_000_000_000,
{
    UNIX_EPOCH.checked_add(Duration::from_secs(secs))
}

/// Calls `SystemTime::checked_sub`: the point `secs` seconds before the epoch,
/// `None` if the clock cannot hold it. Which points it holds is not said.
#[verifier::external_body]
fn before_epoch(secs: u64) -> (r: Option<SystemTime>)
    ensures
        r matches Some(t) ==> nanos_from_epoch(t) == -(secs * 1_000_000_000),
{
    UNIX_EPOCH.checked_sub(Duration::from_secs(secs))
}

/// The seconds of what `SystemTime::duration_since` gave, 0 for a time before
/// the epoch.
pub fn secs_or_zero(since: Option<u64>) -> (r: i64)
    ensures
        r == (match since {
            Some(secs) => secs as i64,
            None => 0,
        }),
{
    match since {
        Some(secs) => secs as i64,
        None => 0,
    }
}

/// The whole seconds from the epoch to `t`, 0 if `t` is earlier.
pub fn system_time_to_secs(t: SystemTime) -> (r: i64)
    ensures
        r == signed_secs(t),
{
    secs_or_zero(since_epoch(t))
}

/// The whole seconds from the epoch to what the clock shows, 0 if it is set
/// before the epoch.
pub fn now_secs() -> (r: i64)
    ensures
        exists|t: SystemTime| r == #[trigger] signed_secs(t),
{
    system_time_to_secs(clock())
}

/// The point in time `secs` seconds after the epoch, or before it if `secs`
/// is negative; `None` if the clock cannot hold it. It holds the epoch, and for
/// what is later `None` means that there is no such point in time.
pub fn secs_to_system_time(secs: i64) -> (r: Option<SystemTime>)
    ensures
        secs == 0 ==> r is Some,
        secs >= 0 && r is None ==> forall|t: SystemTime| #[trigger]
            nanos_from_epoch(t) != secs * 1_000_000_000,
        r matches Some(t) ==> nanos_from_epoch(t) == secs * 1_000_000_000,
{
    if secs >= 0 {
        after_epoch(secs as u64)
    } else {
        before_epoch((-(secs as i128)) as u64)
    }
}

/// The seconds that a time to set stands for.
pub open spec fn resolved(t: TimeOrNow, now: i64) -> i64 {
    match t {
        TimeOrNow::At(secs) => secs,
        TimeOrNow::Now => now,
    }
}

/// The seconds that a time to set stands for.
pub fn resolve_time_or_now(t: TimeOrNow, now: i64) -> (r: i64)
    ensures
        r == resolved(t, now),
{
    match t {
        TimeOrNow::At(secs) => secs,
        TimeOrNow::Now => now,
    }
}

/// The three times of an inode.
#[derive(Debug, Clone, Copy, PartialEq, Eq, Structural)]
pub struct Timestamps {
    /// Last access.
    pub atime: i64,
    /// Last change of the contents.
    pub mtime: i64,
    /// Last change of the inode.
    pub ctime: i64,
}

impl Timestamps {
    /// All three at `now`.
    pub fn at(now: i64) -> (r: Self)
        ensures
            r == (Timestamps { atime: now, mtime: now, ctime: now }),
    {
        Timestamps { atime: now, mtime: now, ctime: now }
    }

    /// All three at what the clock shows.
    pub fn now() -> (r: Self)
        ensures
            r.atime == r.mtime == r.ctime,
            exists|t: SystemTime| r.ctime == #[trigger] signed_secs(t),
    {
        Self::at(now_secs())
    }

    /// The times after a change of the inode alone at `now`.
    pub fn touched_at(self, now: i64) -> (r: Self)
        ensures
            r == (Timestamps { ctime: now, ..self }),
    {
        Timestamps { ctime: now, ..self }
    }

    /// The times after a change of the inode alone at what the clock shows.
    pub fn touched_metadata(self) -> (r: Self)
        ensures
            exists|t: SystemTime| r == (Timestamps { ctime: #[trigger] signed_secs(t), ..self }),
    {
        self.touched_at(now_secs())
    }
}

/// Seconds after the epoch come back from the clock's form as they went in: the
/// point in time that they stand for has them.
pub proof fn system_time_roundtrip(secs: i64, t: SystemTime, back: i64)
    requires
        0 <= secs,
        nanos_from_epoch(t) == secs * 1_000_000_000,
        back == signed_secs(t),
    ensures
        back == secs,
{
}

/// A time counts the whole seconds that have passed since the epoch, and none
/// before it.
pub proof fn times_count_whole_seconds(t: SystemTime)
    requires
        nanos_from_epoch(t) < 0x7fff_ffff_ffff_ffff * 1_000_000_000,
    ensures
        nanos_from_epoch(t) < 1_000_000_000 ==> signed_secs(t) == 0,
        nanos_from_epoch(t) >= 0 ==> signed_secs(t) * 1_000_000_000 <= nanos_from_epoch(t) < (
        signed_secs(t) + 1) * 1_000_000_000,
{
}

/// A time that was given is taken as it is; the time of now is the clock's.
pub proof fn given_time_is_taken(secs: i64, now: i64)
    ensures
        resolved(TimeOrNow::At(secs), now) == secs,
        resolved(TimeOrNow::Now, now) == now,
{
}

} // verus!
