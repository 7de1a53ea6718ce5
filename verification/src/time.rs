//! Instants and ages, in whole milliseconds since the Unix epoch.

use vstd::prelude::*;

verus! {

/// Milliseconds in one hour.
pub const MILLIS_PER_HOUR: i64 = 3_600_000;

/// Milliseconds in one day.
pub const MILLIS_PER_DAY: i64 = 86_400_000;

/// Whole hours elapsed from `then` to `now`; zero when `then` is not in the past.
pub open spec fn age_hours(now: int, then: int) -> int {
    if now <= then {
        0
    } else {
        (now - then) / (MILLIS_PER_HOUR as int)
    }
}

/// Whole days elapsed from `then` to `now`; zero when `then` is not in the past.
pub open spec fn age_days(now: int, then: int) -> int {
    if now <= then {
        0
    } else {
        (now - then) / (MILLIS_PER_DAY as int)
    }
}

/// True when an instant `hours` hours after `then` lies strictly before `now`.
pub open spec fn elapsed(now: int, then: int, hours: int) -> bool {
    now > then + hours * (MILLIS_PER_HOUR as int)
}

/// Computes [`age_hours`] for two instants.
pub fn hours_between(now: i64, then: i64) -> (hours: i64)
    ensures
        hours == age_hours(now as int, then as int),
{
    if now <= then {
        0
    } else {
        let diff: i128 = now as i128 - then as i128;
        let h: i128 = diff / (MILLIS_PER_HOUR as i128);
        h as i64
    }
}

/// Computes [`age_days`] for two instants.
pub fn days_between(now: i64, then: i64) -> (days: i64)
    ensures
        days == age_days(now as int, then as int),
{
    if now <= then {
        0
    } else {
        let diff: i128 = now as i128 - then as i128;
        let d: i128 = diff / (MILLIS_PER_DAY as i128);
        d as i64
    }
}

/// Decides [`elapsed`]: whether `hours` hours have passed since `then`.
pub fn has_elapsed(now: i64, then: i64, hours: u32) -> (passed: bool)
    ensures
        passed == elapsed(now as int, then as int, hours as int),
{
    let span: i128 = (hours as i128) * 3_600_000;
    let deadline: i128 = then as i128 + span;
    (now as i128) > deadline
}

/// `chrono::Utc::now` followed by `DateTime::timestamp_millis`: the system
/// clock's reading in milliseconds since the Unix epoch. Nothing is promised of
/// the value. chrono does not return from `now` on a machine whose clock is set
/// before 1970.
#[verifier::external_body]
pub(crate) fn current_millis() -> (now: i64) {
    chrono::Utc::now().timestamp_millis()
}

} // verus!
