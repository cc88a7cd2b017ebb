//! The wall clock the rules are timed by.
use vstd::prelude::*;

verus! {

/// Milliseconds since the Unix epoch, from `std::time::SystemTime::now`.
/// Nothing is claimed of the value: it is whatever the system clock reads,
/// and two reads may go backwards if the clock is stepped.
#[verifier::external_body]
pub(crate) fn now_ms() -> (ms: u64) {
    match std::time::SystemTime::now().duration_since(std::time::UNIX_EPOCH) {
        Ok(d) => d.as_millis() as u64,
        Err(_) => 0,
    }
}

} // verus!

verus! {

/// The latest second `time` represents: 9999-12-31T23:59:59Z.
pub const LAST_REPRESENTABLE_SECOND: i64 = 253_402_300_799;

/// The UTC calendar date (year, month 1-12, day 1-31) of a Unix timestamp
/// in seconds, as the `time` crate computes it.
pub uninterp spec fn utc_calendar_date(unix_seconds: i64) -> (i32, u8, u8);

/// `time::OffsetDateTime::from_unix_timestamp` followed by its `year`,
/// `month` and `day`: the UTC calendar date of a Unix timestamp. The date is
/// named, not spelled out; the ranges stated are those of a date between
/// 1970 and 9999, which every timestamp the `requires` admits falls in.
#[verifier::external_body]
pub(crate) fn utc_date(unix_seconds: i64) -> (date: (i32, u8, u8))
    requires
        0 <= unix_seconds <= LAST_REPRESENTABLE_SECOND,
    ensures
        date == utc_calendar_date(unix_seconds),
        1970 <= date.0 <= 9999,
        1 <= date.1 <= 12,
        1 <= date.2 <= 31,
{
    match time::OffsetDateTime::from_unix_timestamp(unix_seconds) {
        Ok(dt) => (dt.year(), u8::from(dt.month()), dt.day()),
        Err(_) => (1970, 1, 1),
    }
}

} // verus!
