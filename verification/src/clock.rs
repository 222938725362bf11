//! Wall-clock readings and calendar decomposition of Unix timestamps.

use vstd::prelude::*;

verus! {

/// Relies on time::OffsetDateTime::now_utc and unix_timestamp: the current
/// Unix time.  An OffsetDateTime holds years -9999..=9999 only, so the
/// timestamp is within four hundred billion seconds of the epoch.
#[verifier::external_body]
pub fn unix_now() -> (r: i64)
    ensures
        -400_000_000_000 <= r <= 400_000_000_000,
{
    time::OffsetDateTime::now_utc().unix_timestamp()
}

/// The UTC calendar decomposition (year, month, day, hour) of a Unix
/// timestamp, where the timestamp falls within the representable years.
/// Opaque: only the calendar library defines it.
pub uninterp spec fn calendar_of(ts: i64) -> Option<(i32, u8, u8, u8)>;

/// Relies on time::OffsetDateTime::from_unix_timestamp and its year, month,
/// day and hour accessors: a pure calendar decomposition of the timestamp,
/// None outside the representable years.  Months are 1..=12, days 1..=31,
/// hours 0..=23; every timestamp of the years 1970..=9999 is representable.
#[verifier::external_body]
pub fn utc_calendar(ts: i64) -> (r: Option<(i32, u8, u8, u8)>)
    ensures
        r == calendar_of(ts),
        r is Some ==> 1 <= r->Some_0.1 <= 12 && 1 <= r->Some_0.2 <= 31 && r->Some_0.3 <= 23,
        0 <= ts <= 253_000_000_000 ==> r is Some,
{
    match time::OffsetDateTime::from_unix_timestamp(ts) {
        Ok(d) => Some((d.year(), u8::from(d.month()), d.day(), d.hour())),
        Err(_) => None,
    }
}

} // verus!
