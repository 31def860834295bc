//! Trusted access to the process environment: fresh identifiers and the
//! wall clock. Everything else in the crate is deterministic.

use vstd::prelude::*;

use chrono::Datelike;

verus! {

/// Relies on uuid::Uuid::new_v4: a freshly generated random identifier,
/// returned as its 128-bit value. The generator always sets the version and
/// variant bits, so the value is never zero; nothing else is promised. The
/// call fails only if the operating system's random source does, an
/// environmental fault outside any input's control.
#[verifier::external_body]
pub fn fresh_id() -> (r: u128)
    ensures
        r != 0,
{
    uuid::Uuid::new_v4().as_u128()
}

/// Relies on chrono::Utc::now and DateTime::timestamp_millis: the current
/// wall-clock time as milliseconds since the epoch. Nothing is promised of
/// the value; consumers take it as an argument and clamp it into range.
/// The call fails only on a system clock set before the epoch, an
/// environmental fault outside any input's control.
#[verifier::external_body]
pub fn now_millis() -> (r: i64) {
    chrono::Utc::now().timestamp_millis()
}

/// Relies on chrono::Utc::now, DateTime::date_naive and the Datelike
/// accessors: today's UTC date as (year, month, day). chrono documents that
/// month lies in 1 to 12 and day in 1 to 31.
#[verifier::external_body]
pub fn today_ymd() -> (r: (i64, u32, u32))
    ensures
        1 <= r.1 <= 12,
        1 <= r.2 <= 31,
{
    let d = chrono::Utc::now().date_naive();
    (d.year() as i64, d.month(), d.day())
}

} // verus!
