//! The wall clock.

use chrono::TimeZone;
use vstd::prelude::*;

verus! {

/// Calls `chrono::Utc::now` and takes its timestamp: seconds since the Unix
/// epoch. Nothing is claimed of the value, which is the machine's.
#[verifier::external_body]
pub(crate) fn unix_now() -> (seconds: i64) {
    chrono::Utc::now().timestamp()
}

/// A reading of the system clock, of which nothing is seen here.
#[verifier::external_type_specification]
#[verifier::external_body]
pub struct ExSystemTime(std::time::SystemTime);

/// Calls `std::time::SystemTime::now`. Nothing is claimed of the reading, which
/// is the machine's.
#[verifier::external_body]
fn system_now() -> (now: std::time::SystemTime) {
    std::time::SystemTime::now()
}

/// Calls `std::time::SystemTime::duration_since` on the Unix epoch; nothing where
/// the reading lies before it. How long it is cannot be stated: the reading is
/// opaque.
#[verifier::external_body]
fn since_epoch(reading: &std::time::SystemTime) -> (span: Option<std::time::Duration>) {
    reading.duration_since(std::time::UNIX_EPOCH).ok()
}

/// Calls `std::time::Duration::as_secs`. How many there are cannot be stated: the
/// span is opaque.
#[verifier::external_body]
fn whole_seconds(span: &std::time::Duration) -> (seconds: u64) {
    span.as_secs()
}

/// The time in whole seconds since the Unix epoch; nothing where the clock stands
/// before the epoch.
pub(crate) fn seconds_since_epoch() -> (seconds: Option<u64>) {
    match since_epoch(&system_now()) {
        Some(span) => Some(whole_seconds(&span)),
        None => None,
    }
}

/// Whether a timestamp is one that a calendar date can be written for: the
/// years from -262143 to 262142.
pub open spec fn has_date(seconds: int) -> bool {
    -8_334_601_228_800 <= seconds <= 8_210_266_876_799
}

/// A timestamp as an RFC 3339 date and time in UTC, in whole seconds.
pub uninterp spec fn rfc3339(seconds: int) -> Option<Seq<char>>;

/// Calls `chrono::TimeZone::timestamp_opt` on `Utc` and
/// `DateTime::to_rfc3339_opts` with whole seconds and the `Z` suffix. There is
/// a date exactly for the timestamps of the years that chrono represents; how
/// the calendar is computed is not stated here.
#[verifier::external_body]
pub(crate) fn rfc3339_text(seconds: i64) -> (text: Option<String>)
    ensures
        text is Some == has_date(seconds as int),
        text matches Some(t) ==> rfc3339(seconds as int) == Some(t@),
        text is None ==> rfc3339(seconds as int) is None,
{
    chrono::Utc
        .timestamp_opt(seconds, 0)
        .single()
        .map(|date| date.to_rfc3339_opts(chrono::SecondsFormat::Secs, true))
}

} // verus!
