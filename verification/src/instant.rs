//! Points in time.

use chrono::TimeZone;
use vstd::prelude::*;

verus! {

/// The first second of the year -262143, counted from the epoch.
pub const FIRST_SECOND: i64 = -8_334_601_228_800;

/// The last second of the year 262142, counted from the epoch.
pub const LAST_SECOND: i64 = 8_210_266_876_799;

/// The seconds and nanoseconds that name an instant: a second of the years that the calendar
/// covers, and less than a second of nanoseconds, or less than two in the last second of a
/// minute, where they stand for a leap second.
pub open spec fn is_instant(seconds: i64, nanos: u32) -> bool {
    &&& FIRST_SECOND <= seconds <= LAST_SECOND
    &&& nanos < 1_000_000_000 || (nanos < 2_000_000_000 && seconds as int % 60 == 59)
}

/// Whether seconds and nanoseconds name an instant: `chrono::TimeZone::timestamp_opt` of
/// `chrono::Utc` gives a single time for exactly those that `is_instant` describes.
#[verifier::external_body]
pub(crate) fn names_instant(seconds: i64, nanos: u32) -> (b: bool)
    ensures
        b == is_instant(seconds, nanos),
{
    chrono::Utc.timestamp_opt(seconds, nanos).single().is_some()
}

/// The seconds and nanoseconds that `chrono` reads from a text as a time in UTC, or why it
/// reads none.
pub uninterp spec fn chrono_parsed(text: Seq<char>) -> Result<(i64, u32), Seq<char>>;

/// What reading a time gave.
pub open spec fn instant_seen(r: Result<(i64, u32), String>) -> Result<(i64, u32), Seq<char>> {
    match r {
        Ok(at) => Ok(at),
        Err(message) => Err(message@),
    }
}

/// Reads a time: `chrono::DateTime<Utc>` parsed from a text, as the seconds and nanoseconds
/// that it holds. Which depends on the text alone.
#[verifier::external_body]
pub(crate) fn parse_instant(text: &str) -> (r: Result<(i64, u32), String>)
    ensures
        instant_seen(r) == chrono_parsed(text@),
{
    text.parse::<chrono::DateTime<chrono::Utc>>()
        .map(|at| (at.timestamp(), at.timestamp_subsec_nanos()))
        .map_err(|error| error.to_string())
}

/// The seconds and nanoseconds, in UTC, of the time that `chrono` reads from an RFC 3339
/// text, or why it reads none.
pub uninterp spec fn chrono_rfc3339(text: Seq<char>) -> Result<(i64, u32), Seq<char>>;

/// Reads an RFC 3339 time: `chrono::DateTime::parse_from_rfc3339`, as the seconds and
/// nanoseconds that it holds. Which depends on the text alone. The time lies within the years
/// 0 to 9999, give or take a day for its offset, and a second has less than two thousand
/// million nanoseconds.
#[verifier::external_body]
pub(crate) fn parse_rfc3339(text: &str) -> (r: Result<(i64, u32), String>)
    ensures
        instant_seen(r) == chrono_rfc3339(text@),
        r matches Ok((seconds, nanos)) ==> -62_167_305_600 <= seconds <= 253_402_387_200 && nanos
            < 2_000_000_000,
{
    chrono::DateTime::parse_from_rfc3339(text)
        .map(|at| (at.timestamp(), at.timestamp_subsec_nanos()))
        .map_err(|error| error.to_string())
}

} // verus!
