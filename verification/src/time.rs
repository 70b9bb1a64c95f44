//! Reading dates and times, as chrono parses them. An instant is a pair of
//! whole seconds since the Unix epoch and the nanoseconds past that second.
use vstd::prelude::*;

verus! {

/// The instant an RFC 3339 date-time names, when chrono's
/// `DateTime::parse_from_rfc3339` accepts the text.
pub uninterp spec fn rfc3339_instant(s: Seq<char>) -> Option<(i64, u32)>;

/// Calls `chrono::DateTime::parse_from_rfc3339` and takes the Unix
/// timestamp and the sub-second nanoseconds of the result.
#[verifier::external_body]
pub(crate) fn parse_rfc3339(s: &str) -> (r: Option<(i64, u32)>)
    ensures
        r == rfc3339_instant(s@),
{
    match chrono::DateTime::parse_from_rfc3339(s) {
        Ok(d) => Some((d.timestamp(), d.timestamp_subsec_nanos())),
        Err(_) => None,
    }
}

/// The instant an RFC 2822 date-time names, when chrono's
/// `DateTime::parse_from_rfc2822` accepts the text.
pub uninterp spec fn rfc2822_instant(s: Seq<char>) -> Option<(i64, u32)>;

/// Calls `chrono::DateTime::parse_from_rfc2822` and takes the Unix
/// timestamp and the sub-second nanoseconds of the result.
#[verifier::external_body]
pub(crate) fn parse_rfc2822(s: &str) -> (r: Option<(i64, u32)>)
    ensures
        r == rfc2822_instant(s@),
{
    match chrono::DateTime::parse_from_rfc2822(s) {
        Ok(d) => Some((d.timestamp(), d.timestamp_subsec_nanos())),
        Err(_) => None,
    }
}

/// The instant a date-time without offset names when read as UTC, when
/// chrono's `NaiveDateTime::parse_from_str` accepts the text in the format.
pub uninterp spec fn naive_datetime_instant(s: Seq<char>, fmt: Seq<char>) -> Option<(i64, u32)>;

/// Calls `chrono::NaiveDateTime::parse_from_str` and takes the Unix
/// timestamp and sub-second nanoseconds of the result read as UTC.
#[verifier::external_body]
pub(crate) fn parse_naive_datetime(s: &str, fmt: &str) -> (r: Option<(i64, u32)>)
    ensures
        r == naive_datetime_instant(s@, fmt@),
{
    match chrono::NaiveDateTime::parse_from_str(s, fmt) {
        Ok(d) => Some((d.and_utc().timestamp(), d.and_utc().timestamp_subsec_nanos())),
        Err(_) => None,
    }
}

/// Unix timestamp of midnight UTC of a date, when chrono's
/// `NaiveDate::parse_from_str` accepts the text in the format.
pub uninterp spec fn naive_date_midnight(s: Seq<char>, fmt: Seq<char>) -> Option<i64>;

/// Calls `chrono::NaiveDate::parse_from_str` and takes the Unix timestamp of
/// midnight UTC of that day.
#[verifier::external_body]
pub(crate) fn parse_naive_date(s: &str, fmt: &str) -> (r: Option<i64>)
    ensures
        r == naive_date_midnight(s@, fmt@),
{
    match chrono::NaiveDate::parse_from_str(s, fmt) {
        Ok(d) => d.and_hms_opt(0, 0, 0).map(|m| m.and_utc().timestamp()),
        Err(_) => None,
    }
}

} // verus!
