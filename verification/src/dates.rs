//! Timestamp parsing, delegated to chrono.
//!
//! The two parsers below are the only places where the crate reads a date
//! string. Each result is a function of the characters alone, so it is given
//! a name that the callers' contracts can speak of exactly.

use vstd::prelude::*;

verus! {

/// The calendar year of an RFC 3339 date-time, read in the timestamp's own
/// offset; no value when the string is not a valid RFC 3339 date-time.
pub uninterp spec fn rfc3339_year(s: Seq<char>) -> Option<int>;

/// The epoch-second instant of a timestamp accepted by chrono's
/// `DateTime<Utc>` parser; no value when the string is not accepted.
pub uninterp spec fn utc_epoch_of(s: Seq<char>) -> Option<int>;

/// Relies on chrono's `DateTime::parse_from_rfc3339` and `Datelike::year`:
/// parsing succeeds exactly on valid RFC 3339 date-times, keeps the string's
/// own offset, and the year depends on the characters alone.
#[verifier::external_body]
pub(crate) fn settlement_year(s: &str) -> (r: Option<i32>)
    ensures
        r is Some <==> rfc3339_year(s@) is Some,
        r matches Some(y) ==> rfc3339_year(s@) == Some(y as int),
{
    match chrono::DateTime::parse_from_rfc3339(s) {
        Ok(d) => Some(chrono::Datelike::year(&d)),
        Err(_) => None,
    }
}

/// Relies on chrono's `FromStr` for `DateTime<Utc>` and on
/// `DateTime::timestamp`: the parsed instant depends on the characters alone.
#[verifier::external_body]
pub(crate) fn parse_utc_epoch(s: &str) -> (r: Option<i64>)
    ensures
        r is Some <==> utc_epoch_of(s@) is Some,
        r matches Some(t) ==> utc_epoch_of(s@) == Some(t as int),
{
    match s.parse::<chrono::DateTime<chrono::Utc>>() {
        Ok(d) => Some(d.timestamp()),
        Err(_) => None,
    }
}

} // verus!
