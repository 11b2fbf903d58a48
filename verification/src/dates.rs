//! Points in time as they are written down.
use crate::json::string_view;
use vstd::prelude::*;
use vstd::string::*;

verus! {

/// The text of a point in time, given in milliseconds since 1970.
pub uninterp spec fn rfc3339_text(millis: i64) -> Option<Seq<char>>;

/// The seconds since 1970 of a point in time that a text gives.
pub uninterp spec fn rfc3339_seconds(text: Seq<char>) -> Option<i64>;

/// `chrono::DateTime::from_timestamp_millis` and `to_rfc3339_opts`, to the millisecond, with `Z`.
/// Every point of the years 1970 to 9999 has a text, and `parse_from_rfc3339` reads that point back
/// from it.
#[verifier::external_body]
pub(crate) fn write_rfc3339(millis: i64) -> (r: Option<String>)
    ensures
        string_view(r) == rfc3339_text(millis),
        match r {
            Some(text) => 0 <= millis <= 253_402_300_799_999 ==> rfc3339_seconds(text@) == Some(
                (millis as int / 1000) as i64,
            ),
            None => !(0 <= millis <= 253_402_300_799_999),
        },
{
    chrono::DateTime::<chrono::Utc>::from_timestamp_millis(millis).map(
        |time| time.to_rfc3339_opts(chrono::SecondsFormat::Millis, true),
    )
}

/// `chrono::DateTime::parse_from_rfc3339` and `timestamp`. They depend on the text alone.
#[verifier::external_body]
pub(crate) fn read_rfc3339(text: &str) -> (r: Option<i64>)
    ensures
        r == rfc3339_seconds(text@),
{
    chrono::DateTime::parse_from_rfc3339(text).ok().map(|time| time.timestamp())
}

} // verus!
