//! Reformatting of RFC 3339 timestamps into the long human-readable form
//! that listings and `{{date}}` substitution show.

use vstd::prelude::*;

verus! {

/// The long form of an RFC 3339 timestamp — full month name, space-padded
/// day, year, and a twelve-hour clock — or `None` for a string the RFC 3339
/// parser rejects. The result is a function of the characters alone.
pub uninterp spec fn long_date_of(s: Seq<char>) -> Option<Seq<char>>;

/// What is shown for a stored date value: the long form when the timestamp
/// parses, the raw value verbatim otherwise.
pub open spec fn spec_display_date(s: Seq<char>) -> Seq<char> {
    match long_date_of(s) {
        Some(f) => f,
        None => s,
    }
}

/// Relies on chrono's `DateTime::parse_from_rfc3339` and `DateTime::format`
/// with a fixed format string: both are pure functions of the timestamp.
#[verifier::external_body]
fn format_rfc3339(ts: &str) -> (r: Option<String>)
    ensures
        match r {
            Some(f) => long_date_of(ts@) == Some(f@),
            None => long_date_of(ts@) is None,
        },
{
    match chrono::DateTime::parse_from_rfc3339(ts) {
        Ok(dt) => Some(dt.format("%B %e, %Y | %l:%M %P").to_string()),
        Err(_) => None,
    }
}

/// Long display form of a timestamp. A value the parser rejects is kept
/// verbatim rather than aborting the build.
pub fn convert_datetime(timestamp: &str) -> (r: String)
    ensures
        r@ == spec_display_date(timestamp@),
{
    match format_rfc3339(timestamp) {
        Some(f) => f,
        None => timestamp.to_owned(),
    }
}

} // verus!
