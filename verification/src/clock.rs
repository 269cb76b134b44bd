//! The two places where wall-clock time enters the pipeline: parsing a
//! wire timestamp and reading the instant now.  Both return plain epoch
//! seconds; everything after them is ordinary verified arithmetic.

use vstd::prelude::*;

use chrono::DateTime;
use chrono::Utc;

verus! {

/// The epoch seconds a wire timestamp denotes, or nothing when the text
/// is not a well-formed timestamp.  The outcome is a function of the
/// characters alone.
pub uninterp spec fn timestamp_parse(s: Seq<char>) -> Option<i64>;

/// Relies on chrono's `DateTime<Utc>` parsing (a relaxed RFC 3339) and
/// `timestamp()`: the result depends on the text alone, and the epoch
/// seconds of any chrono datetime stay within the range its year span
/// of -262144 through 262143 allows.
#[verifier::external_body]
pub(crate) fn parse_timestamp(s: &str) -> (r: Option<i64>)
    ensures
        r == timestamp_parse(s@),
        r matches Some(t) ==> -9_000_000_000_000 < t < 9_000_000_000_000,
{
    s.parse::<DateTime<Utc>>().ok().map(|d| d.timestamp())
}

/// Relies on chrono's `Utc::now` and `timestamp()`: nothing is assumed
/// of the clock's reading but the same year-span bound.
#[verifier::external_body]
pub(crate) fn now_seconds() -> (r: i64)
    ensures
        -9_000_000_000_000 < r < 9_000_000_000_000,
{
    Utc::now().timestamp()
}

} // verus!
