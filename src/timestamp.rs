//! Modification times written as UTC text.

use vstd::prelude::*;

verus! {

/// The text that chrono writes for the instant `secs` seconds after the Unix
/// epoch, in UTC, under the pattern `%Y-%m-%d %H:%M:%S UTC`.
pub uninterp spec fn utc_text_of(secs: int) -> Seq<char>;

/// Seconds from the epoch within which every time can be written (about
/// 34,800 years either way).
pub const TIMESTAMP_LIMIT: i64 = 0x100_0000_0000;

/// Relies on chrono's `DateTime::from_timestamp`, which returns `None` only
/// outside its range of dates (years beyond about 262,000 either way), and on
/// `DateTime::format` with the pattern `%Y-%m-%d %H:%M:%S UTC`.
#[verifier::external_body]
pub(crate) fn utc_timestamp_text(secs: i64) -> (r: Option<String>)
    ensures
        -TIMESTAMP_LIMIT <= secs <= TIMESTAMP_LIMIT ==> r is Some,
        r matches Some(t) ==> t@ == utc_text_of(secs as int),
{
    match chrono::DateTime::from_timestamp(secs, 0) {
        Some(t) => Some(t.format("%Y-%m-%d %H:%M:%S UTC").to_string()),
        None => None,
    }
}

} // verus!
