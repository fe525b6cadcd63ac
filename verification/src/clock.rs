//! Wall-clock and calendar access.
//!
//! Every function here depends on the machine's clock or time zone, so none
//! of their results can be pinned down by a contract: callers state what
//! holds of every possible outcome.
use vstd::prelude::*;

verus! {

/// Relies on chrono's `Utc::now` and `to_rfc3339`: the current instant as an
/// RFC 3339 timestamp. Two calls are not promised to agree.
#[verifier::external_body]
pub(crate) fn now_rfc3339() -> String {
    chrono::Utc::now().to_rfc3339()
}

/// Relies on chrono's `DateTime::parse_from_rfc3339`, `with_timezone` and
/// `date_naive`: the timestamp's calendar date in the machine's local time
/// zone, or `None` when the text is not a valid RFC 3339 timestamp. The
/// result depends on the local time zone, so nothing more is stated.
#[verifier::external_body]
pub(crate) fn local_date_of(timestamp: &str) -> Option<String> {
    match chrono::DateTime::parse_from_rfc3339(timestamp) {
        Ok(parsed) => Some(parsed.with_timezone(&chrono::Local).date_naive().to_string()),
        Err(_) => None,
    }
}

/// Relies on chrono's `Local::now` and `date_naive`: today's calendar date
/// in the machine's local time zone.
#[verifier::external_body]
pub(crate) fn today_local() -> String {
    chrono::Local::now().date_naive().to_string()
}

} // verus!
