//! The trusted boundary to the outside crates: the clock, identifier
//! generation and timestamp formatting. Each item's contract states only
//! what the called crate's source shows; everything downstream of these
//! values is verified against those contracts.

use vstd::prelude::*;

verus! {

/// Relies on chrono's `Utc::now` and `DateTime::timestamp_millis`: the
/// current instant as non-leap milliseconds since the Unix epoch. The
/// value depends on the wall clock, so nothing is promised of it.
#[verifier::external_body]
pub fn now_millis() -> i64 {
    chrono::Utc::now().timestamp_millis()
}

/// The current instant clamped to the unsigned timestamp domain of the
/// data model; instants before the epoch collapse to zero.
pub fn now_unix_millis() -> u64 {
    let t = now_millis();
    if t < 0 {
        0
    } else {
        t as u64
    }
}

/// Relies on uuid's `Uuid::new_v4` and its `Display` form: a random
/// identifier rendered as 36 hyphenated ASCII bytes. The value is random,
/// so only its length is promised.
#[verifier::external_body]
pub fn new_id() -> (r: Vec<u8>)
    ensures
        r@.len() == 36,
{
    uuid::Uuid::new_v4().to_string().into_bytes()
}

/// The text chrono renders for an instant under the fixed pattern
/// `%Y-%m-%d %H:%M:%S UTC`; a function of the instant alone.
pub uninterp spec fn utc_text_of(ms: i64) -> Seq<u8>;

/// Relies on chrono's `DateTime::from_timestamp_millis`, which returns
/// `None` on an out-of-range number of milliseconds, and on strftime
/// formatting with a fixed pattern, which depends on the instant alone.
#[verifier::external_body]
pub fn format_utc_millis(ms: i64) -> (r: Option<Vec<u8>>)
    ensures
        r matches Some(t) ==> t@ == utc_text_of(ms),
{
    match chrono::DateTime::<chrono::Utc>::from_timestamp_millis(ms) {
        Some(dt) => Some(dt.format("%Y-%m-%d %H:%M:%S UTC").to_string().into_bytes()),
        None => None,
    }
}

} // verus!
