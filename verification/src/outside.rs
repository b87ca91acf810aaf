//! The calls into outside crates and into parts of std that vstd does not
//! specify, each behind a trusted item.

use vstd::prelude::*;
use vstd::utf8::{valid_utf8, decode_utf8};
use crate::format::rfc3339_utc_time;

verus! {

/// `chrono::Utc::now()` rendered by `DateTime::to_rfc3339`: an RFC 3339 time
/// in UTC (`write_rfc3339` with `SecondsFormat::AutoSi` and offset `+00:00`).
/// Which time it is depends on the clock and is not stated. `Utc::now` panics
/// when the system clock reads before 1970.
#[verifier::external_body]
pub(crate) fn now_rfc3339() -> (r: String)
    ensures
        rfc3339_utc_time(r@),
{
    chrono::Utc::now().to_rfc3339()
}

/// `chrono::Utc::now()` as nanoseconds since the epoch, through
/// `DateTime::timestamp_nanos_opt` (`None` outside the range of `i64`).
/// `Utc::now` never returns a time before the epoch (it panics when the system
/// clock reads before 1970), so a value that comes back is not negative; which
/// value it is depends on the clock and is not stated.
#[verifier::external_body]
pub(crate) fn now_timestamp_nanos() -> (r: Option<i64>)
    ensures
        r matches Some(n) ==> n >= 0,
{
    chrono::Utc::now().timestamp_nanos_opt()
}

/// `rand::random::<u32>()`: a value from the thread-local generator; any
/// `u32` can come back, so nothing is stated of it. It panics when the
/// operating system's random source fails.
#[verifier::external_body]
pub(crate) fn random_u32() -> u32 {
    rand::random::<u32>()
}

/// `std::str::from_utf8`: the bytes read as a string exactly when they are
/// valid UTF-8, as the std documentation states.
#[verifier::external_body]
pub(crate) fn utf8_str(bytes: &[u8]) -> (r: Option<&str>)
    ensures
        r is Some <==> valid_utf8(bytes@),
        r matches Some(s) ==> s@ == decode_utf8(bytes@),
{
    std::str::from_utf8(bytes).ok()
}

} // verus!
