//! The wall clock, the one source of time for the time-based components.
use vstd::prelude::*;

verus! {

/// Seconds since the Unix epoch, read from `std::time::SystemTime::now`.
///
/// Nothing is claimed of the value: the wall clock may jump in either
/// direction, so every caller is verified for any value it returns.  A clock
/// set before 1970 reads as `0`.
#[verifier::external_body]
pub(crate) fn now_secs() -> u64 {
    match std::time::SystemTime::now().duration_since(std::time::UNIX_EPOCH) {
        Ok(d) => d.as_secs(),
        Err(_) => 0,
    }
}

} // verus!
