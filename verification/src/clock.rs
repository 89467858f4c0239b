use vstd::prelude::*;

verus! {

/// Seconds since the Unix epoch by the system clock, 0 when the clock is
/// set before the epoch. Calls `std::time::SystemTime::now`; nothing is
/// stated of the result, which depends on the clock.
#[verifier::external_body]
pub(crate) fn time_now() -> u64 {
    std::time::SystemTime::now()
        .duration_since(std::time::UNIX_EPOCH)
        .unwrap_or_default()
        .as_secs()
}

} // verus!
