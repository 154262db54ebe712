//! The system clock, which only the trusted wrappers here read.
use vstd::prelude::*;

verus! {

/// The seconds since the Unix epoch by the system clock, by
/// `std::time::SystemTime::now` and `duration_since(UNIX_EPOCH)`; zero when
/// the clock reads before the epoch. Nothing is claimed of the value.
#[verifier::external_body]
pub(crate) fn unix_now_secs() -> u64 {
    std::time::SystemTime::now().duration_since(std::time::UNIX_EPOCH).unwrap_or_default().as_secs()
}

/// The milliseconds since the Unix epoch by the system clock, by
/// `std::time::SystemTime::now`, `duration_since(UNIX_EPOCH)` and
/// `as_millis`, cut to 64 bits as the wire format carries them; zero when
/// the clock reads before the epoch. Nothing is claimed of the value.
#[verifier::external_body]
pub(crate) fn unix_now_millis() -> u64 {
    match std::time::SystemTime::now().duration_since(std::time::UNIX_EPOCH) {
        Ok(d) => d.as_millis() as u64,
        Err(_) => 0,
    }
}

} // verus!
