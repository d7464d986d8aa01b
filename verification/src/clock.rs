//! Access to the wall clock, used for turnaround and burst measurements.

use vstd::prelude::*;

verus! {

/// Relies on `std::time::SystemTime::now`: the current wall clock time,
/// converted to whole nanoseconds since the Unix epoch.  Nothing is
/// assumed about the value returned; every contract that involves a
/// timestamp holds whatever the clock reads.
#[verifier::external_body]
pub(crate) fn now_nanos() -> u64 {
    match std::time::SystemTime::now().duration_since(std::time::UNIX_EPOCH) {
        Ok(elapsed) => elapsed.as_nanos() as u64,
        Err(_) => 0,
    }
}

} // verus!
