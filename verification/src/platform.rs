//! What the parsers read from the machine: the clock and the number of CPUs.

use vstd::prelude::*;

verus! {

/// `std::time::SystemTime::now()` as milliseconds since the Unix epoch: `None` when
/// `duration_since(UNIX_EPOCH)` reports the clock set before the epoch. Nothing is promised
/// of the value: it is the time.
#[verifier::external_body]
pub(crate) fn unix_time_millis() -> Option<u64> {
    match std::time::SystemTime::now().duration_since(std::time::UNIX_EPOCH) {
        Ok(d) => Some(d.as_millis() as u64),
        Err(_) => None,
    }
}

/// `num_cpus::get()`, which its documentation promises is at least 1.
#[verifier::external_body]
pub(crate) fn cpu_count() -> (n: usize)
    ensures
        n >= 1,
{
    num_cpus::get()
}

} // verus!
