//! The wall clock, in whole seconds.

use vstd::prelude::*;

verus! {

/// `SystemTime::now` of the standard library, as seconds since the Unix epoch, or
/// `None` where the clock stands before the epoch. Nothing is known of the result: it
/// is the time of the call.
#[verifier::external_body]
fn system_time_secs() -> (secs: Option<u64>) {
    std::time::SystemTime::now().duration_since(std::time::UNIX_EPOCH).ok().map(|d| d.as_secs())
}

/// The current time in seconds since the Unix epoch; 0 where the clock stands before
/// it.
pub fn now() -> u64 {
    seconds_of(system_time_secs())
}

/// The timestamp that a reading of the clock stands for: its seconds, and 0 for a
/// clock that stands before the epoch.
pub open spec fn timestamp_of(reading: Option<u64>) -> u64 {
    match reading {
        Some(secs) => secs,
        None => 0,
    }
}

/// The timestamp that a reading of the clock stands for.
pub fn seconds_of(reading: Option<u64>) -> (secs: u64)
    ensures
        secs == timestamp_of(reading),
{
    match reading {
        Some(secs) => secs,
        None => 0,
    }
}

} // verus!
