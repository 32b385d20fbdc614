//! The clock.

use vstd::prelude::*;

verus! {

/// `SystemTime::elapsed` of the Unix epoch, in milliseconds; zero where the
/// clock stands before the epoch. Nothing is promised of the value: it is
/// read from the machine's clock.
#[verifier::external_body]
fn since_the_epoch() -> (millis: u64) {
    match std::time::UNIX_EPOCH.elapsed() {
        Ok(elapsed) => elapsed.as_millis() as u64,
        Err(_) => 0,
    }
}

/// The time by the machine's clock, in milliseconds since the Unix epoch.
pub fn current_time_millis() -> (millis: u64) {
    since_the_epoch()
}

} // verus!
