use vstd::prelude::*;

use std::time::SystemTime;
use std::time::UNIX_EPOCH;

verus! {

/// Relies on std::time::SystemTime::now and Duration::as_millis: the system
/// clock's milliseconds since the Unix epoch, or `None` when the clock reads
/// earlier than the epoch. A clock is free to return anything, so nothing
/// more is stated of the result.
#[verifier::external_body]
fn system_millis() -> Option<u128> {
    match SystemTime::now().duration_since(UNIX_EPOCH) {
        Ok(d) => Some(d.as_millis()),
        Err(_) => None,
    }
}

/// The current time in milliseconds since the Unix epoch, as the system
/// clock tells it; `None` on a clock set before the epoch.
pub fn get_time() -> Option<u128> {
    system_millis()
}

} // verus!
