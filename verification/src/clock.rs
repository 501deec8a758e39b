//! Wall-clock access: the one place the library asks the machine for the
//! time.

use vstd::prelude::*;

verus! {

/// Relies on std::time::SystemTime::now and duration_since(UNIX_EPOCH):
/// whole seconds since the Unix epoch, `None` when the clock reads before
/// it. Nothing can be promised of a clock reading.
#[verifier::external_body]
fn unix_seconds_now() -> (r: Option<u64>) {
    match std::time::SystemTime::now().duration_since(std::time::UNIX_EPOCH) {
        Ok(d) => Some(d.as_secs()),
        Err(_) => None,
    }
}

/// The current time as non-negative milliseconds since the Unix epoch;
/// 0 when the clock reads before the epoch or past what the result type
/// can carry.
pub fn now_as_milliseconds() -> (r: i64)
    ensures
        r >= 0,
{
    match unix_seconds_now() {
        Some(secs) => {
            if secs <= (i64::MAX as u64) / 1000 {
                (secs * 1000) as i64
            } else {
                0
            }
        },
        None => 0,
    }
}

} // verus!
