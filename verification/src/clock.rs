//! Trusted access to the system clock. Every verified function takes time
//! as a plain argument; this is the one place a current time comes from.

use vstd::prelude::*;

verus! {

/// Relies on `std::time::SystemTime::now` and
/// `SystemTime::duration_since(UNIX_EPOCH)`: the current time in
/// milliseconds since the Unix epoch. Never negative; reads 0 when the
/// system clock stands before the epoch, and saturates at `i64::MAX`.
#[verifier::external_body]
pub fn current_millis() -> (r: i64)
    ensures
        0 <= r,
{
    match std::time::SystemTime::now().duration_since(std::time::UNIX_EPOCH) {
        Ok(d) => {
            let ms = d.as_millis();
            if ms > i64::MAX as u128 {
                i64::MAX
            } else {
                ms as i64
            }
        },
        Err(_) => 0,
    }
}

} // verus!
