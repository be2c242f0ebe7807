//! The clock: current time as seconds since the Unix epoch.
//!
//! The reading is inherently nondeterministic, so nothing is promised of
//! its value; callers state what holds of every outcome. The arithmetic
//! around a reading is ordinary verified code with exact contracts.

use vstd::prelude::*;

verus! {

/// Relies on std's `SystemTime::now` and its `duration_since(UNIX_EPOCH)`:
/// the current time as whole seconds since the Unix epoch. A clock set
/// before the epoch makes `duration_since` fail, and such a reading comes
/// back as 0 rather than failing.
#[verifier::external_body]
fn now_timestamp() -> u64 {
    match std::time::SystemTime::now().duration_since(std::time::UNIX_EPOCH) {
        Ok(elapsed) => elapsed.as_secs(),
        Err(_) => 0,
    }
}

/// The current time as seconds since the Unix epoch; 0 on a clock set
/// before the epoch.
pub fn current_time_seconds() -> u64 {
    now_timestamp()
}

/// Two minutes past a clock reading, saturating at the top of the range.
pub open spec fn spec_two_minutes_after(now: u64) -> u64 {
    if now + 120 <= u64::MAX {
        (now + 120) as u64
    } else {
        u64::MAX
    }
}

/// Two minutes past a clock reading.
pub fn two_minutes_after(now: u64) -> (r: u64)
    ensures
        r == spec_two_minutes_after(now),
{
    if now <= u64::MAX - 120 {
        now + 120
    } else {
        u64::MAX
    }
}

/// A timestamp a short while (two minutes) ahead of the current time, a
/// convenient default expiry for interactive front ends: two minutes past
/// some clock reading, whatever the clock returned.
pub fn generate_timestamp_one_hour_in_future() -> (r: u64)
    ensures
        exists|now: u64| r == spec_two_minutes_after(now),
{
    let now = current_time_seconds();
    let r = two_minutes_after(now);
    proof {
        assert(r == spec_two_minutes_after(now));
    }
    r
}

} // verus!
