//! The current time, from the system clock.

use vstd::prelude::*;

verus! {

/// Relies on chrono::Utc::now and chrono::DateTime::timestamp: the current
/// time as whole seconds since the Unix epoch. The result depends on the
/// clock, so nothing is promised of it; callers state what holds for every
/// reading. Note that chrono::Utc::now itself panics on a machine whose
/// clock is set before the Unix epoch.
#[verifier::external_body]
pub fn now_unix_seconds() -> i64 {
    chrono::Utc::now().timestamp()
}

} // verus!
