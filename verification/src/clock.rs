//! The ledger's clock: current time in milliseconds since the Unix epoch.
use vstd::prelude::*;

verus! {

/// Relies on chrono::Utc::now().timestamp_millis(): the current wall-clock
/// time. Nothing is assumed of the value; every caller handles any
/// millisecond reading.
#[verifier::external_body]
pub fn now_millis() -> i64 {
    chrono::Utc::now().timestamp_millis()
}

} // verus!
