//! Wall-clock timestamps for stamping events.

use vstd::prelude::*;

verus! {

/// Relies on std::time::SystemTime::now and
/// SystemTime::duration_since(UNIX_EPOCH): the wall-clock time elapsed
/// since the Unix epoch.  The result depends on the clock, so nothing
/// is promised of it.
#[verifier::external_body]
fn now_unix_millis() -> u64 {
    std::time::SystemTime::now()
        .duration_since(std::time::UNIX_EPOCH)
        .unwrap()
        .as_millis()
        .try_into()
        .unwrap()
}

/// Convenience for getting a Unix timestamp: the current wall-clock
/// time in milliseconds since the Unix epoch.
pub fn txingest_timestamp() -> u64 {
    now_unix_millis()
}

} // verus!
