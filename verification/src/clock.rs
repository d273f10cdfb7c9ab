use vstd::prelude::*;

verus! {

/// Whole seconds since the Unix epoch by the system clock (`SystemTime::now`), 0 when the
/// clock reads before the epoch. Nothing is stated of the value: it is the time.
#[verifier::external_body]
pub(crate) fn now_secs() -> (secs: u64) {
    std::time::SystemTime::now().duration_since(std::time::UNIX_EPOCH).unwrap_or_default().as_secs()
}

} // verus!
