//! The clock that the runs are timed with.

use vstd::prelude::*;

verus! {

/// Reads the high-resolution counter of the `time` crate with
/// `time::precise_time_ns`: nanoseconds since an epoch that the crate
/// leaves open. Nothing is claimed of the reading; two readings need not
/// even be in order.
#[verifier::external_body]
pub(crate) fn now() -> (t: u64) {
    time::precise_time_ns()
}

} // verus!
