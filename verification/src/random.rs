//! The random draws of the generators, taken from the thread's generator of
//! `fastrand`.

use vstd::prelude::*;

verus! {

/// `fastrand::i32` on the range from `low` up to, but not including, `high`:
/// some number of that range. The range must not be empty.
#[verifier::external_body]
pub(crate) fn random_i32(low: i32, high: i32) -> (r: i32)
    requires
        low < high,
    ensures
        low <= r < high,
{
    fastrand::i32(low..high)
}

/// `fastrand::u32` on the range from `low` up to, but not including, `high`:
/// some number of that range. The range must not be empty.
#[verifier::external_body]
pub(crate) fn random_u32(low: u32, high: u32) -> (r: u32)
    requires
        low < high,
    ensures
        low <= r < high,
{
    fastrand::u32(low..high)
}

/// `fastrand::seed`: sets the state of the thread's generator.
#[verifier::external_body]
pub(crate) fn seed(state: u64) {
    fastrand::seed(state)
}

} // verus!
