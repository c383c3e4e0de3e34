//! The random draws that network construction is made of.
use rand::Rng;
use vstd::prelude::*;

verus! {

/// Relies on rand's `Rng::gen_range` on the thread-local generator: a value
/// in `[low, high)`, here an operator code in `[0, 16)`.
#[verifier::external_body]
pub(crate) fn random_code() -> (r: u8)
    ensures
        r < 16,
{
    rand::thread_rng().gen_range(0u8, 16u8)
}

/// Relies on rand's `Rng::gen` on the thread-local generator: any boolean.
#[verifier::external_body]
pub(crate) fn random_bool() -> (r: bool) {
    rand::thread_rng().gen::<bool>()
}

} // verus!
