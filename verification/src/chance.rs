//! Dice: the random draws the rules take, from `rand`'s thread-local
//! generator.
use vstd::prelude::*;
use rand::Rng;

verus! {

/// `rand::Rng::gen_range` over `low..=high` on the thread-local generator:
/// some value in that range, any of them. It panics on an empty range,
/// which `requires` rules out.
#[verifier::external_body]
pub(crate) fn random_in_range(low: i64, high: i64) -> (r: i64)
    requires
        low <= high,
    ensures
        low <= r <= high,
{
    rand::thread_rng().gen_range(low..=high)
}

/// `rand::Rng::gen::<u64>` on the thread-local generator: any `u64`.
#[verifier::external_body]
pub(crate) fn random_u64() -> (r: u64) {
    rand::thread_rng().gen::<u64>()
}

} // verus!
