//! The engine's only source of randomness: the thread-local generator of the
//! `rand` crate, reached through two trusted items. Everything downstream is
//! verified for every value these can return.

use vstd::prelude::*;
use rand::Rng;

verus! {

#[verifier::external_type_specification]
#[verifier::external_body]
pub struct ExThreadRng(rand::rngs::ThreadRng);

/// Relies on `rand::thread_rng`: a handle to the lazily-initialized
/// thread-local generator. Nothing is assumed of the values it will produce.
#[verifier::external_body]
pub(crate) fn new_rng() -> rand::rngs::ThreadRng {
    rand::thread_rng()
}

/// Relies on `rand::Rng::gen_range` over `lo..=hi`: it returns a value inside
/// the given range and panics only when the range is empty, which the
/// precondition rules out. Which value comes back is left open: callers are
/// verified for every outcome.
#[verifier::external_body]
pub(crate) fn rand_u64(rng: &mut rand::rngs::ThreadRng, lo: u64, hi: u64) -> (r: u64)
    requires
        lo <= hi,
    ensures
        lo <= r <= hi,
{
    rng.gen_range(lo..=hi)
}

} // verus!
