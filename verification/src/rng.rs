//! The random source behind password generation.  The two functions here
//! are the only places where the library leans on the `rand` crate; every
//! caller is verified against their contracts alone.

use vstd::prelude::*;

verus! {

#[verifier::external_type_specification]
#[verifier::external_body]
pub struct ExThreadRng(rand::rngs::ThreadRng);

/// Relies on `rand::thread_rng`: a handle to the thread-local generator,
/// seeded from the system's entropy source.  Nothing is assumed about the
/// values it will produce.
#[verifier::external_body]
pub(crate) fn new_rng() -> rand::rngs::ThreadRng {
    rand::thread_rng()
}

/// Relies on `rand::Rng::gen_range` on the half-open range `0..bound`:
/// the drawn index is less than `bound`.  The draw is random, so nothing
/// relates one call's result to another's.
#[verifier::external_body]
pub(crate) fn draw_index(rng: &mut rand::rngs::ThreadRng, bound: usize) -> (idx: usize)
    requires
        bound > 0,
    ensures
        idx < bound,
{
    rand::Rng::gen_range(rng, 0..bound)
}

} // verus!
