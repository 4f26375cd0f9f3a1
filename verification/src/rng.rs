//! Trusted boundary to the random number generator.
//!
//! The food spawner draws uniformly random cells.  The draws come from
//! the `rand` crate; the core assumes nothing about them beyond range
//! membership, and the verified spawner logic holds for every value the
//! generator can hand back.

use vstd::prelude::*;
use rand::Rng;

verus! {

/// `rand`'s thread-local generator, declared so that its values can flow
/// through verified code (the core never looks inside one).
#[verifier::external_type_specification]
#[verifier::external_body]
pub struct ExThreadRng(rand::rngs::ThreadRng);

/// Relies on rand::thread_rng: hands out the thread-local generator.
#[verifier::external_body]
pub(crate) fn new_thread_rng() -> rand::rngs::ThreadRng {
    rand::thread_rng()
}

/// Relies on rand::Rng::gen_range over the range `0..n`: it returns a
/// value of that range and panics only when the range is empty, which
/// the precondition rules out.  Only membership is assumed; the draw is
/// random and two calls on the same input may differ.
#[verifier::external_body]
pub(crate) fn rand_below(rng: &mut rand::rngs::ThreadRng, n: u32) -> (r: u32)
    requires
        n >= 1,
    ensures
        r < n,
{
    rng.gen_range(0..n)
}

} // verus!
