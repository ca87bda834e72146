//! The one source of randomness of the library.

use rand::{thread_rng, Rng};
use vstd::prelude::*;

verus! {

/// Draws a number below `bound` from the thread-local generator, through
/// `rand::Rng::gen_range(0, bound)`. The generator promises a value of the
/// half-open range and panics on an empty range, which `requires` excludes.
/// Nothing is claimed about which value comes out.
#[verifier::external_body]
pub(crate) fn random_below(bound: u32) -> (r: u32)
    requires
        bound > 0,
    ensures
        r < bound,
{
    thread_rng().gen_range(0, bound)
}

} // verus!
