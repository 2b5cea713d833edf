use vstd::prelude::*;
use rand::Rng;

verus! {

/// Draws an index below `bound` from the thread's random number generator, by
/// `rand::Rng::gen_range` on `rand::thread_rng()` with the range `0..bound`.
/// The range must not be empty, or the call panics; the draw lies in it.
/// Which index comes out is left to chance, so nothing more is claimed.
#[verifier::external_body]
pub(crate) fn random_below(bound: usize) -> (index: usize)
    requires
        bound > 0,
    ensures
        index < bound,
{
    rand::thread_rng().gen_range(0..bound)
}

} // verus!
