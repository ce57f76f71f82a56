//! Calls into the process-wide random number generator.

use rand::Rng;
use vstd::prelude::*;

verus! {

/// Relies on `rand::random::<bool>`: one fair coin flip, each outcome drawn
/// with equal probability. Nothing is stated of the outcome.
#[verifier::external_body]
pub(crate) fn coin_flip() -> bool {
    rand::random::<bool>()
}

/// Relies on `rand::Rng::gen_range` over `0..len` through `rand::thread_rng`:
/// an index drawn below `len` (the call refuses an empty range).
#[verifier::external_body]
pub(crate) fn pick_index(len: usize) -> (r: usize)
    requires
        len > 0,
    ensures
        r < len,
{
    rand::thread_rng().gen_range(0..len)
}

} // verus!
