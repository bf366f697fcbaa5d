//! The walk's source of randomness.

use vstd::prelude::*;
use rand::Rng;

verus! {

/// Relies on `rand::Rng::gen_range` over the thread-local generator: it
/// returns a value uniformly sampled from the half-open range, and panics
/// only when the range is empty, which the precondition rules out.  The
/// generator itself can still abort if the operating system's entropy
/// source fails, an environmental failure of the same kind as running out
/// of memory.
#[verifier::external_body]
pub(crate) fn rand_index(n: usize) -> (r: usize)
    requires
        n > 0,
    ensures
        r < n,
{
    rand::thread_rng().gen_range(0..n)
}

} // verus!
