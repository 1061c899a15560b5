//! Random choices.
use vstd::prelude::*;
use rand::Rng;

verus! {

/// `Rng::gen_range` of the thread's generator: some number below `n`.
#[verifier::external_body]
pub(crate) fn below(n: usize) -> (r: usize)
    requires
        n > 0,
    ensures
        r < n,
{
    rand::thread_rng().gen_range(0..n)
}

} // verus!
