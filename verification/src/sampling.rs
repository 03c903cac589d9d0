//! The one place where the library touches a source of randomness.

use vstd::prelude::*;
use rand::rngs::StdRng;

verus! {

#[verifier::external_type_specification]
#[verifier::external_body]
pub struct ExStdRng(StdRng);

/// Relies on rand's `Rng::gen_range`: it returns a value of the half-open
/// range handed to it and panics only when that range is empty.
/// Nothing more is assumed of the draw: any residue below `bound` may come back.
#[verifier::external_body]
pub(crate) fn sample_below(rng: &mut StdRng, bound: u64) -> (r: u64)
    requires
        bound >= 1,
    ensures
        r < bound,
{
    rand::Rng::gen_range(rng, 0..bound)
}

} // verus!
