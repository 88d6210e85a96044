//! The library's only source of randomness, consumed through a trusted
//! adapter.

use rand::Rng;
use vstd::prelude::*;

verus! {

/// Relies on rand's `thread_rng` and `Rng::gen_range` over `0..bound`:
/// the draw lies in the range.  Nothing more is assumed of a random value.
#[verifier::external_body]
pub fn random_below(bound: u128) -> (r: u128)
    requires
        bound > 0,
    ensures
        r < bound,
{
    rand::thread_rng().gen_range(0..bound)
}

} // verus!
