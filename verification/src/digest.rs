//! The hash primitive: RIPEMD-160 consumed through a trusted adapter.

use ripemd::Digest;
use vstd::prelude::*;

verus! {

/// The RIPEMD-160 digest of a byte sequence, left abstract: the algorithm
/// itself is supplied by an outside crate and is not restated here.  All
/// contracts that mention a digest go through this name.
pub uninterp spec fn ripemd160_of(bytes: Seq<u8>) -> Seq<u8>;

/// Relies on ripemd's `Ripemd160` (RIPEMD-160 of ISO/IEC 10118-3) through the
/// `Digest` trait: the 20-byte digest is a function of the input bytes alone.
#[verifier::external_body]
pub fn ripemd160_digest(bytes: &[u8]) -> (r: Vec<u8>)
    ensures
        r@ == ripemd160_of(bytes@),
        r@.len() == 20,
{
    ripemd::Ripemd160::digest(bytes).to_vec()
}

/// Law: hashing is deterministic — equal byte sequences have equal digests.
pub proof fn lemma_hash_deterministic(b1: Seq<u8>, b2: Seq<u8>)
    requires
        b1 == b2,
    ensures
        ripemd160_of(b1) == ripemd160_of(b2),
{
}

} // verus!
