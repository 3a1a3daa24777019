//! Keccak-256, through `alloy_primitives`.

use vstd::prelude::*;

verus! {

/// The Keccak-256 digest of `data`, as `alloy_primitives::keccak256` computes
/// it.
pub uninterp spec fn keccak256(data: Seq<u8>) -> Seq<u8>;

/// `alloy_primitives::keccak256` on `data`, as a vector. Trusted: the result
/// is the digest named `keccak256`, and it has 32 bytes.
#[verifier::external_body]
pub(crate) fn keccak(data: &Vec<u8>) -> (r: Vec<u8>)
    ensures
        r@ == keccak256(data@),
        r@.len() == 32,
{
    alloy_primitives::keccak256(data).to_vec()
}

} // verus!
