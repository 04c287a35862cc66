//! The content digest the engine keys everything by.

use vstd::prelude::*;

verus! {

/// What keccak-256 returns on a byte string. The digest is a pure function
/// of the input bytes; nothing else is assumed about it.
pub uninterp spec fn keccak_of(data: Seq<u8>) -> Seq<u8>;

/// Relies on alloy_primitives::keccak256: the 32-byte keccak-256 digest of
/// the input, depending on the input bytes alone.
#[verifier::external_body]
pub(crate) fn keccak(data: &Vec<u8>) -> (r: Vec<u8>)
    ensures
        r@ == keccak_of(data@),
        r@.len() == 32,
{
    alloy_primitives::keccak256(data.as_slice()).to_vec()
}

} // verus!
