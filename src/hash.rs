//! The Keccak-256 digest that names transactions.
use vstd::prelude::*;
use crate::primitives::B256;

verus! {

/// The Keccak-256 digest of a byte string.
pub uninterp spec fn keccak_of(data: Seq<u8>) -> Seq<u8>;

/// Relies on `alloy_primitives::keccak256`: the Keccak-256 digest of the
/// bytes, which depends on the bytes alone.
#[verifier::external_body]
pub(crate) fn keccak256(data: &[u8]) -> (r: B256)
    ensures
        r.0@ == keccak_of(data@),
{
    B256(alloy_primitives::keccak256(data).0)
}

} // verus!
