//! Canonical RLP codec for typed access-list transactions: the primitive
//! encoders and decoders, the transaction field schema, the typed envelope
//! and the signing digest pipeline.
use vstd::prelude::*;

pub mod rlp;
pub mod primitives;
pub mod signature;
pub mod access_list;
pub mod hash;
pub mod eip2930;
pub mod envelope;

verus! {

} // verus!
