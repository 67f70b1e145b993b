//! Signatures over transactions: the parity conventions, and the
//! `(v, r, s)` encoding that follows a transaction's fields.
use vstd::prelude::*;
use crate::rlp::{RlpError, at, pow256, rlp_string, rlp_uint, decode_uint, encode_uint, uint_len, lemma_pow256_8};
use crate::primitives::{U256, enc_u256};

verus! {

/// How the recovery parity of a signature is written.
#[derive(Debug, Clone, Copy, PartialEq, Eq, Hash, Structural)]
pub enum Parity {
    /// A `v` value that may carry a chain id.
    Eip155(u64),
    /// `27` for even, `28` for odd.
    NonEip155(bool),
    /// The parity itself: true for odd.
    Parity(bool),
}

/// The number that a parity is written as.
pub open spec fn parity_value(p: Parity) -> nat {
    match p {
        Parity::Eip155(v) => v as nat,
        Parity::NonEip155(b) => if b { 28 } else { 27 },
        Parity::Parity(b) => if b { 1 } else { 0 },
    }
}

/// Whether the point's y coordinate is odd.
pub open spec fn y_parity(p: Parity) -> bool {
    match p {
        Parity::Eip155(v) => if v <= 34 { v % 2 == 1 } else { v % 2 == 0 },
        Parity::NonEip155(b) => b,
        Parity::Parity(b) => b,
    }
}

/// The parity that a decoder gives for the value `v`, if any.
pub open spec fn parity_of_value(v: nat) -> Option<Parity> {
    if v == 0 {
        Some(Parity::Parity(false))
    } else if v == 1 {
        Some(Parity::Parity(true))
    } else if v == 27 {
        Some(Parity::NonEip155(false))
    } else if v == 28 {
        Some(Parity::NonEip155(true))
    } else if 35 <= v < pow256(8) {
        Some(Parity::Eip155(v as u64))
    } else {
        None
    }
}

impl Parity {
    /// Whether the point's y coordinate is odd.
    pub fn y_parity(&self) -> (r: bool)
        ensures
            r == y_parity(*self),
    {
        match self {
            Parity::Eip155(v) => if *v <= 34 { *v % 2 == 1 } else { *v % 2 == 0 },
            Parity::NonEip155(b) => *b,
            Parity::Parity(b) => *b,
        }
    }

    /// The plain parity flag of the same y coordinate.
    pub fn to_parity_bool(&self) -> (r: Parity)
        ensures
            r == Parity::Parity(y_parity(*self)),
    {
        Parity::Parity(self.y_parity())
    }

    /// The number that the parity is written as.
    pub fn to_u64(&self) -> (r: u64)
        ensures
            r == parity_value(*self),
    {
        match self {
            Parity::Eip155(v) => *v,
            Parity::NonEip155(b) => if *b { 28 } else { 27 },
            Parity::Parity(b) => if *b { 1 } else { 0 },
        }
    }

    /// Writes the encoding of the parity.
    pub fn encode(&self, out: &mut Vec<u8>)
        ensures
            final(out)@ == old(out)@ + rlp_uint(parity_value(*self)),
    {
        encode_uint(self.to_u64() as u128, out);
    }

    /// The length of the encoding of the parity.
    pub fn length(&self) -> (r: usize)
        ensures
            r == rlp_uint(parity_value(*self)).len(),
            r <= 17,
    {
        uint_len(self.to_u64() as u128)
    }

    /// Reads the encoding of a parity at `pos`.
    pub fn decode(buf: &[u8], pos: usize) -> (r: Result<(Parity, usize), RlpError>)
        requires
            pos <= buf.len(),
        ensures
            r is Ok ==> {
                let (p, e) = r->Ok_0;
                &&& pos <= e <= buf.len()
                &&& buf@.subrange(pos as int, e as int) == rlp_uint(parity_value(p))
                &&& parity_of_value(parity_value(p)) == Some(p)
            },
            forall|v: nat|
                v < pow256(8) && #[trigger] at(buf@, pos as int, rlp_uint(v)) ==> match parity_of_value(v) {
                    Some(p) => r == Ok::<(Parity, usize), RlpError>((p, (pos + rlp_uint(v).len()) as usize)),
                    None => r == Err::<(Parity, usize), RlpError>(RlpError::InvalidParity),
                },
            forall|b: Seq<u8>| #[trigger] at(buf@, pos as int, rlp_string(b)) && b.len() > 0 && b[0] == 0
                ==> r == Err::<(Parity, usize), RlpError>(RlpError::NonCanonicalInt),
    {
        proof {
            lemma_pow256_8();
        }
        let (v, e) = decode_uint(buf, pos, 8)?;
        let v = v as u64;
        if v == 0 {
            Ok((Parity::Parity(false), e))
        } else if v == 1 {
            Ok((Parity::Parity(true), e))
        } else if v == 27 {
            Ok((Parity::NonEip155(false), e))
        } else if v == 28 {
            Ok((Parity::NonEip155(true), e))
        } else if v >= 35 {
            Ok((Parity::Eip155(v), e))
        } else {
            Err(RlpError::InvalidParity)
        }
    }
}

/// The encodings of the signature items before item `j` (parity, `r`,
/// `s`, for `j` from 0 to 2), of a parity written as `pv` and an `r` of `n`.
pub open spec fn vrs_prefix(pv: nat, n: nat, j: int) -> Seq<u8> {
    if j <= 0 {
        Seq::empty()
    } else if j == 1 {
        rlp_uint(pv)
    } else {
        rlp_uint(pv) + rlp_uint(n)
    }
}

/// An ECDSA signature: the scalars `r` and `s` and the recovery parity.
#[derive(Debug, Clone, PartialEq, Eq, Hash)]
pub struct Signature {
    pub r: U256,
    pub s: U256,
    pub v: Parity,
}

/// The encoding of a signature's fields, in the order `v`, `r`, `s`.
pub open spec fn enc_sig(sig: Signature) -> Seq<u8> {
    rlp_uint(parity_value(sig.v)) + enc_u256(sig.r) + enc_u256(sig.s)
}

impl Signature {
    /// Both scalars are well formed.
    pub open spec fn wf(&self) -> bool {
        self.r.wf() && self.s.wf()
    }

    /// The same scalars with the parity written as a plain flag.
    pub fn with_parity_bool(self) -> (r: Signature)
        ensures
            r.r == self.r,
            r.s == self.s,
            r.v == Parity::Parity(y_parity(self.v)),
    {
        let v = self.v.to_parity_bool();
        Signature { r: self.r, s: self.s, v }
    }

    /// The length of the encoding of the signature's fields.
    pub fn rlp_vrs_len(&self) -> (r: usize)
        requires
            self.wf(),
        ensures
            r == enc_sig(*self).len(),
            r <= 83,
    {
        self.v.length() + self.r.length() + self.s.length()
    }

    /// Writes the encoding of the signature's fields.
    pub fn write_rlp_vrs(&self, out: &mut Vec<u8>)
        ensures
            final(out)@ == old(out)@ + enc_sig(*self),
    {
        self.v.encode(out);
        self.r.encode(out);
        self.s.encode(out);
        assert(final(out)@ =~= old(out)@ + enc_sig(*self));
    }

    /// Reads the encoding of a signature's fields at `pos`.
    #[verifier::rlimit(100)]
    #[verifier::spinoff_prover]
    pub fn decode_rlp_vrs(buf: &[u8], pos: usize) -> (r: Result<(Signature, usize), RlpError>)
        requires
            pos <= buf.len(),
        ensures
            r is Ok ==> {
                let (sig, e) = r->Ok_0;
                &&& sig.wf()
                &&& pos <= e <= buf.len()
                &&& buf@.subrange(pos as int, e as int) == enc_sig(sig)
                &&& parity_of_value(parity_value(sig.v)) == Some(sig.v)
            },
            forall|sig: Signature|
                sig.wf() && parity_of_value(parity_value(sig.v)) is Some && #[trigger] at(buf@, pos as int, enc_sig(sig)) ==> r is Ok && {
                    let (d, e) = r->Ok_0;
                    &&& d.v == parity_of_value(parity_value(sig.v))->Some_0
                    &&& d.r.be@ == sig.r.be@
                    &&& d.s.be@ == sig.s.be@
                    &&& e == pos + enc_sig(sig).len()
                },
            forall|pv: nat, n: nat, j: int, b: Seq<u8>|
                0 <= j <= 2 && pv < pow256(8) && parity_of_value(pv) is Some && n < pow256(32)
                    && at(buf@, pos as int, vrs_prefix(pv, n, j)) && #[trigger] at(buf@, pos + vrs_prefix(pv, n, j).len(), rlp_string(b)) && b.len() > 0 && b[0] == 0
                    ==> r == Err::<(Signature, usize), RlpError>(RlpError::NonCanonicalInt),
    {
        let ghost b = buf@;
        proof {
            lemma_pow256_8();
            assert forall|sig: Signature|
                sig.wf() && parity_of_value(parity_value(sig.v)) is Some && #[trigger] at(buf@, pos as int, enc_sig(sig))
                implies parity_value(sig.v) < pow256(8) && at(buf@, pos as int, rlp_uint(parity_value(sig.v))) by {
                let a = rlp_uint(parity_value(sig.v));
                let w = enc_sig(sig);
                assert(w.subrange(0, a.len() as int) =~= a);
                assert(buf@.subrange(pos as int, pos + a.len()) =~= buf@.subrange(pos as int, pos + w.len()).subrange(0, a.len() as int));
            }
        }
        proof {
            assert forall|pv: nat, n: nat, j: int, b: Seq<u8>|
                0 <= j <= 2 && pv < pow256(8) && parity_of_value(pv) is Some && n < pow256(32)
                    && at(buf@, pos as int, vrs_prefix(pv, n, j)) && #[trigger] at(buf@, pos + vrs_prefix(pv, n, j).len(), rlp_string(b)) && b.len() > 0 && b[0] == 0
                implies (j == 0 ==> at(buf@, pos as int, rlp_string(b))) && (j > 0 ==> at(buf@, pos as int, rlp_uint(pv))) by {
                if j == 2 {
                    crate::rlp::lemma_at_split(buf@, pos as int, rlp_uint(pv), rlp_uint(n));
                }
            }
        }
        let (v, p1) = Parity::decode(buf, pos)?;
        proof {
            assert forall|pv: nat, n: nat, j: int, b: Seq<u8>|
                0 <= j <= 2 && pv < pow256(8) && parity_of_value(pv) is Some && n < pow256(32)
                    && at(buf@, pos as int, vrs_prefix(pv, n, j)) && #[trigger] at(buf@, pos + vrs_prefix(pv, n, j).len(), rlp_string(b)) && b.len() > 0 && b[0] == 0
                implies j > 0 && p1 == pos + rlp_uint(pv).len() && (j == 1 ==> at(buf@, p1 as int, rlp_string(b))) && (j == 2 ==> at(buf@, p1 as int, rlp_uint(n))) by {
                if j == 2 {
                    crate::rlp::lemma_at_split(buf@, pos as int, rlp_uint(pv), rlp_uint(n));
                }
            }
        }
        proof {
            assert forall|sig: Signature|
                sig.wf() && parity_of_value(parity_value(sig.v)) is Some && #[trigger] at(buf@, pos as int, enc_sig(sig))
                implies at(buf@, p1 as int, enc_u256(sig.r)) by {
                let a = rlp_uint(parity_value(sig.v));
                let c = enc_u256(sig.r);
                let w = enc_sig(sig);
                assert(w.subrange(a.len() as int, (a.len() + c.len()) as int) =~= c);
                assert(buf@.subrange(p1 as int, p1 + c.len()) =~= buf@.subrange(pos as int, pos + w.len()).subrange(a.len() as int, (a.len() + c.len()) as int));
            }
        }
        let (r, p2) = U256::decode(buf, p1)?;
        proof {
            assert forall|pv: nat, n: nat, j: int, b: Seq<u8>|
                0 <= j <= 2 && pv < pow256(8) && parity_of_value(pv) is Some && n < pow256(32)
                    && at(buf@, pos as int, vrs_prefix(pv, n, j)) && #[trigger] at(buf@, pos + vrs_prefix(pv, n, j).len(), rlp_string(b)) && b.len() > 0 && b[0] == 0
                implies j == 2 && at(buf@, p2 as int, rlp_string(b)) by {
                if j == 2 {
                    crate::rlp::lemma_at_split(buf@, pos as int, rlp_uint(pv), rlp_uint(n));
                }
            }
        }
        proof {
            assert forall|sig: Signature|
                sig.wf() && parity_of_value(parity_value(sig.v)) is Some && #[trigger] at(buf@, pos as int, enc_sig(sig))
                implies at(buf@, p2 as int, enc_u256(sig.s)) by {
                let a = rlp_uint(parity_value(sig.v));
                let c = enc_u256(sig.r);
                let d = enc_u256(sig.s);
                let w = enc_sig(sig);
                assert(w.subrange((a.len() + c.len()) as int, (a.len() + c.len() + d.len()) as int) =~= d);
                assert(buf@.subrange(p2 as int, p2 + d.len()) =~= buf@.subrange(pos as int, pos + w.len()).subrange((a.len() + c.len()) as int, (a.len() + c.len() + d.len()) as int));
            }
        }
        let (s, p3) = U256::decode(buf, p2)?;
        let sig = Signature { r, s, v };
        assert(buf@.subrange(pos as int, p3 as int) =~= buf@.subrange(pos as int, p1 as int) + buf@.subrange(p1 as int, p2 as int) + buf@.subrange(p2 as int, p3 as int));
        Ok((sig, p3))
    }
}

} // verus!
