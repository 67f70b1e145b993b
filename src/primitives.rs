//! Fixed-size byte strings, 256-bit integers, recipients and signatures,
//! with their RLP encodings.
use vstd::prelude::*;
use crate::rlp::{
    RlpError, at, truncated, be_bytes, be_value, canonical, pow256, rlp_string, rlp_uint, decode_string,
    encode_bytes, bytes_len, uint_to_be, lemma_be_value_of_bytes,
    lemma_be_bytes_len, lemma_pow256_8, lemma_rlp_string_tail,
};

verus! {

/// A 20-byte account address.
#[derive(Debug, Clone, Copy, PartialEq, Eq, Hash, Default)]
pub struct Address(pub [u8; 20]);

/// A 32-byte word, such as a storage key.
#[derive(Debug, Clone, Copy, PartialEq, Eq, Hash, Default)]
pub struct B256(pub [u8; 32]);

/// A 256-bit unsigned integer, held as its minimal big-endian bytes.
#[derive(Debug, Clone, PartialEq, Eq, Hash, Default)]
pub struct U256 {
    pub be: Vec<u8>,
}

impl U256 {
    /// The bytes are minimal and at most 32 long.
    pub open spec fn wf(&self) -> bool {
        canonical(self.be@) && self.be@.len() <= 32
    }

    /// The number held.
    pub open spec fn value(&self) -> nat {
        be_value(self.be@)
    }

    /// Zero.
    pub fn zero() -> (r: U256)
        ensures
            r.wf(),
            r.value() == 0,
    {
        U256 { be: Vec::new() }
    }

    /// The number `v`.
    pub fn from_u128(v: u128) -> (r: U256)
        ensures
            r.wf(),
            r.value() == v,
    {
        proof {
            lemma_be_value_of_bytes(v as nat);
            lemma_pow256_8();
            lemma_be_bytes_len(v as nat, 16);
        }
        U256 { be: uint_to_be(v) }
    }

    /// The number `v`.
    pub fn from_u64(v: u64) -> (r: U256)
        ensures
            r.wf(),
            r.value() == v,
    {
        U256::from_u128(v as u128)
    }

    /// The number of the big-endian bytes `b`, leading zeros allowed.
    pub fn from_be_slice(b: &[u8]) -> (r: Option<U256>)
        ensures
            r is Some <==> be_value(b@) < pow256(32),
            r is Some ==> r->Some_0.wf() && r->Some_0.value() == be_value(b@),
    {
        let mut i: usize = 0;
        while i < b.len() && b[i] == 0
            invariant
                i <= b.len(),
                forall|j: int| 0 <= j < i ==> b[j] == 0,
            decreases b.len() - i,
        {
            i = i + 1;
        }
        let ghost t = b@.subrange(i as int, b.len() as int);
        proof {
            lemma_leading_zeros(b@, i as int);
        }
        if b.len() - i > 32 {
            proof {
                crate::rlp::lemma_be_value_lower(t);
                crate::rlp::lemma_pow256_mono(32, (t.len() - 1) as nat);
            }
            return None;
        }
        let mut v: Vec<u8> = Vec::new();
        crate::rlp::append_bytes(&mut v, vstd::slice::slice_subrange(b, i, b.len()));
        proof {
            crate::rlp::lemma_be_value_bound(t);
            crate::rlp::lemma_pow256_mono(t.len(), 32);
        }
        Some(U256 { be: v })
    }
}

/// Leading zero bytes do not change the number that a string denotes.
pub proof fn lemma_leading_zeros(s: Seq<u8>, i: int)
    requires
        0 <= i <= s.len(),
        forall|j: int| 0 <= j < i ==> s[j] == 0,
    ensures
        be_value(s) == be_value(s.subrange(i, s.len() as int)),
    decreases s.len(),
{
    if i < s.len() {
        let t = s.drop_last();
        lemma_leading_zeros(t, i);
        assert(t.subrange(i, t.len() as int) == s.subrange(i, s.len() as int).drop_last());
    } else {
        lemma_all_zero(s);
    }
}

/// A string of zero bytes denotes zero.
pub proof fn lemma_all_zero(s: Seq<u8>)
    requires
        forall|j: int| 0 <= j < s.len() ==> s[j] == 0,
    ensures
        be_value(s) == 0,
    decreases s.len(),
{
    if s.len() > 0 {
        lemma_all_zero(s.drop_last());
    }
}

/// Reads `N` bytes of `buf` from `s` on into an array.
fn read_array<const N: usize>(buf: &[u8], s: usize) -> (r: [u8; N])
    requires
        s + N <= buf.len(),
    ensures
        r@ == buf@.subrange(s as int, s + N),
{
    let mut arr: [u8; N] = [0u8; N];
    let mut i: usize = 0;
    while i < N
        invariant
            i <= N,
            s + N <= buf.len(),
            arr@.len() == N,
            forall|j: int| 0 <= j < i ==> arr@[j] == buf@[s + j],
        decreases N - i,
    {
        arr[i] = buf[s + i];
        i = i + 1;
    }
    assert(arr@ =~= buf@.subrange(s as int, s + N));
    arr
}

/// Reads the encoding of an `N`-byte string at `pos`.
#[verifier::rlimit(80)]
pub fn decode_fixed<const N: usize>(buf: &[u8], pos: usize) -> (r: Result<([u8; N], usize), RlpError>)
    requires
        pos <= buf.len(),
    ensures
        r is Ok ==> {
            let (a, e) = r->Ok_0;
            &&& pos <= e <= buf.len()
            &&& buf@.subrange(pos as int, e as int) == rlp_string(a@)
        },
        forall|a: [u8; N]| #[trigger] at(buf@, pos as int, rlp_string(a@)) ==> r is Ok && r->Ok_0.0@ == a@ && r->Ok_0.1 == pos + rlp_string(a@).len(),
        forall|a: [u8; N]| #[trigger] truncated(buf@, pos as int, rlp_string(a@)) ==> r == Err::<([u8; N], usize), RlpError>(RlpError::InputTooShort),
        pos == buf.len() ==> r == Err::<([u8; N], usize), RlpError>(RlpError::InputTooShort),
{
    proof {
        assert forall|a: [u8; N]| #[trigger] truncated(buf@, pos as int, rlp_string(a@)) implies a@.len() <= usize::MAX by {}
    }
    let (s, e) = decode_string(buf, pos)?;
    proof {
        assert forall|a: [u8; N]| #[trigger] at(buf@, pos as int, rlp_string(a@)) implies buf@.subrange(s as int, e as int) == a@ by {
            lemma_rlp_string_tail(a@);
            let w = buf@.subrange(pos as int, e as int);
            assert(buf@.subrange(s as int, e as int) =~= w.subrange(s - pos, e - pos));
        }
    }
    if e - s != N {
        return Err(RlpError::UnexpectedLength);
    }
    let arr: [u8; N] = read_array(buf, s);
    Ok((arr, e))
}

/// The encoding of a 256-bit integer.
pub open spec fn enc_u256(u: U256) -> Seq<u8> {
    rlp_string(u.be@)
}

impl U256 {
    /// Writes the encoding of the number.
    pub fn encode(&self, out: &mut Vec<u8>)
        ensures
            final(out)@ == old(out)@ + enc_u256(*self),
    {
        encode_bytes(self.be.as_slice(), out);
    }

    /// The length of the encoding of the number.
    pub fn length(&self) -> (r: usize)
        requires
            self.wf(),
        ensures
            r == enc_u256(*self).len(),
            r <= 33,
    {
        bytes_len(self.be.as_slice())
    }

    /// Reads the encoding of a 256-bit integer at `pos`.
    pub fn decode(buf: &[u8], pos: usize) -> (r: Result<(U256, usize), RlpError>)
        requires
            pos <= buf.len(),
        ensures
            r is Ok ==> {
                let (u, e) = r->Ok_0;
                &&& u.wf()
                &&& pos <= e <= buf.len()
                &&& buf@.subrange(pos as int, e as int) == enc_u256(u)
            },
            forall|u: U256| u.wf() && #[trigger] at(buf@, pos as int, enc_u256(u)) ==> r is Ok && r->Ok_0.0.be@ == u.be@ && r->Ok_0.1 == pos + enc_u256(u).len(),
            forall|n: nat| n < pow256(32) && #[trigger] at(buf@, pos as int, rlp_uint(n)) ==> r is Ok && r->Ok_0.0.value() == n && r->Ok_0.1 == pos + rlp_uint(n).len(),
            forall|b: Seq<u8>| #[trigger] at(buf@, pos as int, rlp_string(b)) && b.len() > 0 && b[0] == 0 ==> r == Err::<(U256, usize), RlpError>(RlpError::NonCanonicalInt),
            forall|b: Seq<u8>| b.len() <= usize::MAX && #[trigger] truncated(buf@, pos as int, rlp_string(b)) ==> r == Err::<(U256, usize), RlpError>(RlpError::InputTooShort),
    {
        let (s, e) = decode_string(buf, pos)?;
        let ghost b = buf@.subrange(s as int, e as int);
        proof {
            assert forall|c: Seq<u8>| #[trigger] at(buf@, pos as int, rlp_string(c)) implies c == b by {
                lemma_rlp_string_tail(c);
                let w = buf@.subrange(pos as int, e as int);
                assert(b =~= w.subrange(s - pos, e - pos));
            }
            assert forall|u: U256| u.wf() && #[trigger] at(buf@, pos as int, enc_u256(u)) implies u.be@ == b by {
                assert(at(buf@, pos as int, rlp_string(u.be@)));
            }
            assert forall|n: nat| n < pow256(32) && #[trigger] at(buf@, pos as int, rlp_uint(n)) implies be_bytes(n) == b && canonical(b) && b.len() <= 32 && be_value(b) == n by {
                assert(at(buf@, pos as int, rlp_string(be_bytes(n))));
                lemma_be_value_of_bytes(n);
                lemma_be_bytes_len(n, 32);
            }
        }
        if e > s && buf[s] == 0 {
            return Err(RlpError::NonCanonicalInt);
        }
        if e - s > 32 {
            return Err(RlpError::Overflow);
        }
        let mut v: Vec<u8> = Vec::new();
        crate::rlp::append_bytes(&mut v, vstd::slice::slice_subrange(buf, s, e));
        Ok((U256 { be: v }, e))
    }
}

/// The recipient of a transaction: a new contract, or an existing address.
#[derive(Debug, Clone, Copy, PartialEq, Eq, Hash)]
pub enum TxKind {
    /// Creates a contract.
    Create,
    /// Calls the account at the address.
    Call(Address),
}

/// The encoding of a recipient: the empty string for a creation.
pub open spec fn enc_kind(k: TxKind) -> Seq<u8> {
    match k {
        TxKind::Create => rlp_string(Seq::empty()),
        TxKind::Call(a) => rlp_string(a.0@),
    }
}

impl TxKind {
    /// Writes the encoding of the recipient.
    pub fn encode(&self, out: &mut Vec<u8>)
        ensures
            final(out)@ == old(out)@ + enc_kind(*self),
    {
        match self {
            TxKind::Create => {
                let empty: Vec<u8> = Vec::new();
                encode_bytes(empty.as_slice(), out);
            },
            TxKind::Call(a) => {
                encode_bytes(a.0.as_slice(), out);
            },
        }
    }

    /// The length of the encoding of the recipient.
    pub fn length(&self) -> (r: usize)
        ensures
            r == enc_kind(*self).len(),
            r <= 21,
    {
        match self {
            TxKind::Create => 1,
            TxKind::Call(a) => {
                proof {
                    crate::rlp::lemma_len_bytes(20);
                }
                21
            },
        }
    }

    /// Reads the encoding of a recipient at `pos`.
    pub fn decode(buf: &[u8], pos: usize) -> (r: Result<(TxKind, usize), RlpError>)
        requires
            pos <= buf.len(),
        ensures
            r is Ok ==> {
                let (k, e) = r->Ok_0;
                &&& pos <= e <= buf.len()
                &&& buf@.subrange(pos as int, e as int) == enc_kind(k)
            },
            forall|k: TxKind| #[trigger] at(buf@, pos as int, enc_kind(k)) ==> r == Ok::<(TxKind, usize), RlpError>((k, (pos + enc_kind(k).len()) as usize)),
            forall|k: TxKind| #[trigger] truncated(buf@, pos as int, enc_kind(k)) ==> r == Err::<(TxKind, usize), RlpError>(RlpError::InputTooShort),
    {
        proof {
            assert forall|k: TxKind| #[trigger] truncated(buf@, pos as int, enc_kind(k)) implies
                (k is Create ==> pos == buf.len()) && (k is Call ==> truncated(buf@, pos as int, rlp_string(k->Call_0.0@)))
                && (k is Call && pos < buf.len() ==> buf[pos as int] == 0x94) by {
                if pos < buf.len() {
                    let e = enc_kind(k);
                    let n = buf.len() - pos;
                    assert(buf@[pos as int] == buf@.subrange(pos as int, buf.len() as int)[0]);
                    assert(e[0] == e.subrange(0, n)[0]);
                }
            }
        }
        if pos < buf.len() && buf[pos] == 0x80 {
            proof {
                assert(buf@.subrange(pos as int, pos + 1) =~= rlp_string(Seq::empty()));
                assert forall|k: TxKind| #[trigger] at(buf@, pos as int, enc_kind(k)) implies k == TxKind::Create by {
                    if let TxKind::Call(a) = k {
                        assert(enc_kind(k)[0] == buf@[pos as int]);
                    }
                }
            }
            return Ok((TxKind::Create, pos + 1));
        }
        proof {
            assert forall|k: TxKind| #[trigger] at(buf@, pos as int, enc_kind(k)) implies k is Call by {
                if k is Create {
                    assert(enc_kind(k)[0] == buf@[pos as int]);
                }
            }
        }
        let (a, e) = decode_fixed::<20>(buf, pos)?;
        proof {
            assert forall|k: TxKind| #[trigger] at(buf@, pos as int, enc_kind(k)) implies k == TxKind::Call(Address(a)) by {
                if let TxKind::Call(b) = k {
                    assert(at(buf@, pos as int, rlp_string(b.0@)));
                    assert(b.0 =~= a);
                }
            }
        }
        Ok((TxKind::Call(Address(a)), e))
    }
}

} // verus!
