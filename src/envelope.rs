//! The typed envelope: a type byte in front of a transaction's signed list,
//! and the dispatch from that byte to the matching decoder.
use vstd::prelude::*;
use crate::rlp::{RlpError, at, truncated, rlp_string, decode_string, lemma_rlp_string_tail};
use crate::signature::Signature;
use crate::eip2930::{
    EIP2930_TX_TYPE, Signed, TxEip2930, TxType, TxView, enc_network, enc_signed, enc_with_sig,
    fields_fit, normalized, parity_round_trips, same_sig, valid_view,
};

verus! {

/// The sealed transaction `sd` is what `bytes` holds in the sealed wire form.
pub open spec fn seals(sd: Signed, bytes: Seq<u8>) -> bool {
    exists|s0: Signature| s0.wf() && normalized(s0) == sd.sig_spec() && bytes == #[trigger] enc_signed(sd.tx_spec()@, s0)
}

/// The sealed transaction `sd` matches the transaction `v` signed with `sig`.
pub open spec fn matches_signed(sd: Signed, v: TxView, sig: Signature) -> bool {
    sd.tx_spec()@ == v && same_sig(sd.sig_spec(), normalized(sig))
}

/// A sealed transaction of one of the known types.
#[derive(Debug, PartialEq, Eq, Hash)]
pub enum TxEnvelope {
    /// An access-list transaction.
    Eip2930(Signed),
}

/// The sealed wire form of an envelope.
pub open spec fn enc_envelope(env: TxEnvelope) -> Seq<u8> {
    match env {
        TxEnvelope::Eip2930(sd) => enc_signed(sd.tx_spec()@, sd.sig_spec()),
    }
}

impl TxEnvelope {
    /// The kind of the transaction inside.
    pub fn tx_type(&self) -> (r: TxType)
        ensures
            self is Eip2930 ==> r == TxType::Eip2930,
    {
        match self {
            TxEnvelope::Eip2930(_) => TxType::Eip2930,
        }
    }

    /// Writes the sealed wire form: the type byte, then the signed list.
    pub fn encode_2718(&self, out: &mut Vec<u8>)
        ensures
            final(out)@ == old(out)@ + enc_envelope(*self),
    {
        match self {
            TxEnvelope::Eip2930(sd) => sd.encode_2718(out),
        }
    }

    /// The length of the sealed wire form.
    pub fn encode_2718_len(&self) -> (r: usize)
        ensures
            r == enc_envelope(*self).len(),
    {
        match self {
            TxEnvelope::Eip2930(sd) => sd.encode_2718_len(),
        }
    }

    /// Writes the sealed wire form wrapped as a string.
    pub fn encode(&self, out: &mut Vec<u8>)
        ensures
            final(out)@ == old(out)@ + rlp_string(enc_envelope(*self)),
    {
        match self {
            TxEnvelope::Eip2930(sd) => sd.encode(out),
        }
    }

    /// The length of the sealed wire form wrapped as a string.
    pub fn length(&self) -> (r: usize)
        ensures
            r == rlp_string(enc_envelope(*self)).len(),
    {
        match self {
            TxEnvelope::Eip2930(sd) => sd.length(),
        }
    }

    /// Reads a sealed wire form at `pos`: the type byte picks the decoder.
    /// A byte of `0xc0` or more opens an untyped legacy transaction, which
    /// is reported as such.
    pub fn decode_2718(buf: &[u8], pos: usize) -> (r: Result<(TxEnvelope, usize), RlpError>)
        requires
            pos <= buf.len(),
            buf.len() <= isize::MAX,
        ensures
            r is Ok ==> {
                let (env, e) = r->Ok_0;
                &&& pos < e <= buf.len()
                &&& env matches TxEnvelope::Eip2930(sd) && seals(sd, buf@.subrange(pos as int, e as int))
            },
            forall|v: TxView, sig: Signature|
                valid_view(v) && sig.wf() && parity_round_trips(sig.v) && #[trigger] at(buf@, pos as int, enc_signed(v, sig)) ==> r is Ok && {
                    let (env, e) = r->Ok_0;
                    &&& env matches TxEnvelope::Eip2930(sd) && matches_signed(sd, v, sig)
                    &&& e == pos + enc_signed(v, sig).len()
                },
            forall|v: TxView, sig: Signature|
                fields_fit(v) && sig.wf() && #[trigger] truncated(buf@, pos as int, enc_signed(v, sig)) ==> r == Err::<(TxEnvelope, usize), RlpError>(RlpError::InputTooShort),
            pos == buf.len() ==> r == Err::<(TxEnvelope, usize), RlpError>(RlpError::InputTooShort),
            pos < buf.len() && buf[pos as int] >= 0xc0 ==> r == Err::<(TxEnvelope, usize), RlpError>(RlpError::LegacyTransaction),
            pos < buf.len() && buf[pos as int] < 0xc0 && buf[pos as int] != EIP2930_TX_TYPE ==> r == Err::<(TxEnvelope, usize), RlpError>(RlpError::UnsupportedTransactionType),
    {
        if pos >= buf.len() {
            return Err(RlpError::InputTooShort);
        }
        let ty = buf[pos];
        proof {
            assert forall|v: TxView, sig: Signature|
                fields_fit(v) && sig.wf() && #[trigger] truncated(buf@, pos as int, enc_signed(v, sig)) implies
                    ty == EIP2930_TX_TYPE && truncated(buf@, pos + 1, enc_with_sig(v, sig)) by {
                let e = enc_signed(v, sig);
                let n = buf.len() - pos;
                assert(buf@[pos as int] == buf@.subrange(pos as int, buf.len() as int)[0]);
                assert(e[0] == e.subrange(0, n)[0]);
                let w = enc_with_sig(v, sig);
                assert(e == seq![EIP2930_TX_TYPE] + w);
                assert forall|i: int| 0 <= i < n - 1 implies #[trigger] buf@.subrange(pos + 1, buf.len() as int)[i] == w.subrange(0, n - 1)[i] by {
                    assert(buf@.subrange(pos as int, buf.len() as int)[i + 1] == e.subrange(0, n)[i + 1]);
                    assert(e[i + 1] == w[i]);
                }
                assert(buf@.subrange(pos + 1, buf.len() as int) =~= w.subrange(0, n - 1));
            }
            assert forall|v: TxView, sig: Signature|
                valid_view(v) && sig.wf() && parity_round_trips(sig.v) && #[trigger] at(buf@, pos as int, enc_signed(v, sig)) implies
                    ty == EIP2930_TX_TYPE && at(buf@, pos + 1, enc_with_sig(v, sig)) by {
                crate::rlp::lemma_at_split(buf@, pos as int, seq![EIP2930_TX_TYPE], enc_with_sig(v, sig));
                assert(buf@[pos as int] == buf@.subrange(pos as int, pos + 1)[0]);
            }
        }
        if ty >= 0xc0 {
            return Err(RlpError::LegacyTransaction);
        }
        if ty != EIP2930_TX_TYPE {
            return Err(RlpError::UnsupportedTransactionType);
        }
        let (sd, e) = TxEip2930::decode_signed(buf, pos + 1)?;
        proof {
            let s0 = choose|s0: Signature| s0.wf() && normalized(s0) == sd.sig_spec() && buf@.subrange(pos + 1, e as int) == #[trigger] enc_with_sig(sd.tx_spec()@, s0);
            assert(buf@.subrange(pos as int, e as int) =~= seq![ty] + buf@.subrange(pos + 1, e as int));
            assert(buf@.subrange(pos as int, e as int) == enc_signed(sd.tx_spec()@, s0));
        }
        Ok((TxEnvelope::Eip2930(sd), e))
    }

    /// Reads a sealed wire form wrapped as a string at `pos`.
    pub fn decode(buf: &[u8], pos: usize) -> (r: Result<(TxEnvelope, usize), RlpError>)
        requires
            pos <= buf.len(),
            buf.len() <= isize::MAX,
        ensures
            r is Ok ==> {
                let (env, e) = r->Ok_0;
                &&& pos < e <= buf.len()
                &&& exists|inner: Seq<u8>| #[trigger] rlp_string(inner) == buf@.subrange(pos as int, e as int) && (env matches TxEnvelope::Eip2930(sd) && seals(sd, inner))
            },
            forall|v: TxView, sig: Signature|
                valid_view(v) && sig.wf() && parity_round_trips(sig.v) && #[trigger] at(buf@, pos as int, enc_network(v, sig)) ==> r is Ok && {
                    let (env, e) = r->Ok_0;
                    &&& env matches TxEnvelope::Eip2930(sd) && matches_signed(sd, v, sig)
                    &&& e == pos + enc_network(v, sig).len()
                },
    {
        let (s, e) = decode_string(buf, pos)?;
        proof {
            assert forall|v: TxView, sig: Signature|
                valid_view(v) && sig.wf() && parity_round_trips(sig.v) && #[trigger] at(buf@, pos as int, enc_network(v, sig)) implies
                    at(buf@, s as int, enc_signed(v, sig)) && e == s + enc_signed(v, sig).len() by {
                let x = enc_signed(v, sig);
                assert(at(buf@, pos as int, rlp_string(x)));
                lemma_rlp_string_tail(x);
                let w = buf@.subrange(pos as int, e as int);
                assert(buf@.subrange(s as int, e as int) =~= w.subrange(s - pos, e - pos));
            }
        }
        let inner = vstd::slice::slice_subrange(buf, 0, e);
        proof {
            assert forall|v: TxView, sig: Signature|
                valid_view(v) && sig.wf() && parity_round_trips(sig.v) && #[trigger] at(buf@, pos as int, enc_network(v, sig)) implies
                    at(inner@, s as int, enc_signed(v, sig)) by {
                let x = enc_signed(v, sig);
                assert(inner@.subrange(s as int, s + x.len()) =~= buf@.subrange(s as int, s + x.len()));
            }
        }
        let (env, q) = TxEnvelope::decode_2718(inner, s)?;
        if q != e {
            return Err(RlpError::ListLengthMismatch);
        }
        proof {
            let x = buf@.subrange(s as int, e as int);
            assert(inner@.subrange(s as int, e as int) =~= x);
            assert(rlp_string(x) == buf@.subrange(pos as int, e as int));
        }
        Ok((env, e))
    }
}

impl Signed {
    /// Reads a sealed access-list transaction wrapped as a string at `pos`.
    pub fn decode(buf: &[u8], pos: usize) -> (r: Result<(Signed, usize), RlpError>)
        requires
            pos <= buf.len(),
            buf.len() <= isize::MAX,
        ensures
            r is Ok ==> {
                let (sd, e) = r->Ok_0;
                &&& pos < e <= buf.len()
                &&& exists|inner: Seq<u8>| #[trigger] rlp_string(inner) == buf@.subrange(pos as int, e as int) && seals(sd, inner)
            },
            forall|v: TxView, sig: Signature|
                valid_view(v) && sig.wf() && parity_round_trips(sig.v) && #[trigger] at(buf@, pos as int, enc_network(v, sig)) ==> r is Ok && {
                    let (sd, e) = r->Ok_0;
                    &&& matches_signed(sd, v, sig)
                    &&& e == pos + enc_network(v, sig).len()
                },
    {
        let (env, e) = TxEnvelope::decode(buf, pos)?;
        match env {
            TxEnvelope::Eip2930(sd) => Ok((sd, e)),
        }
    }
}

} // verus!
