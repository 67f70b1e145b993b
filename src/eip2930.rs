//! The access-list transaction type: its field schema, its typed envelope,
//! and the pipeline from unsigned fields to a sealed transaction.
use vstd::prelude::*;
use crate::rlp::{
    RlpError, at, agrees, truncated, be_bytes, pow256, header_bytes, rlp_list, rlp_string, rlp_uint, decode_list_header, decode_string, decode_uint, encode_bytes, encode_header, encode_uint,
    bytes_len, header_len, uint_len, lemma_at_list, lemma_at_split, lemma_bytes_of_be_value,
    lemma_pow256_8, lemma_len_bytes,
};
use crate::primitives::{Address, B256, TxKind, U256, enc_kind, enc_u256};
use crate::access_list::{AccessList, enc_access_list};
use crate::signature::{Parity, Signature, enc_sig, parity_of_value, parity_value, y_parity};
use crate::hash::{keccak256, keccak_of};

verus! {

/// The type byte of access-list transactions.
pub const EIP2930_TX_TYPE: u8 = 1;

/// The kinds of transaction that the envelope tells apart.
#[derive(Debug, Clone, Copy, PartialEq, Eq, Hash, Structural)]
pub enum TxType {
    /// Untyped transactions, which carry no type byte.
    Legacy,
    /// Access-list transactions.
    Eip2930,
}

impl TxType {
    /// The type byte of the kind.
    pub fn to_u8(&self) -> (r: u8)
        ensures
            *self == TxType::Eip2930 ==> r == EIP2930_TX_TYPE,
            *self == TxType::Legacy ==> r == 0,
    {
        match self {
            TxType::Legacy => 0,
            TxType::Eip2930 => EIP2930_TX_TYPE,
        }
    }
}

/// A transaction with an access list.
#[derive(Debug, Clone, PartialEq, Eq, Hash)]
pub struct TxEip2930 {
    /// The chain that the transaction is bound to.
    pub chain_id: u64,
    /// The number of transactions that the sender sent before.
    pub nonce: u64,
    /// The price paid per unit of gas.
    pub gas_price: u128,
    /// The most gas that the transaction may use.
    pub gas_limit: u64,
    /// The recipient, or none for a contract creation.
    pub to: TxKind,
    /// The amount transferred to the recipient.
    pub value: U256,
    /// The addresses and storage keys that the transaction will touch.
    pub access_list: AccessList,
    /// The call data, or the creation code.
    pub input: Vec<u8>,
}

/// What an access-list transaction holds.
pub struct TxView {
    pub chain_id: u64,
    pub nonce: u64,
    pub gas_price: u128,
    pub gas_limit: u64,
    pub to: TxKind,
    pub value: nat,
    pub access_list: Seq<(Address, Seq<B256>)>,
    pub input: Seq<u8>,
}

impl View for TxEip2930 {
    type V = TxView;

    open spec fn view(&self) -> TxView {
        TxView {
            chain_id: self.chain_id,
            nonce: self.nonce,
            gas_price: self.gas_price,
            gas_limit: self.gas_limit,
            to: self.to,
            value: self.value.value(),
            access_list: self.access_list@,
            input: self.input@,
        }
    }
}

/// The encodings of the fields, in wire order, without a list header.
pub open spec fn enc_fields(v: TxView) -> Seq<u8> {
    rlp_uint(v.chain_id as nat) + rlp_uint(v.nonce as nat) + rlp_uint(v.gas_price as nat) + rlp_uint(
        v.gas_limit as nat,
    ) + enc_kind(v.to) + rlp_uint(v.value) + rlp_string(v.input) + enc_access_list(v.access_list)
}

/// The most bytes that the fields' encoding may take, so that every length
/// derived from it fits in a `usize`.
pub open spec fn fields_fit(v: TxView) -> bool {
    enc_fields(v).len() + 256 <= usize::MAX
}

/// A transaction value that the encoders accept.
pub open spec fn valid_view(v: TxView) -> bool {
    v.value < pow256(32) && fields_fit(v)
}

/// The list of the fields.
pub open spec fn enc_tx(v: TxView) -> Seq<u8> {
    rlp_list(enc_fields(v))
}

/// The list of the fields followed by the signature's fields.
pub open spec fn enc_with_sig(v: TxView, sig: Signature) -> Seq<u8> {
    rlp_list(enc_fields(v) + enc_sig(sig))
}

/// The bytes that are hashed for signing: the type byte and the list of
/// the fields.
pub open spec fn signing_preimage(v: TxView) -> Seq<u8> {
    seq![EIP2930_TX_TYPE] + enc_tx(v)
}

/// The sealed wire form: the type byte and the signed list.
pub open spec fn enc_signed(v: TxView, sig: Signature) -> Seq<u8> {
    seq![EIP2930_TX_TYPE] + enc_with_sig(v, sig)
}

/// The sealed wire form wrapped as a string, as it stands in a list of
/// transactions.
pub open spec fn enc_network(v: TxView, sig: Signature) -> Seq<u8> {
    rlp_string(enc_signed(v, sig))
}

/// The signature with its parity as a plain flag.
pub open spec fn normalized(sig: Signature) -> Signature {
    Signature { r: sig.r, s: sig.s, v: Parity::Parity(y_parity(sig.v)) }
}

impl TxEip2930 {
    /// The value is well formed and its encoding fits in memory.
    pub open spec fn wf(&self) -> bool {
        self.value.wf() && fields_fit(self@)
    }

    /// The value's encoding is that of its number.
    proof fn lemma_value_enc(&self)
        requires
            self.value.wf(),
        ensures
            enc_u256(self.value) == rlp_uint(self.value.value()),
    {
        lemma_bytes_of_be_value(self.value.be@);
    }

    /// The length of the fields' encoding, without a list header.
    pub fn fields_len(&self) -> (r: usize)
        requires
            self.wf(),
        ensures
            r == enc_fields(self@).len(),
    {
        proof {
            self.lemma_value_enc();
        }
        let mut len: usize = 0;
        len = len + uint_len(self.chain_id as u128);
        len = len + uint_len(self.nonce as u128);
        len = len + uint_len(self.gas_price);
        len = len + uint_len(self.gas_limit as u128);
        len = len + self.to.length();
        len = len + self.value.length();
        assert(len + rlp_string(self.input@).len() + enc_access_list(self.access_list@).len() == enc_fields(self@).len());
        len = len + bytes_len(self.input.as_slice());
        len = len + self.access_list.length();
        len
    }

    /// Writes the fields' encodings in wire order, without a list header.
    pub fn encode_fields(&self, out: &mut Vec<u8>)
        requires
            self.wf(),
        ensures
            final(out)@ == old(out)@ + enc_fields(self@),
    {
        proof {
            self.lemma_value_enc();
        }
        let ghost v = self@;
        encode_uint(self.chain_id as u128, out);
        encode_uint(self.nonce as u128, out);
        assert(out@ =~= old(out)@ + (rlp_uint(v.chain_id as nat) + rlp_uint(v.nonce as nat)));
        encode_uint(self.gas_price, out);
        assert(out@ =~= old(out)@ + (rlp_uint(v.chain_id as nat) + rlp_uint(v.nonce as nat) + rlp_uint(v.gas_price as nat)));
        encode_uint(self.gas_limit as u128, out);
        let ghost a = rlp_uint(v.chain_id as nat) + rlp_uint(v.nonce as nat) + rlp_uint(v.gas_price as nat) + rlp_uint(v.gas_limit as nat);
        assert(out@ =~= old(out)@ + a);
        self.to.encode(out);
        assert(out@ =~= old(out)@ + (a + enc_kind(v.to)));
        self.value.encode(out);
        let ghost b = a + enc_kind(v.to) + rlp_uint(v.value);
        assert(out@ =~= old(out)@ + b);
        encode_bytes(self.input.as_slice(), out);
        assert(out@ =~= old(out)@ + (b + rlp_string(v.input)));
        self.access_list.encode(out);
        assert(out@ =~= old(out)@ + (b + rlp_string(v.input) + enc_access_list(v.access_list)));
    }

    /// Writes the list of the fields and the signature's fields.
    pub fn encode_with_signature(&self, signature: &Signature, out: &mut Vec<u8>)
        requires
            self.wf(),
            signature.wf(),
        ensures
            final(out)@ == old(out)@ + enc_with_sig(self@, *signature),
    {
        let payload_length = self.fields_len() + signature.rlp_vrs_len();
        encode_header(true, payload_length, out);
        self.encode_fields(out);
        signature.write_rlp_vrs(out);
        assert(final(out)@ =~= old(out)@ + enc_with_sig(self@, *signature));
    }

    /// The length of the sealed wire form: type byte, header and payload.
    pub fn payload_len_with_signature_without_header(&self, signature: &Signature) -> (r: usize)
        requires
            self.wf(),
            signature.wf(),
        ensures
            r == enc_signed(self@, *signature).len(),
            r <= enc_fields(self@).len() + 93,
    {
        let payload_length = self.fields_len() + signature.rlp_vrs_len();
        1 + header_len(payload_length) + payload_length
    }

    /// The length of the sealed wire form wrapped as a string.
    pub fn payload_len_with_signature(&self, signature: &Signature) -> (r: usize)
        requires
            self.wf(),
            signature.wf(),
        ensures
            r == enc_network(self@, *signature).len(),
    {
        let len = self.payload_len_with_signature_without_header(signature);
        header_len(len) + len
    }

    /// The kind of the transaction.
    pub fn tx_type(&self) -> (r: TxType)
        ensures
            r == TxType::Eip2930,
    {
        TxType::Eip2930
    }

    /// Writes the list of the fields.
    pub fn encode(&self, out: &mut Vec<u8>)
        requires
            self.wf(),
        ensures
            final(out)@ == old(out)@ + enc_tx(self@),
    {
        encode_header(true, self.fields_len(), out);
        self.encode_fields(out);
    }

    /// The length of the list of the fields.
    pub fn length(&self) -> (r: usize)
        requires
            self.wf(),
        ensures
            r == enc_tx(self@).len(),
    {
        let payload_length = self.fields_len();
        header_len(payload_length) + payload_length
    }

    /// Writes the bytes that are hashed for signing.
    pub fn encode_for_signing(&self, out: &mut Vec<u8>)
        requires
            self.wf(),
        ensures
            final(out)@ == old(out)@ + signing_preimage(self@),
    {
        out.push(self.tx_type().to_u8());
        self.encode(out);
        assert(final(out)@ =~= old(out)@ + signing_preimage(self@));
    }

    /// The length of the bytes that are hashed for signing.
    pub fn payload_len_for_signature(&self) -> (r: usize)
        requires
            self.wf(),
        ensures
            r == signing_preimage(self@).len(),
    {
        let payload_length = self.fields_len();
        1 + header_len(payload_length) + payload_length
    }

    /// Writes the list of the fields and the signature's fields.
    pub fn encode_signed(&self, signature: &Signature, out: &mut Vec<u8>)
        requires
            self.wf(),
            signature.wf(),
        ensures
            final(out)@ == old(out)@ + enc_with_sig(self@, *signature),
    {
        self.encode_with_signature(signature, out)
    }
}

/// The encodings of the four integer fields that open a transaction.
pub open spec fn enc_head(v: TxView) -> Seq<u8> {
    rlp_uint(v.chain_id as nat) + rlp_uint(v.nonce as nat) + rlp_uint(v.gas_price as nat) + rlp_uint(
        v.gas_limit as nat,
    )
}

/// The encodings of the four fields that close a transaction.
pub open spec fn enc_tail(v: TxView) -> Seq<u8> {
    enc_kind(v.to) + rlp_uint(v.value) + rlp_string(v.input) + enc_access_list(v.access_list)
}

/// The fields are the opening ones, then the closing ones.
proof fn lemma_fields_split(v: TxView)
    ensures
        enc_fields(v) == enc_head(v) + enc_tail(v),
{
    assert(enc_fields(v) =~= enc_head(v) + enc_tail(v));
}

/// Each opening field stands where its predecessors end.
proof fn lemma_at_head(buf: Seq<u8>, pos: int, v: TxView)
    requires
        at(buf, pos, enc_head(v)),
    ensures
        at(buf, pos, rlp_uint(v.chain_id as nat)),
        at(buf, pos + rlp_uint(v.chain_id as nat).len(), rlp_uint(v.nonce as nat)),
        at(buf, pos + rlp_uint(v.chain_id as nat).len() + rlp_uint(v.nonce as nat).len(), rlp_uint(v.gas_price as nat)),
        at(buf, pos + rlp_uint(v.chain_id as nat).len() + rlp_uint(v.nonce as nat).len() + rlp_uint(v.gas_price as nat).len(), rlp_uint(v.gas_limit as nat)),
{
    let a1 = rlp_uint(v.chain_id as nat);
    let a2 = a1 + rlp_uint(v.nonce as nat);
    let a3 = a2 + rlp_uint(v.gas_price as nat);
    lemma_at_split(buf, pos, a3, rlp_uint(v.gas_limit as nat));
    lemma_at_split(buf, pos, a2, rlp_uint(v.gas_price as nat));
    lemma_at_split(buf, pos, a1, rlp_uint(v.nonce as nat));
}

/// Each closing field stands where its predecessors end.
proof fn lemma_at_tail(buf: Seq<u8>, pos: int, v: TxView)
    requires
        at(buf, pos, enc_tail(v)),
    ensures
        at(buf, pos, enc_kind(v.to)),
        at(buf, pos + enc_kind(v.to).len(), rlp_uint(v.value)),
        at(buf, pos + enc_kind(v.to).len() + rlp_uint(v.value).len(), rlp_string(v.input)),
        at(buf, pos + enc_kind(v.to).len() + rlp_uint(v.value).len() + rlp_string(v.input).len(), enc_access_list(v.access_list)),
{
    let a1 = enc_kind(v.to);
    let a2 = a1 + rlp_uint(v.value);
    let a3 = a2 + rlp_string(v.input);
    lemma_at_split(buf, pos, a3, enc_access_list(v.access_list));
    lemma_at_split(buf, pos, a2, rlp_string(v.input));
    lemma_at_split(buf, pos, a1, rlp_uint(v.value));
}

/// The encodings of the fields before the integer field `j` (chain id,
/// nonce, gas price, gas limit, value, for `j` from 0 to 4).
pub open spec fn int_prefix(v: TxView, j: int) -> Seq<u8> {
    if j <= 0 {
        Seq::empty()
    } else if j == 1 {
        rlp_uint(v.chain_id as nat)
    } else if j == 2 {
        rlp_uint(v.chain_id as nat) + rlp_uint(v.nonce as nat)
    } else if j == 3 {
        rlp_uint(v.chain_id as nat) + rlp_uint(v.nonce as nat) + rlp_uint(v.gas_price as nat)
    } else {
        enc_head(v) + enc_kind(v.to)
    }
}

/// A string that an integer may not be: one that begins with a zero byte.
pub open spec fn leading_zero(b: Seq<u8>) -> bool {
    b.len() > 0 && b[0] == 0
}

/// The fields before an opening integer field stand one after another.
proof fn lemma_at_int_prefix(buf: Seq<u8>, pos: int, v: TxView, j: int)
    requires
        0 <= j <= 3,
        at(buf, pos, int_prefix(v, j)),
    ensures
        j >= 1 ==> at(buf, pos, rlp_uint(v.chain_id as nat)),
        j >= 2 ==> at(buf, pos + rlp_uint(v.chain_id as nat).len(), rlp_uint(v.nonce as nat)),
        j >= 3 ==> at(buf, pos + rlp_uint(v.chain_id as nat).len() + rlp_uint(v.nonce as nat).len(), rlp_uint(v.gas_price as nat)),
{
    let a1 = rlp_uint(v.chain_id as nat);
    let a2 = a1 + rlp_uint(v.nonce as nat);
    if j == 3 {
        lemma_at_split(buf, pos, a2, rlp_uint(v.gas_price as nat));
        lemma_at_split(buf, pos, a1, rlp_uint(v.nonce as nat));
    } else if j == 2 {
        lemma_at_split(buf, pos, a1, rlp_uint(v.nonce as nat));
    }
}

/// A strict beginning of the opening fields cuts one of them short, after
/// the ones before it stand whole.
proof fn lemma_truncated_head(buf: Seq<u8>, pos: int, v: TxView)
    requires
        truncated(buf, pos, enc_head(v)),
    ensures
        be_bytes(v.chain_id as nat).len() <= 16 && be_bytes(v.nonce as nat).len() <= 16,
        be_bytes(v.gas_price as nat).len() <= 16 && be_bytes(v.gas_limit as nat).len() <= 16,
        truncated(buf, pos, rlp_string(be_bytes(v.chain_id as nat)))
        || (at(buf, pos, rlp_uint(v.chain_id as nat)) && truncated(buf, pos + rlp_uint(v.chain_id as nat).len(), rlp_string(be_bytes(v.nonce as nat))))
        || (at(buf, pos, rlp_uint(v.chain_id as nat)) && at(buf, pos + rlp_uint(v.chain_id as nat).len(), rlp_uint(v.nonce as nat))
            && truncated(buf, pos + rlp_uint(v.chain_id as nat).len() + rlp_uint(v.nonce as nat).len(), rlp_string(be_bytes(v.gas_price as nat))))
        || (at(buf, pos, rlp_uint(v.chain_id as nat)) && at(buf, pos + rlp_uint(v.chain_id as nat).len(), rlp_uint(v.nonce as nat))
            && at(buf, pos + rlp_uint(v.chain_id as nat).len() + rlp_uint(v.nonce as nat).len(), rlp_uint(v.gas_price as nat))
            && truncated(buf, pos + rlp_uint(v.chain_id as nat).len() + rlp_uint(v.nonce as nat).len() + rlp_uint(v.gas_price as nat).len(), rlp_string(be_bytes(v.gas_limit as nat)))),
{
    lemma_pow256_8();
    crate::rlp::lemma_be_bytes_len(v.chain_id as nat, 16);
    crate::rlp::lemma_be_bytes_len(v.nonce as nat, 16);
    crate::rlp::lemma_be_bytes_len(v.gas_price as nat, 16);
    crate::rlp::lemma_be_bytes_len(v.gas_limit as nat, 16);
    let a1 = rlp_uint(v.chain_id as nat);
    let a2 = a1 + rlp_uint(v.nonce as nat);
    let a3 = a2 + rlp_uint(v.gas_price as nat);
    crate::rlp::lemma_truncated_split(buf, pos, a3, rlp_uint(v.gas_limit as nat));
    if truncated(buf, pos, a3) {
        crate::rlp::lemma_truncated_split(buf, pos, a2, rlp_uint(v.gas_price as nat));
        if truncated(buf, pos, a2) {
            crate::rlp::lemma_truncated_split(buf, pos, a1, rlp_uint(v.nonce as nat));
        } else {
            lemma_at_split(buf, pos, a1, rlp_uint(v.nonce as nat));
        }
    } else {
        lemma_at_split(buf, pos, a2, rlp_uint(v.gas_price as nat));
        lemma_at_split(buf, pos, a1, rlp_uint(v.nonce as nat));
    }
}

/// Reads the four integer fields that open a transaction.
#[verifier::rlimit(80)]
#[verifier::spinoff_prover]
fn decode_head(buf: &[u8], pos: usize) -> (r: Result<(u64, u64, u128, u64, usize), RlpError>)
    requires
        pos <= buf.len(),
    ensures
        r is Ok ==> {
            let (c, n, gp, gl, e) = r->Ok_0;
            &&& pos <= e <= buf.len()
            &&& buf@.subrange(pos as int, e as int) == rlp_uint(c as nat) + rlp_uint(n as nat) + rlp_uint(gp as nat) + rlp_uint(gl as nat)
        },
        forall|v: TxView| #[trigger] at(buf@, pos as int, enc_head(v)) ==> r is Ok && {
            let (c, n, gp, gl, e) = r->Ok_0;
            &&& c == v.chain_id && n == v.nonce && gp == v.gas_price && gl == v.gas_limit
            &&& e == pos + enc_head(v).len()
        },
        forall|v: TxView, j: int, b: Seq<u8>|
            0 <= j <= 3 && at(buf@, pos as int, int_prefix(v, j)) && #[trigger] at(buf@, pos + int_prefix(v, j).len(), rlp_string(b)) && leading_zero(b)
                ==> r == Err::<(u64, u64, u128, u64, usize), RlpError>(RlpError::NonCanonicalInt),
        forall|v: TxView| #[trigger] truncated(buf@, pos as int, enc_head(v)) ==> r == Err::<(u64, u64, u128, u64, usize), RlpError>(RlpError::InputTooShort),
{
    proof {
        assert forall|v: TxView| #[trigger] truncated(buf@, pos as int, enc_head(v)) implies
            be_bytes(v.chain_id as nat).len() <= 16 && (truncated(buf@, pos as int, rlp_string(be_bytes(v.chain_id as nat))) || at(buf@, pos as int, rlp_uint(v.chain_id as nat))) by {
            lemma_truncated_head(buf@, pos as int, v);
        }
    }
    proof {
        lemma_pow256_8();
        assert forall|v: TxView| #[trigger] at(buf@, pos as int, enc_head(v)) implies
            at(buf@, pos as int, rlp_uint(v.chain_id as nat)) by {
            lemma_at_head(buf@, pos as int, v);
        }
        assert forall|v: TxView, j: int, b: Seq<u8>|
            0 <= j <= 3 && at(buf@, pos as int, int_prefix(v, j)) && #[trigger] at(buf@, pos + int_prefix(v, j).len(), rlp_string(b)) && leading_zero(b)
            implies (j == 0 ==> at(buf@, pos as int, rlp_string(b))) && (j > 0 ==> at(buf@, pos as int, rlp_uint(v.chain_id as nat))) by {
            lemma_at_int_prefix(buf@, pos as int, v, j);
        }
    }
    let (chain_id, p1) = decode_uint(buf, pos, 8)?;
    proof {
        assert forall|v: TxView| #[trigger] truncated(buf@, pos as int, enc_head(v)) implies
            be_bytes(v.nonce as nat).len() <= 16 && v.chain_id == chain_id && p1 == pos + rlp_uint(v.chain_id as nat).len() && (truncated(buf@, p1 as int, rlp_string(be_bytes(v.nonce as nat))) || at(buf@, p1 as int, rlp_uint(v.nonce as nat))) by {
            lemma_truncated_head(buf@, pos as int, v);
        }
    }
    proof {
        assert forall|v: TxView| #[trigger] at(buf@, pos as int, enc_head(v)) implies
            v.chain_id == chain_id && at(buf@, p1 as int, rlp_uint(v.nonce as nat)) by {
            lemma_at_head(buf@, pos as int, v);
        }
        assert forall|v: TxView, j: int, b: Seq<u8>|
            0 <= j <= 3 && at(buf@, pos as int, int_prefix(v, j)) && #[trigger] at(buf@, pos + int_prefix(v, j).len(), rlp_string(b)) && leading_zero(b)
            implies j > 0 && p1 == pos + rlp_uint(v.chain_id as nat).len() && (j == 1 ==> at(buf@, p1 as int, rlp_string(b))) && (j > 1 ==> at(buf@, p1 as int, rlp_uint(v.nonce as nat))) by {
            lemma_at_int_prefix(buf@, pos as int, v, j);
        }
    }
    let (nonce, p2) = decode_uint(buf, p1, 8)?;
    proof {
        assert forall|v: TxView| #[trigger] truncated(buf@, pos as int, enc_head(v)) implies
            be_bytes(v.gas_price as nat).len() <= 16 && v.nonce == nonce && p2 == p1 + rlp_uint(v.nonce as nat).len() && (truncated(buf@, p2 as int, rlp_string(be_bytes(v.gas_price as nat))) || at(buf@, p2 as int, rlp_uint(v.gas_price as nat))) by {
            lemma_truncated_head(buf@, pos as int, v);
        }
    }
    proof {
        assert forall|v: TxView| #[trigger] at(buf@, pos as int, enc_head(v)) implies
            v.nonce == nonce && at(buf@, p2 as int, rlp_uint(v.gas_price as nat)) by {
            lemma_at_head(buf@, pos as int, v);
        }
        assert forall|v: TxView, j: int, b: Seq<u8>|
            0 <= j <= 3 && at(buf@, pos as int, int_prefix(v, j)) && #[trigger] at(buf@, pos + int_prefix(v, j).len(), rlp_string(b)) && leading_zero(b)
            implies j > 1 && p2 == pos + rlp_uint(v.chain_id as nat).len() + rlp_uint(v.nonce as nat).len() && (j == 2 ==> at(buf@, p2 as int, rlp_string(b))) && (j > 2 ==> at(buf@, p2 as int, rlp_uint(v.gas_price as nat))) by {
            lemma_at_int_prefix(buf@, pos as int, v, j);
        }
    }
    let (gas_price, p3) = decode_uint(buf, p2, 16)?;
    proof {
        assert forall|v: TxView| #[trigger] truncated(buf@, pos as int, enc_head(v)) implies
            be_bytes(v.gas_limit as nat).len() <= 16 && v.gas_price == gas_price && p3 == p2 + rlp_uint(v.gas_price as nat).len() && truncated(buf@, p3 as int, rlp_string(be_bytes(v.gas_limit as nat))) by {
            lemma_truncated_head(buf@, pos as int, v);
        }
    }
    proof {
        assert forall|v: TxView| #[trigger] at(buf@, pos as int, enc_head(v)) implies
            v.gas_price == gas_price && at(buf@, p3 as int, rlp_uint(v.gas_limit as nat)) by {
            lemma_at_head(buf@, pos as int, v);
        }
        assert forall|v: TxView, j: int, b: Seq<u8>|
            0 <= j <= 3 && at(buf@, pos as int, int_prefix(v, j)) && #[trigger] at(buf@, pos + int_prefix(v, j).len(), rlp_string(b)) && leading_zero(b)
            implies j == 3 && at(buf@, p3 as int, rlp_string(b)) by {
            lemma_at_int_prefix(buf@, pos as int, v, j);
        }
    }
    let (gas_limit, p4) = decode_uint(buf, p3, 8)?;
    proof {
        assert(buf@.subrange(pos as int, p4 as int) =~= buf@.subrange(pos as int, p1 as int) + buf@.subrange(p1 as int, p2 as int) + buf@.subrange(p2 as int, p3 as int) + buf@.subrange(p3 as int, p4 as int));
        assert forall|v: TxView| #[trigger] at(buf@, pos as int, enc_head(v)) implies
            v.gas_limit == gas_limit by {
            lemma_at_head(buf@, pos as int, v);
        }
    }
    Ok((chain_id as u64, nonce as u64, gas_price, gas_limit as u64, p4))
}

/// A strict beginning of the closing fields cuts one of them short, after
/// the ones before it stand whole.
proof fn lemma_truncated_tail(buf: Seq<u8>, pos: int, v: TxView)
    requires
        truncated(buf, pos, enc_tail(v)),
        v.value < pow256(32),
        enc_tail(v).len() <= usize::MAX,
    ensures
        be_bytes(v.value).len() <= 32,
        v.input.len() <= usize::MAX,
        crate::access_list::enc_items(v.access_list).len() <= usize::MAX,
        truncated(buf, pos, enc_kind(v.to))
        || (at(buf, pos, enc_kind(v.to)) && truncated(buf, pos + enc_kind(v.to).len(), rlp_string(be_bytes(v.value))))
        || (at(buf, pos, enc_kind(v.to)) && at(buf, pos + enc_kind(v.to).len(), rlp_uint(v.value))
            && truncated(buf, pos + enc_kind(v.to).len() + rlp_uint(v.value).len(), rlp_string(v.input)))
        || (at(buf, pos, enc_kind(v.to)) && at(buf, pos + enc_kind(v.to).len(), rlp_uint(v.value))
            && at(buf, pos + enc_kind(v.to).len() + rlp_uint(v.value).len(), rlp_string(v.input))
            && truncated(buf, pos + enc_kind(v.to).len() + rlp_uint(v.value).len() + rlp_string(v.input).len(), enc_access_list(v.access_list))),
{
    crate::rlp::lemma_be_bytes_len(v.value, 32);
    let a1 = enc_kind(v.to);
    let a2 = a1 + rlp_uint(v.value);
    let a3 = a2 + rlp_string(v.input);
    crate::rlp::lemma_truncated_split(buf, pos, a3, enc_access_list(v.access_list));
    if truncated(buf, pos, a3) {
        crate::rlp::lemma_truncated_split(buf, pos, a2, rlp_string(v.input));
        if truncated(buf, pos, a2) {
            crate::rlp::lemma_truncated_split(buf, pos, a1, rlp_uint(v.value));
        } else {
            lemma_at_split(buf, pos, a1, rlp_uint(v.value));
        }
    } else {
        lemma_at_split(buf, pos, a2, rlp_string(v.input));
        lemma_at_split(buf, pos, a1, rlp_uint(v.value));
    }
}

/// Reads the four fields that close a transaction.
#[verifier::rlimit(50)]
fn decode_tail(buf: &[u8], pos: usize) -> (r: Result<(TxKind, U256, Vec<u8>, AccessList, usize), RlpError>)
    requires
        pos <= buf.len(),
    ensures
        r is Ok ==> {
            let (to, value, input, al, e) = r->Ok_0;
            &&& value.wf()
            &&& pos <= e <= buf.len()
            &&& buf@.subrange(pos as int, e as int) == enc_kind(to) + enc_u256(value) + rlp_string(input@) + enc_access_list(al@)
        },
        forall|v: TxView| v.value < pow256(32) && #[trigger] at(buf@, pos as int, enc_tail(v)) ==> r is Ok && {
            let (to, value, input, al, e) = r->Ok_0;
            &&& to == v.to && value.value() == v.value && input@ == v.input && al@ == v.access_list
            &&& e == pos + enc_tail(v).len()
        },
        forall|k: TxKind, b: Seq<u8>|
            at(buf@, pos as int, enc_kind(k)) && #[trigger] at(buf@, pos + enc_kind(k).len(), rlp_string(b)) && leading_zero(b)
                ==> r == Err::<(TxKind, U256, Vec<u8>, AccessList, usize), RlpError>(RlpError::NonCanonicalInt),
        forall|v: TxView| v.value < pow256(32) && enc_tail(v).len() <= usize::MAX && #[trigger] truncated(buf@, pos as int, enc_tail(v))
            ==> r == Err::<(TxKind, U256, Vec<u8>, AccessList, usize), RlpError>(RlpError::InputTooShort),
{
    proof {
        assert forall|v: TxView| v.value < pow256(32) && enc_tail(v).len() <= usize::MAX && #[trigger] truncated(buf@, pos as int, enc_tail(v)) implies
            truncated(buf@, pos as int, enc_kind(v.to)) || at(buf@, pos as int, enc_kind(v.to)) by {
            lemma_truncated_tail(buf@, pos as int, v);
        }
    }
    proof {
        assert forall|v: TxView| v.value < pow256(32) && #[trigger] at(buf@, pos as int, enc_tail(v)) implies
            at(buf@, pos as int, enc_kind(v.to)) by {
            lemma_at_tail(buf@, pos as int, v);
        }
    }
    let (to, p5) = TxKind::decode(buf, pos)?;
    proof {
        assert forall|v: TxView| v.value < pow256(32) && enc_tail(v).len() <= usize::MAX && #[trigger] truncated(buf@, pos as int, enc_tail(v)) implies
            be_bytes(v.value).len() <= 32 && v.to == to && p5 == pos + enc_kind(v.to).len() && (truncated(buf@, p5 as int, rlp_string(be_bytes(v.value))) || at(buf@, p5 as int, rlp_uint(v.value))) by {
            lemma_truncated_tail(buf@, pos as int, v);
        }
    }
    proof {
        assert forall|k: TxKind, b: Seq<u8>|
            at(buf@, pos as int, enc_kind(k)) && #[trigger] at(buf@, pos + enc_kind(k).len(), rlp_string(b)) && leading_zero(b)
            implies at(buf@, p5 as int, rlp_string(b)) by {}
        assert forall|v: TxView| v.value < pow256(32) && #[trigger] at(buf@, pos as int, enc_tail(v)) implies
            v.to == to && at(buf@, p5 as int, rlp_uint(v.value)) by {
            lemma_at_tail(buf@, pos as int, v);
        }
    }
    let (value, p6) = U256::decode(buf, p5)?;
    proof {
        assert forall|v: TxView| v.value < pow256(32) && enc_tail(v).len() <= usize::MAX && #[trigger] truncated(buf@, pos as int, enc_tail(v)) implies
            v.input.len() <= usize::MAX && p6 == p5 + rlp_uint(v.value).len() && (truncated(buf@, p6 as int, rlp_string(v.input)) || at(buf@, p6 as int, rlp_string(v.input))) by {
            lemma_truncated_tail(buf@, pos as int, v);
        }
    }
    proof {
        assert forall|v: TxView| v.value < pow256(32) && #[trigger] at(buf@, pos as int, enc_tail(v)) implies
            v.value == value.value() && at(buf@, p6 as int, rlp_string(v.input)) by {
            lemma_at_tail(buf@, pos as int, v);
        }
    }
    let (s7, p7) = decode_string(buf, p6)?;
    proof {
        assert forall|v: TxView| v.value < pow256(32) && enc_tail(v).len() <= usize::MAX && #[trigger] truncated(buf@, pos as int, enc_tail(v)) implies
            crate::access_list::enc_items(v.access_list).len() <= usize::MAX && p7 == p6 + rlp_string(v.input).len() && truncated(buf@, p7 as int, enc_access_list(v.access_list)) by {
            lemma_truncated_tail(buf@, pos as int, v);
        }
    }
    let mut input: Vec<u8> = Vec::new();
    crate::rlp::append_bytes(&mut input, vstd::slice::slice_subrange(buf, s7, p7));
    proof {
        assert forall|v: TxView| v.value < pow256(32) && #[trigger] at(buf@, pos as int, enc_tail(v)) implies
            v.input == input@ && at(buf@, p7 as int, enc_access_list(v.access_list)) by {
            lemma_at_tail(buf@, pos as int, v);
            crate::rlp::lemma_rlp_string_tail(v.input);
            let w = buf@.subrange(p6 as int, p7 as int);
            assert(input@ =~= w.subrange(s7 - p6, p7 - p6));
        }
    }
    let (access_list, p8) = AccessList::decode(buf, p7)?;
    proof {
        assert(input@ =~= buf@.subrange(s7 as int, p7 as int));
        assert(buf@.subrange(pos as int, p8 as int) =~= buf@.subrange(pos as int, p5 as int) + buf@.subrange(p5 as int, p6 as int) + buf@.subrange(p6 as int, p7 as int) + buf@.subrange(p7 as int, p8 as int));
        assert forall|v: TxView| v.value < pow256(32) && #[trigger] at(buf@, pos as int, enc_tail(v)) implies
            access_list@ == v.access_list by {
            lemma_at_tail(buf@, pos as int, v);
        }
    }
    Ok((to, value, input, access_list, p8))
}

impl TxEip2930 {
    /// Reads the fields, in wire order, from `pos` on; the list header is
    /// read already.
    pub fn decode_inner(buf: &[u8], pos: usize) -> (r: Result<(TxEip2930, usize), RlpError>)
        requires
            pos <= buf.len(),
        ensures
            r is Ok ==> {
                let (t, e) = r->Ok_0;
                &&& t.value.wf()
                &&& pos <= e <= buf.len()
                &&& buf@.subrange(pos as int, e as int) == enc_fields(t@)
            },
            forall|v: TxView| v.value < pow256(32) && #[trigger] at(buf@, pos as int, enc_fields(v)) ==> r is Ok && r->Ok_0.0@ == v && r->Ok_0.1 == pos + enc_fields(v).len(),
            forall|v: TxView, j: int, b: Seq<u8>|
                0 <= j <= 4 && at(buf@, pos as int, int_prefix(v, j)) && #[trigger] at(buf@, pos + int_prefix(v, j).len(), rlp_string(b)) && leading_zero(b)
                    ==> r == Err::<(TxEip2930, usize), RlpError>(RlpError::NonCanonicalInt),
            forall|v: TxView| valid_view(v) && #[trigger] truncated(buf@, pos as int, enc_fields(v))
                ==> r == Err::<(TxEip2930, usize), RlpError>(RlpError::InputTooShort),
    {
        proof {
            assert forall|v: TxView| valid_view(v) && #[trigger] truncated(buf@, pos as int, enc_fields(v)) implies
                truncated(buf@, pos as int, enc_head(v)) || (at(buf@, pos as int, enc_head(v)) && truncated(buf@, pos + enc_head(v).len(), enc_tail(v))) by {
                lemma_fields_split(v);
                crate::rlp::lemma_truncated_split(buf@, pos as int, enc_head(v), enc_tail(v));
            }
            assert forall|v: TxView| v.value < pow256(32) && #[trigger] at(buf@, pos as int, enc_fields(v)) implies
                at(buf@, pos as int, enc_head(v)) by {
                lemma_fields_split(v);
                lemma_at_split(buf@, pos as int, enc_head(v), enc_tail(v));
            }
            assert forall|v: TxView, j: int, b: Seq<u8>|
                j == 4 && at(buf@, pos as int, int_prefix(v, j)) && #[trigger] at(buf@, pos + int_prefix(v, j).len(), rlp_string(b)) && leading_zero(b)
                implies at(buf@, pos as int, enc_head(v)) && at(buf@, pos + enc_head(v).len(), enc_kind(v.to))
                    && at(buf@, pos + enc_head(v).len() + enc_kind(v.to).len(), rlp_string(b)) by {
                lemma_at_split(buf@, pos as int, enc_head(v), enc_kind(v.to));
            }
        }
        let (chain_id, nonce, gas_price, gas_limit, p4) = decode_head(buf, pos)?;
        proof {
            assert forall|v: TxView| v.value < pow256(32) && #[trigger] at(buf@, pos as int, enc_fields(v)) implies
                at(buf@, p4 as int, enc_tail(v)) by {
                lemma_fields_split(v);
                lemma_at_split(buf@, pos as int, enc_head(v), enc_tail(v));
            }
        }
        let (to, value, input, access_list, p8) = decode_tail(buf, p4)?;
        let tx = TxEip2930 { chain_id, nonce, gas_price, gas_limit, to, value, access_list, input };
        proof {
            lemma_bytes_of_be_value(value.be@);
            lemma_fields_split(tx@);
            assert(buf@.subrange(pos as int, p8 as int) =~= buf@.subrange(pos as int, p4 as int) + buf@.subrange(p4 as int, p8 as int));
            assert(buf@.subrange(pos as int, p8 as int) =~= enc_head(tx@) + enc_tail(tx@));
        }
        Ok((tx, p8))
    }
}

/// The parity survives being written and read back, up to normalisation.
pub open spec fn parity_round_trips(p: Parity) -> bool {
    match parity_of_value(parity_value(p)) {
        Some(q) => y_parity(q) == y_parity(p),
        None => false,
    }
}

/// Two signatures with the same parity flag and scalars.
pub open spec fn same_sig(a: Signature, b: Signature) -> bool {
    a.v == b.v && a.r.be@ == b.r.be@ && a.s.be@ == b.s.be@
}

/// A transaction sealed with its signature and the hash of both.
#[derive(Debug, PartialEq, Eq, Hash)]
pub struct Signed {
    tx: TxEip2930,
    signature: Signature,
    hash: B256,
}

impl Signed {
    /// The hash is that of the sealed wire form, and the parity is a plain
    /// flag.
    #[verifier::type_invariant]
    spec fn inv(&self) -> bool {
        &&& self.tx.wf()
        &&& self.signature.wf()
        &&& self.signature.v is Parity
        &&& self.hash.0@ == keccak_of(enc_signed(self.tx@, self.signature))
    }

    /// The transaction.
    pub closed spec fn tx_spec(&self) -> TxEip2930 {
        self.tx
    }

    /// The signature.
    pub closed spec fn sig_spec(&self) -> Signature {
        self.signature
    }

    /// The cached hash.
    pub closed spec fn hash_spec(&self) -> [u8; 32] {
        self.hash.0
    }

    /// The transaction.
    pub fn tx(&self) -> (r: &TxEip2930)
        ensures
            *r == self.tx_spec(),
            r.wf(),
    {
        proof {
            use_type_invariant(self);
        }
        &self.tx
    }

    /// The signature.
    pub fn signature(&self) -> (r: &Signature)
        ensures
            *r == self.sig_spec(),
            r.wf(),
            r.v is Parity,
    {
        proof {
            use_type_invariant(self);
        }
        &self.signature
    }

    /// The hash of the sealed wire form.
    pub fn hash(&self) -> (r: B256)
        ensures
            r.0 == self.hash_spec(),
            r.0@ == keccak_of(enc_signed(self.tx_spec()@, self.sig_spec())),
    {
        proof {
            use_type_invariant(self);
        }
        self.hash
    }

    /// Writes the sealed wire form: the type byte and the signed list.
    pub fn encode_2718(&self, out: &mut Vec<u8>)
        ensures
            final(out)@ == old(out)@ + enc_signed(self.tx_spec()@, self.sig_spec()),
    {
        proof {
            use_type_invariant(self);
        }
        out.push(EIP2930_TX_TYPE);
        self.tx.encode_signed(&self.signature, out);
        assert(final(out)@ =~= old(out)@ + enc_signed(self.tx_spec()@, self.sig_spec()));
    }

    /// The length of the sealed wire form.
    pub fn encode_2718_len(&self) -> (r: usize)
        ensures
            r == enc_signed(self.tx_spec()@, self.sig_spec()).len(),
    {
        proof {
            use_type_invariant(self);
        }
        self.tx.payload_len_with_signature_without_header(&self.signature)
    }

    /// Writes the sealed wire form wrapped as a string.
    pub fn encode(&self, out: &mut Vec<u8>)
        ensures
            final(out)@ == old(out)@ + enc_network(self.tx_spec()@, self.sig_spec()),
    {
        proof {
            use_type_invariant(self);
        }
        let len = self.encode_2718_len();
        encode_header(false, len, out);
        self.encode_2718(out);
        assert(final(out)@ =~= old(out)@ + enc_network(self.tx_spec()@, self.sig_spec()));
    }

    /// The length of the sealed wire form wrapped as a string.
    pub fn length(&self) -> (r: usize)
        ensures
            r == enc_network(self.tx_spec()@, self.sig_spec()).len(),
    {
        proof {
            use_type_invariant(self);
        }
        self.tx.payload_len_with_signature(&self.signature)
    }
}

impl TxEip2930 {
    /// Seals the transaction with the signature, its parity made a plain
    /// flag, and the hash of the sealed wire form.
    pub fn into_signed(self, signature: Signature) -> (r: Signed)
        requires
            self.wf(),
            signature.wf(),
        ensures
            r.tx_spec() == self,
            r.sig_spec() == normalized(signature),
            r.hash_spec()@ == keccak_of(enc_signed(self@, normalized(signature))),
    {
        let sig = signature.with_parity_bool();
        let mut buf: Vec<u8> = Vec::new();
        buf.push(EIP2930_TX_TYPE);
        self.encode_signed(&sig, &mut buf);
        assert(buf@ =~= enc_signed(self@, sig));
        let hash = keccak256(buf.as_slice());
        Signed { tx: self, signature: sig, hash }
    }

    /// Reads a list of the fields at `pos`.
    #[verifier::rlimit(100)]
    #[verifier::spinoff_prover]
    pub fn decode(buf: &[u8], pos: usize) -> (r: Result<(TxEip2930, usize), RlpError>)
        requires
            pos <= buf.len(),
        ensures
            r is Ok ==> {
                let (t, e) = r->Ok_0;
                &&& t.value.wf()
                &&& pos <= e <= buf.len()
                &&& buf@.subrange(pos as int, e as int) == enc_tx(t@)
            },
            forall|v: TxView| v.value < pow256(32) && #[trigger] at(buf@, pos as int, enc_tx(v)) ==> r is Ok && r->Ok_0.0@ == v && r->Ok_0.1 == pos + enc_tx(v).len(),
            pos < buf.len() && buf[pos as int] < 0xc0 ==> r == Err::<(TxEip2930, usize), RlpError>(RlpError::UnexpectedString),
            forall|len: nat|
                len <= usize::MAX && agrees(buf@, pos as int, #[trigger] header_bytes(true, len)) && buf.len() < pos + header_bytes(true, len).len() + len
                    ==> r == Err::<(TxEip2930, usize), RlpError>(RlpError::InputTooShort),
            forall|v: TxView|
                fields_fit(v) && #[trigger] truncated(buf@, pos as int, enc_tx(v)) ==> r == Err::<(TxEip2930, usize), RlpError>(RlpError::InputTooShort),
            crate::rlp::long_header_malformed(buf@, pos as int, 0xf7) ==> r == Err::<(TxEip2930, usize), RlpError>(RlpError::MalformedHeader),
    {
        proof {
            assert forall|v: TxView|
                fields_fit(v) && #[trigger] truncated(buf@, pos as int, enc_tx(v)) implies
                enc_fields(v).len() <= usize::MAX
                && agrees(buf@, pos as int, header_bytes(true, enc_fields(v).len()))
                && buf.len() - pos < header_bytes(true, enc_fields(v).len()).len() + enc_fields(v).len() by {
                let h = header_bytes(true, enc_fields(v).len());
                let e = enc_tx(v);
                let n = buf.len() - pos;
                lemma_len_bytes(enc_fields(v).len());
                assert forall|i: int| 0 <= i < h.len() && pos + i < buf.len() implies buf@[pos + i] == #[trigger] h[i] by {
                    assert(buf@[pos + i] == buf@.subrange(pos as int, buf.len() as int)[i]);
                    assert(e[i] == e.subrange(0, n)[i]);
                }
            }
            assert forall|v: TxView| v.value < pow256(32) && #[trigger] at(buf@, pos as int, enc_tx(v)) implies
                enc_fields(v).len() <= usize::MAX
                && agrees(buf@, pos as int, header_bytes(true, enc_fields(v).len()))
                && pos + header_bytes(true, enc_fields(v).len()).len() + enc_fields(v).len() <= buf.len()
                && at(buf@, pos + header_bytes(true, enc_fields(v).len()).len(), enc_fields(v)) by {
                lemma_at_list(buf@, pos as int, enc_fields(v));
            }
        }
        let (s, e) = decode_list_header(buf, pos)?;
        let (tx, q) = TxEip2930::decode_inner(buf, s)?;
        if q != e {
            return Err(RlpError::ListLengthMismatch);
        }
        assert(buf@.subrange(pos as int, e as int) =~= buf@.subrange(pos as int, s as int) + buf@.subrange(s as int, e as int));
        Ok((tx, e))
    }
}


impl TxEip2930 {
    /// Reads a signed list at `pos`: the fields, then the signature's
    /// fields; and seals the transaction.
    #[verifier::rlimit(50)]
    pub fn decode_signed(buf: &[u8], pos: usize) -> (r: Result<(Signed, usize), RlpError>)
        requires
            pos <= buf.len(),
            buf.len() <= isize::MAX,
        ensures
            r is Ok ==> {
                let (sd, e) = r->Ok_0;
                &&& pos <= e <= buf.len()
                &&& exists|s0: Signature| s0.wf() && normalized(s0) == sd.sig_spec() && buf@.subrange(pos as int, e as int) == #[trigger] enc_with_sig(sd.tx_spec()@, s0)
            },
            forall|v: TxView, sig: Signature|
                valid_view(v) && sig.wf() && parity_round_trips(sig.v) && #[trigger] at(buf@, pos as int, enc_with_sig(v, sig)) ==> r is Ok && {
                    let (sd, e) = r->Ok_0;
                    &&& sd.tx_spec()@ == v
                    &&& same_sig(sd.sig_spec(), normalized(sig))
                    &&& e == pos + enc_with_sig(v, sig).len()
                },
            forall|v: TxView, sig: Signature|
                fields_fit(v) && sig.wf() && #[trigger] truncated(buf@, pos as int, enc_with_sig(v, sig)) ==> r == Err::<(Signed, usize), RlpError>(RlpError::InputTooShort),
            pos < buf.len() && buf[pos as int] < 0xc0 ==> r == Err::<(Signed, usize), RlpError>(RlpError::UnexpectedString),
            crate::rlp::long_header_malformed(buf@, pos as int, 0xf7) ==> r == Err::<(Signed, usize), RlpError>(RlpError::MalformedHeader),
            forall|len: nat, v: TxView, j: int, b: Seq<u8>|
                len <= usize::MAX && agrees(buf@, pos as int, header_bytes(true, len)) && pos + header_bytes(true, len).len() + len <= buf.len()
                    && 0 <= j <= 4 && at(buf@, pos + header_bytes(true, len).len(), int_prefix(v, j))
                    && #[trigger] at(buf@, pos + header_bytes(true, len).len() + int_prefix(v, j).len(), rlp_string(b)) && leading_zero(b)
                    ==> r == Err::<(Signed, usize), RlpError>(RlpError::NonCanonicalInt),
            forall|len: nat, v: TxView, pv: nat, n: nat, j: int, b: Seq<u8>|
                len <= usize::MAX && agrees(buf@, pos as int, header_bytes(true, len)) && pos + header_bytes(true, len).len() + len <= buf.len()
                    && v.value < pow256(32) && at(buf@, pos + header_bytes(true, len).len(), enc_fields(v))
                    && 0 <= j <= 2 && pv < pow256(8) && parity_of_value(pv) is Some && n < pow256(32)
                    && at(buf@, pos + header_bytes(true, len).len() + enc_fields(v).len(), crate::signature::vrs_prefix(pv, n, j))
                    && #[trigger] at(buf@, pos + header_bytes(true, len).len() + enc_fields(v).len() + crate::signature::vrs_prefix(pv, n, j).len(), rlp_string(b)) && leading_zero(b)
                    ==> r == Err::<(Signed, usize), RlpError>(RlpError::NonCanonicalInt),
            forall|len: nat|
                len <= usize::MAX && agrees(buf@, pos as int, #[trigger] header_bytes(true, len)) && buf.len() < pos + header_bytes(true, len).len() + len
                    ==> r == Err::<(Signed, usize), RlpError>(RlpError::InputTooShort),
    {
        proof {
            assert forall|v: TxView, sig: Signature|
                fields_fit(v) && sig.wf() && #[trigger] truncated(buf@, pos as int, enc_with_sig(v, sig)) implies
                (enc_fields(v) + enc_sig(sig)).len() <= usize::MAX
                && agrees(buf@, pos as int, header_bytes(true, (enc_fields(v) + enc_sig(sig)).len()))
                && buf.len() - pos < header_bytes(true, (enc_fields(v) + enc_sig(sig)).len()).len() + (enc_fields(v) + enc_sig(sig)).len() by {
                let p = enc_fields(v) + enc_sig(sig);
                let h = header_bytes(true, p.len());
                let e = enc_with_sig(v, sig);
                let n = buf.len() - pos;
                lemma_enc_sig_len(sig);
                assert forall|i: int| 0 <= i < h.len() && pos + i < buf.len() implies buf@[pos + i] == #[trigger] h[i] by {
                    assert(buf@[pos + i] == buf@.subrange(pos as int, buf.len() as int)[i]);
                    assert(e[i] == e.subrange(0, n)[i]);
                }
            }
            assert forall|v: TxView, sig: Signature|
                valid_view(v) && sig.wf() && parity_round_trips(sig.v) && #[trigger] at(buf@, pos as int, enc_with_sig(v, sig)) implies
                (enc_fields(v) + enc_sig(sig)).len() <= usize::MAX
                && agrees(buf@, pos as int, header_bytes(true, (enc_fields(v) + enc_sig(sig)).len()))
                && pos + header_bytes(true, (enc_fields(v) + enc_sig(sig)).len()).len() + (enc_fields(v) + enc_sig(sig)).len() <= buf.len()
                && at(buf@, pos + header_bytes(true, (enc_fields(v) + enc_sig(sig)).len()).len(), enc_fields(v))
                && at(buf@, pos + header_bytes(true, (enc_fields(v) + enc_sig(sig)).len()).len() + enc_fields(v).len(), enc_sig(sig))
                && parity_of_value(parity_value(sig.v)) is Some by {
                let p = enc_fields(v) + enc_sig(sig);
                lemma_at_list(buf@, pos as int, p);
                let h = header_bytes(true, p.len());
                assert(at(buf@, pos + h.len(), p));
                lemma_at_split(buf@, pos + h.len(), enc_fields(v), enc_sig(sig));
            }
        }
        let (s, e) = decode_list_header(buf, pos)?;
        let (tx, q) = TxEip2930::decode_inner(buf, s)?;
        let (sig, q2) = Signature::decode_rlp_vrs(buf, q)?;
        if q2 != e {
            return Err(RlpError::ListLengthMismatch);
        }
        proof {
            assert(buf@.subrange(s as int, e as int) =~= buf@.subrange(s as int, q as int) + buf@.subrange(q as int, e as int));
            assert(buf@.subrange(pos as int, e as int) =~= buf@.subrange(pos as int, s as int) + buf@.subrange(s as int, e as int));
            assert(buf@.subrange(pos as int, e as int) == enc_with_sig(tx@, sig));
        }
        let ghost t = tx;
        let sd = tx.into_signed(sig);
        proof {
            assert forall|v: TxView, sig2: Signature|
                valid_view(v) && sig2.wf() && parity_round_trips(sig2.v) && #[trigger] at(buf@, pos as int, enc_with_sig(v, sig2)) implies
                same_sig(sd.sig_spec(), normalized(sig2)) by {
                assert(y_parity(sig.v) == y_parity(sig2.v));
            }
        }
        Ok((sd, e))
    }
}

/// A well-formed signature's fields take at most 83 bytes.
pub proof fn lemma_enc_sig_len(sig: Signature)
    requires
        sig.wf(),
    ensures
        enc_sig(sig).len() <= 83,
{
    lemma_pow256_8();
    crate::rlp::lemma_be_bytes_len(parity_value(sig.v), 8);
    lemma_len_bytes(sig.r.be@.len());
    lemma_len_bytes(sig.s.be@.len());
}

/// The bytes that a transaction's fields take in memory: the fixed-size
/// fields, the addresses and keys of the access list, and the input.
pub open spec fn tx_size(v: TxView) -> nat {
    8 + 8 + 16 + 8 + 21 + 32 + crate::access_list::items_size(v.access_list) + v.input.len()
}

impl TxEip2930 {
    /// The bytes that the transaction's fields take in memory.
    pub fn size(&self) -> (r: usize)
        requires
            self.wf(),
        ensures
            r == tx_size(self@),
    {
        proof {
            crate::access_list::lemma_items_size(self.access_list@);
        }
        8 + 8 + 16 + 8 + 21 + 32 + self.access_list.size() + self.input.len()
    }

    /// The call data.
    pub fn input(&self) -> (r: &[u8])
        ensures
            r@ == self.input@,
    {
        self.input.as_slice()
    }

    /// The call data, to change in place.
    pub fn input_mut(&mut self) -> (r: &mut Vec<u8>)
        ensures
            *r == old(self).input,
            *final(self) == (TxEip2930 { input: *final(r), ..*old(self) }),
    {
        &mut self.input
    }

    /// Replaces the call data.
    pub fn set_input(&mut self, input: Vec<u8>)
        ensures
            *final(self) == (TxEip2930 { input, ..*old(self) }),
    {
        self.input = input;
    }

    /// The recipient.
    pub fn to(&self) -> (r: TxKind)
        ensures
            r == self.to,
    {
        self.to
    }

    /// Replaces the recipient.
    pub fn set_to(&mut self, to: TxKind)
        ensures
            *final(self) == (TxEip2930 { to, ..*old(self) }),
    {
        self.to = to;
    }

    /// The amount transferred.
    pub fn value(&self) -> (r: &U256)
        ensures
            *r == self.value,
    {
        &self.value
    }

    /// Replaces the amount transferred.
    pub fn set_value(&mut self, value: U256)
        ensures
            *final(self) == (TxEip2930 { value, ..*old(self) }),
    {
        self.value = value;
    }

    /// The chain that the transaction is bound to; always present.
    pub fn chain_id(&self) -> (r: Option<u64>)
        ensures
            r == Some(self.chain_id),
    {
        Some(self.chain_id)
    }

    /// Replaces the chain id.
    pub fn set_chain_id(&mut self, chain_id: u64)
        ensures
            *final(self) == (TxEip2930 { chain_id, ..*old(self) }),
    {
        self.chain_id = chain_id;
    }

    /// The nonce.
    pub fn nonce(&self) -> (r: u64)
        ensures
            r == self.nonce,
    {
        self.nonce
    }

    /// Replaces the nonce.
    pub fn set_nonce(&mut self, nonce: u64)
        ensures
            *final(self) == (TxEip2930 { nonce, ..*old(self) }),
    {
        self.nonce = nonce;
    }

    /// The gas limit.
    pub fn gas_limit(&self) -> (r: u64)
        ensures
            r == self.gas_limit,
    {
        self.gas_limit
    }

    /// Replaces the gas limit.
    pub fn set_gas_limit(&mut self, limit: u64)
        ensures
            *final(self) == (TxEip2930 { gas_limit: limit, ..*old(self) }),
    {
        self.gas_limit = limit;
    }

    /// The gas price as a 256-bit number; always present.
    pub fn gas_price(&self) -> (r: Option<U256>)
        ensures
            r is Some,
            r->Some_0.wf(),
            r->Some_0.value() == self.gas_price,
    {
        Some(U256::from_u128(self.gas_price))
    }

    /// Sets the gas price, which must fit in 128 bits; on overflow the
    /// transaction is left as it was and `Overflow` is returned.
    pub fn set_gas_price(&mut self, price: &U256) -> (r: Result<(), RlpError>)
        requires
            price.wf(),
        ensures
            r is Ok <==> price.value() < pow256(16),
            r is Ok ==> *final(self) == (TxEip2930 { gas_price: price.value() as u128, ..*old(self) }),
            r is Err ==> *final(self) == *old(self) && r == Err::<(), RlpError>(RlpError::Overflow),
    {
        proof {
            lemma_pow256_8();
            crate::rlp::lemma_be_value_bound(price.be@);
            if price.be@.len() <= 16 {
                crate::rlp::lemma_pow256_mono(price.be@.len(), 16);
            }
        }
        if price.be.len() > 16 {
            proof {
                crate::rlp::lemma_be_value_lower(price.be@);
                crate::rlp::lemma_pow256_mono(16, (price.be@.len() - 1) as nat);
            }
            return Err(RlpError::Overflow);
        }
        let v = crate::rlp::read_be(price.be.as_slice(), 0, price.be.len());
        assert(price.be@.subrange(0, price.be@.len() as int) =~= price.be@);
        self.gas_price = v;
        Ok(())
    }
}

/// Writing a transaction with a signature gives the header, the fields and
/// the signature's fields, and nothing else.
pub proof fn lemma_length_agreement(v: TxView, sig: Signature)
    ensures
        enc_with_sig(v, sig).len() == header_bytes(true, enc_fields(v).len() + enc_sig(sig).len()).len() + enc_fields(v).len() + enc_sig(sig).len(),
        enc_signed(v, sig).len() == 1 + enc_with_sig(v, sig).len(),
{
}

/// Transactions with the same fields and signature have the same hash.
pub proof fn lemma_hash_determinism(v1: TxView, s1: Signature, v2: TxView, s2: Signature)
    requires
        v1 == v2,
        same_sig(s1, s2),
    ensures
        keccak_of(enc_signed(v1, s1)) == keccak_of(enc_signed(v2, s2)),
{
    assert(enc_sig(s1) == enc_sig(s2));
    assert(enc_signed(v1, s1) == enc_signed(v2, s2));
}

/// A well-formed transaction has a valid view, and each of its signed
/// encodings stands at the start of its own bytes: the premises under which
/// the decoders' contracts promise the transaction back.
pub proof fn lemma_signed_encoding_at_start(t: TxEip2930, sig: Signature)
    requires
        t.wf(),
        sig.wf(),
    ensures
        valid_view(t@),
        at(enc_with_sig(t@, sig), 0, enc_with_sig(t@, sig)),
        at(enc_signed(t@, sig), 0, enc_signed(t@, sig)),
        at(enc_network(t@, sig), 0, enc_network(t@, sig)),
{
    crate::rlp::lemma_be_value_bound(t.value.be@);
    crate::rlp::lemma_pow256_mono(t.value.be@.len(), 32);
    let a = enc_with_sig(t@, sig);
    let b = enc_signed(t@, sig);
    let c = enc_network(t@, sig);
    assert(a.subrange(0, a.len() as int) =~= a);
    assert(b.subrange(0, b.len() as int) =~= b);
    assert(c.subrange(0, c.len() as int) =~= c);
}

} // verus!
