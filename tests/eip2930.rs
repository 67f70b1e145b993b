use tx_codec::access_list::{AccessList, AccessListItem};
use tx_codec::eip2930::{Signed, TxEip2930, TxType};
use tx_codec::envelope::TxEnvelope;
use tx_codec::primitives::{Address, TxKind, B256, U256};
use tx_codec::rlp::RlpError;
use tx_codec::signature::{Parity, Signature};

fn u256_hex(s: &str) -> U256 {
    let bytes = alloy_primitives::hex::decode(s).unwrap();
    U256::from_be_slice(&bytes).unwrap()
}

fn test_signature() -> Signature {
    Signature {
        r: u256_hex("840cfc572845f5786e702984c2a582528cad4b49b2a10b9db1be7fca90058565"),
        s: u256_hex("25e7109ceb98168d95b09b18bbf6b685130e0562f233877d492b94eee0c5b6d1"),
        v: Parity::Parity(false),
    }
}

fn request(to: TxKind) -> TxEip2930 {
    TxEip2930 {
        chain_id: 1u64,
        nonce: 0,
        gas_price: 1,
        gas_limit: 2,
        to,
        value: U256::from_u64(3_u64),
        input: vec![1, 2],
        access_list: AccessList::new(),
    }
}

fn rich_request() -> TxEip2930 {
    let item = AccessListItem {
        address: Address([0x11; 20]),
        storage_keys: vec![B256([0x22; 32]), B256([0; 32]), B256([0xff; 32])],
    };
    let empty_item = AccessListItem { address: Address([0x33; 20]), storage_keys: vec![] };
    TxEip2930 {
        chain_id: 5,
        nonce: 0x1234_5678,
        gas_price: 20_000_000_000,
        gas_limit: 21_000,
        to: TxKind::Call(Address([0xab; 20])),
        value: u256_hex("0de0b6b3a7640000"),
        input: (0u8..100).collect(),
        access_list: AccessList(vec![item, empty_item]),
    }
}

#[test]
fn test_decode_create() {
    let tx = request(TxKind::Create).into_signed(test_signature());

    let mut encoded = Vec::new();
    tx.encode(&mut encoded);
    assert_eq!(encoded.len(), tx.length());

    let decoded = Signed::decode(&encoded, 0).unwrap().0;
    assert_eq!(decoded, tx);
}

#[test]
fn test_decode_call() {
    let tx = request(TxKind::Call(Address::default())).into_signed(test_signature());
    let envelope = TxEnvelope::Eip2930(tx);

    let mut encoded = Vec::new();
    envelope.encode(&mut encoded);
    assert_eq!(encoded.len(), envelope.length());

    assert_eq!(
        alloy_primitives::hex::encode(&encoded),
        "b86401f8610180010294000000000000000000000000000000000000000003820102c080a0840cfc572845f5786e702984c2a582528cad4b49b2a10b9db1be7fca90058565a025e7109ceb98168d95b09b18bbf6b685130e0562f233877d492b94eee0c5b6d1"
    );

    let decoded = TxEnvelope::decode(&encoded, 0).unwrap().0;
    assert_eq!(decoded, envelope);
}

#[test]
fn round_trip_with_access_list() {
    let tx = rich_request();
    let sig = test_signature();
    let mut out = Vec::new();
    tx.encode_with_signature(&sig, &mut out);
    let (decoded, end) = TxEip2930::decode_signed(&out, 0).unwrap();
    assert_eq!(end, out.len());
    assert_eq!(decoded.tx(), &tx);
    assert_eq!(decoded.signature(), &sig);
    assert_eq!(decoded.hash(), rich_request().into_signed(test_signature()).hash());
}

#[test]
fn unsigned_round_trip() {
    let tx = rich_request();
    let mut out = Vec::new();
    tx.encode(&mut out);
    assert_eq!(out.len(), tx.length());
    let (decoded, end) = TxEip2930::decode(&out, 0).unwrap();
    assert_eq!(end, out.len());
    assert_eq!(decoded, tx);
}

#[test]
fn length_agreement() {
    for tx in [rich_request(), request(TxKind::Create)] {
        let sig = test_signature();
        let mut out = Vec::new();
        tx.encode_with_signature(&sig, &mut out);
        let payload = tx.fields_len() + sig.rlp_vrs_len();
        let header = if payload < 56 { 1 } else if payload < 256 { 2 } else { 3 };
        assert_eq!(out.len(), header + payload);
        assert_eq!(tx.payload_len_with_signature_without_header(&sig), out.len() + 1);
        let sealed = tx.clone().into_signed(sig);
        let mut wire = Vec::new();
        sealed.encode_2718(&mut wire);
        assert_eq!(wire.len(), out.len() + 1);
        assert_eq!(wire[0], 1);
        assert_eq!(&wire[1..], &out[..]);
        assert_eq!(tx.payload_len_with_signature(&test_signature()), sealed.length());
    }
}

#[test]
fn signing_preimage_is_type_byte_and_list() {
    let tx = request(TxKind::Create);
    let mut pre = Vec::new();
    tx.encode_for_signing(&mut pre);
    let mut list = Vec::new();
    tx.encode(&mut list);
    assert_eq!(pre[0], 1);
    assert_eq!(&pre[1..], &list[..]);
    assert_eq!(pre.len(), tx.payload_len_for_signature());
    assert_eq!(tx.tx_type(), TxType::Eip2930);
    assert_eq!(tx.tx_type().to_u8(), 1);
}

#[test]
fn hash_is_keccak_of_wire_form() {
    let sealed = request(TxKind::Create).into_signed(test_signature());
    let mut wire = Vec::new();
    sealed.encode_2718(&mut wire);
    let digest = alloy_primitives::keccak256(&wire);
    assert_eq!(sealed.hash().0, digest.0);
    assert_ne!(&sealed.hash().0[..], &wire[..32]);
}

#[test]
fn hash_determinism_and_sensitivity() {
    let a = request(TxKind::Create).into_signed(test_signature());
    let b = request(TxKind::Create).into_signed(test_signature());
    assert_eq!(a.hash(), b.hash());
    let mut other = request(TxKind::Create);
    other.set_nonce(1);
    let c = other.into_signed(test_signature());
    assert_ne!(a.hash(), c.hash());
    let mut sig = test_signature();
    sig.v = Parity::Parity(true);
    let d = request(TxKind::Create).into_signed(sig);
    assert_ne!(a.hash(), d.hash());
}

#[test]
fn into_signed_normalises_parity() {
    let mut sig = test_signature();
    sig.v = Parity::NonEip155(true);
    let sealed = request(TxKind::Create).into_signed(sig);
    assert_eq!(sealed.signature().v, Parity::Parity(true));
    let mut sig = test_signature();
    sig.v = Parity::Eip155(37);
    let sealed = request(TxKind::Create).into_signed(sig);
    assert_eq!(sealed.signature().v, Parity::Parity(false));
    let mut sig = test_signature();
    sig.v = Parity::Eip155(38);
    let sealed = request(TxKind::Create).into_signed(sig);
    assert_eq!(sealed.signature().v, Parity::Parity(true));
}

#[test]
fn truncated_input_is_too_short() {
    let tx = rich_request();
    let mut out = Vec::new();
    tx.encode_with_signature(&test_signature(), &mut out);
    for n in 0..out.len() {
        assert_eq!(TxEip2930::decode_signed(&out[..n], 0).unwrap_err(), RlpError::InputTooShort);
    }
    let sealed = rich_request().into_signed(test_signature());
    let mut wire = Vec::new();
    sealed.encode_2718(&mut wire);
    for n in 0..wire.len() {
        assert_eq!(TxEnvelope::decode_2718(&wire[..n], 0).unwrap_err(), RlpError::InputTooShort);
    }
}

#[test]
fn dispatch_rejects_unknown_types() {
    let sealed = request(TxKind::Create).into_signed(test_signature());
    let mut wire = Vec::new();
    sealed.encode_2718(&mut wire);
    wire[0] = 2;
    assert_eq!(TxEnvelope::decode_2718(&wire, 0).unwrap_err(), RlpError::UnsupportedTransactionType);
    wire[0] = 0xc0;
    assert_eq!(TxEnvelope::decode_2718(&wire, 0).unwrap_err(), RlpError::LegacyTransaction);
    assert_eq!(TxEnvelope::decode_2718(&[], 0).unwrap_err(), RlpError::InputTooShort);
}

#[test]
fn decode_signed_wants_a_list() {
    assert_eq!(TxEip2930::decode_signed(&[0x80], 0).unwrap_err(), RlpError::UnexpectedString);
    assert_eq!(TxEip2930::decode(&[0x83, 1, 2, 3], 0).unwrap_err(), RlpError::UnexpectedString);
}

#[test]
fn non_canonical_integer_field_is_rejected() {
    // nonce written as 0x8100 instead of 0x80
    let bytes = [0xc4, 0x01, 0x81, 0x00, 0x01];
    assert_eq!(TxEip2930::decode_inner(&bytes, 1).unwrap_err(), RlpError::MalformedHeader);
    let bytes = [0xc5, 0x01, 0x82, 0x00, 0x05, 0x01];
    assert_eq!(TxEip2930::decode_inner(&bytes, 1).unwrap_err(), RlpError::NonCanonicalInt);
}

#[test]
fn invalid_parity_is_rejected() {
    assert_eq!(Parity::decode(&[0x05], 0).unwrap_err(), RlpError::InvalidParity);
    assert_eq!(Parity::decode(&[0x1b], 0).unwrap().0, Parity::NonEip155(false));
    assert_eq!(Parity::decode(&[0x25], 0).unwrap().0, Parity::Eip155(37));
    assert_eq!(Parity::decode(&[0x80], 0).unwrap().0, Parity::Parity(false));
}

#[test]
fn trailing_bytes_inside_the_list_are_rejected() {
    let tx = request(TxKind::Create);
    let mut out = Vec::new();
    tx.encode(&mut out);
    out[0] += 1;
    out.push(0x01);
    assert_eq!(TxEip2930::decode(&out, 0).unwrap_err(), RlpError::ListLengthMismatch);
}

#[test]
fn accessors_and_setters() {
    let mut tx = request(TxKind::Create);
    assert_eq!(tx.chain_id(), Some(1));
    tx.set_chain_id(7);
    assert_eq!(tx.chain_id(), Some(7));
    tx.set_gas_limit(9);
    assert_eq!(tx.gas_limit(), 9);
    tx.set_to(TxKind::Call(Address([1; 20])));
    assert_eq!(tx.to(), TxKind::Call(Address([1; 20])));
    tx.set_value(U256::from_u64(42));
    assert_eq!(tx.value(), &U256::from_u64(42));
    tx.set_input(vec![9, 9]);
    assert_eq!(tx.input(), &[9, 9]);
    tx.input_mut().push(8);
    assert_eq!(tx.input(), &[9, 9, 8]);
    assert_eq!(tx.nonce(), 0);
    assert_eq!(tx.gas_price(), Some(U256::from_u64(1)));
    assert_eq!(tx.set_gas_price(&U256::from_u128(u128::MAX)), Ok(()));
    assert_eq!(tx.gas_price, u128::MAX);
    let big = u256_hex("0100000000000000000000000000000000");
    assert_eq!(tx.set_gas_price(&big), Err(RlpError::Overflow));
    assert_eq!(tx.gas_price, u128::MAX);
}

#[test]
fn size_counts_fields_and_list() {
    let tx = request(TxKind::Create);
    assert_eq!(tx.size(), 8 + 8 + 16 + 8 + 21 + 32 + 2);
    let tx = rich_request();
    assert_eq!(tx.size(), 8 + 8 + 16 + 8 + 21 + 32 + (20 + 3 * 32) + 20 + 100);
}

fn p6_signed_list() -> Vec<u8> {
    let hex = "f8610180010294000000000000000000000000000000000000000003820102c080a0840cfc572845f5786e702984c2a582528cad4b49b2a10b9db1be7fca90058565a025e7109ceb98168d95b09b18bbf6b685130e0562f233877d492b94eee0c5b6d1";
    alloy_primitives::hex::decode(hex).unwrap()
}

#[test]
fn zero_nonce_written_as_zero_byte_is_non_canonical() {
    let mut buf = p6_signed_list();
    assert!(TxEip2930::decode_signed(&buf, 0).is_ok());
    buf[3] = 0x00;
    assert_eq!(TxEip2930::decode_signed(&buf, 0).unwrap_err(), RlpError::NonCanonicalInt);
}

#[test]
fn leading_zero_in_signature_scalar_is_non_canonical() {
    // r written as 33 bytes with a leading zero, list header kept consistent
    let mut buf = p6_signed_list();
    let r_at = 2 + 0x61 - 66;
    assert_eq!(buf[r_at], 0xa0);
    buf[r_at] = 0xa1;
    buf.insert(r_at + 1, 0x00);
    buf[1] += 1;
    assert_eq!(TxEip2930::decode_signed(&buf, 0).unwrap_err(), RlpError::NonCanonicalInt);
}

#[test]
fn non_minimal_list_header_is_malformed() {
    let mut buf = vec![0xf8, 0x1e, 0x01, 0x80, 0x01, 0x02, 0x94];
    buf.extend_from_slice(&[0u8; 20]);
    buf.extend_from_slice(&[0x03, 0x82, 0x01, 0x02, 0xc0]);
    assert_eq!(TxEip2930::decode(&buf, 0).unwrap_err(), RlpError::MalformedHeader);
    let mut signed = p6_signed_list();
    signed.insert(1, 0x00);
    signed[0] = 0xf9;
    assert_eq!(TxEip2930::decode_signed(&signed, 0).unwrap_err(), RlpError::MalformedHeader);
}

#[test]
fn declared_payload_longer_than_input_is_too_short() {
    let tx = request(TxKind::Create);
    let mut out = Vec::new();
    tx.encode(&mut out);
    out[0] += 5;
    assert_eq!(TxEip2930::decode(&out, 0).unwrap_err(), RlpError::InputTooShort);
}

#[test]
fn truncated_unsigned_and_fields_are_too_short() {
    let tx = rich_request();
    let mut out = Vec::new();
    tx.encode(&mut out);
    for n in 0..out.len() {
        assert_eq!(TxEip2930::decode(&out[..n], 0).unwrap_err(), RlpError::InputTooShort);
    }
    let mut fields = Vec::new();
    tx.encode_fields(&mut fields);
    for n in 0..fields.len() {
        assert_eq!(TxEip2930::decode_inner(&fields[..n], 0).unwrap_err(), RlpError::InputTooShort);
    }
}

#[test]
fn zero_fields_are_written_as_empty_strings() {
    let mut tx = request(TxKind::Create);
    tx.set_chain_id(0);
    tx.gas_price = 0;
    tx.set_gas_limit(0);
    tx.set_value(U256::zero());
    let mut fields = Vec::new();
    tx.encode_fields(&mut fields);
    assert_eq!(&fields[..6], &[0x80, 0x80, 0x80, 0x80, 0x80, 0x80]);
}
