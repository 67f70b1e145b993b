use tx_codec::primitives::{TxKind, U256};
use tx_codec::rlp::{
    RlpError, decode_list_header, decode_string, decode_uint, encode_bytes, encode_header,
    encode_uint, uint_len, uint_to_be,
};

fn enc_uint(v: u128) -> Vec<u8> {
    let mut out = Vec::new();
    encode_uint(v, &mut out);
    out
}

fn enc_bytes(b: &[u8]) -> Vec<u8> {
    let mut out = Vec::new();
    encode_bytes(b, &mut out);
    out
}

#[test]
fn zero_encodes_as_empty_string() {
    assert_eq!(enc_uint(0), vec![0x80]);
    assert_eq!(uint_to_be(0), Vec::<u8>::new());
    assert_eq!(U256::from_u64(0).be, Vec::<u8>::new());
}

#[test]
fn integer_vectors() {
    assert_eq!(enc_uint(1), vec![0x01]);
    assert_eq!(enc_uint(0x7f), vec![0x7f]);
    assert_eq!(enc_uint(0x80), vec![0x81, 0x80]);
    assert_eq!(enc_uint(1024), vec![0x82, 0x04, 0x00]);
    assert_eq!(enc_uint(u128::MAX).len(), 17);
    assert_eq!(uint_len(1024), 3);
}

#[test]
fn matches_reference_encoder() {
    for v in [0u64, 1, 0x7f, 0x80, 0xff, 0x100, 0xffff_ffff, u64::MAX] {
        assert_eq!(enc_uint(v as u128), alloy_rlp::encode(v));
    }
    let v = u128::MAX - 5;
    assert_eq!(enc_uint(v), alloy_rlp::encode(v));
    for len in [0usize, 1, 2, 55, 56, 57, 300, 70_000] {
        let data: Vec<u8> = (0..len).map(|i| (i % 251) as u8 + 1).collect();
        assert_eq!(enc_bytes(&data), alloy_rlp::encode(&data[..]));
    }
    assert_eq!(enc_bytes(&[0x05]), alloy_rlp::encode(&[0x05u8][..]));
    assert_eq!(enc_bytes(&[0x85]), alloy_rlp::encode(&[0x85u8][..]));
}

#[test]
fn long_headers() {
    let mut out = Vec::new();
    encode_header(true, 56, &mut out);
    assert_eq!(out, vec![0xf8, 56]);
    let mut out = Vec::new();
    encode_header(false, 1024, &mut out);
    assert_eq!(out, vec![0xb9, 0x04, 0x00]);
    let data = vec![7u8; 300];
    let enc = enc_bytes(&data);
    assert_eq!(decode_string(&enc, 0), Ok((3, 303)));
}

#[test]
fn uint_round_trip() {
    for v in [0u128, 1, 0x7f, 0x80, 0xdead_beef, u128::MAX] {
        let e = enc_uint(v);
        assert_eq!(decode_uint(&e, 0, 16), Ok((v, e.len())));
    }
}

#[test]
fn leading_zero_is_non_canonical() {
    assert_eq!(decode_uint(&[0x82, 0x00, 0x01], 0, 8), Err(RlpError::NonCanonicalInt));
    assert_eq!(decode_uint(&[0x00], 0, 8), Err(RlpError::NonCanonicalInt));
    assert_eq!(U256::decode(&[0x81, 0x00], 0).unwrap_err(), RlpError::MalformedHeader);
    assert_eq!(U256::decode(&[0x82, 0x00, 0x80], 0).unwrap_err(), RlpError::NonCanonicalInt);
}

#[test]
fn too_wide_integer_overflows() {
    let e = enc_uint(1u128 << 64);
    assert_eq!(decode_uint(&e, 0, 8), Err(RlpError::Overflow));
    let mut wide = vec![0xa1, 0x01];
    wide.extend_from_slice(&[0u8; 32]);
    assert_eq!(U256::decode(&wide, 0).unwrap_err(), RlpError::Overflow);
}

#[test]
fn malformed_headers() {
    // a single byte below 0x80 written with a prefix
    assert_eq!(decode_string(&[0x81, 0x05], 0), Err(RlpError::MalformedHeader));
    // long form for a short length
    assert_eq!(decode_string(&[0xb8, 0x02, 0x01, 0x02], 0), Err(RlpError::MalformedHeader));
    // length of length with a leading zero
    assert_eq!(decode_list_header(&[0xf9, 0x00, 0x40], 0), Err(RlpError::MalformedHeader));
}

#[test]
fn short_inputs() {
    assert_eq!(decode_string(&[0x83, 1, 2], 0), Err(RlpError::InputTooShort));
    assert_eq!(decode_string(&[], 0), Err(RlpError::InputTooShort));
    assert_eq!(decode_list_header(&[0xc3, 1], 0), Err(RlpError::InputTooShort));
    assert_eq!(decode_list_header(&[0xf8], 0), Err(RlpError::InputTooShort));
}

#[test]
fn wrong_kinds() {
    assert_eq!(decode_string(&[0xc0], 0), Err(RlpError::UnexpectedList));
    assert_eq!(decode_list_header(&[0x80], 0), Err(RlpError::UnexpectedString));
    assert_eq!(decode_list_header(&[0xc0], 0), Ok((1, 1)));
}

#[test]
fn recipient_encoding() {
    let mut out = Vec::new();
    TxKind::Create.encode(&mut out);
    assert_eq!(out, vec![0x80]);
    assert_eq!(TxKind::decode(&out, 0), Ok((TxKind::Create, 1)));
    let mut short = vec![0x93];
    short.extend_from_slice(&[1u8; 19]);
    assert_eq!(TxKind::decode(&short, 0), Err(RlpError::UnexpectedLength));
}

#[test]
fn u256_from_be_slice() {
    assert_eq!(U256::from_be_slice(&[0, 0, 1, 2]).unwrap().be, vec![1, 2]);
    assert!(U256::from_be_slice(&[1u8; 33]).is_none());
    assert_eq!(U256::from_be_slice(&[0u8; 40]).unwrap(), U256::zero());
}
