//! The word-array family under the compact and RLP codecs, including
//! the minimal-integer RLP rules, cross-checked against the reference
//! rlp and borsh crates.

use ethbridge::errors::DecodeError;
use ethbridge::fixed_words::{U128, U256, U64};

#[test]
fn compact_round_trip_u64() {
    let v = U64::from_u64(0x0123_4567_89ab_cdef);
    let mut out: Vec<u8> = Vec::new();
    v.encode_compact(&mut out);
    assert_eq!(out, vec![0xef, 0xcd, 0xab, 0x89, 0x67, 0x45, 0x23, 0x01]);
    let (d, end) = U64::decode_compact(out.as_slice(), 0).unwrap();
    assert_eq!(d, v);
    assert_eq!(end, 8);
}

#[test]
fn compact_round_trip_u256() {
    let v = U256::from_vec(vec![1, 2, 3, 4]);
    let mut out: Vec<u8> = Vec::new();
    v.encode_compact(&mut out);
    assert_eq!(out.len(), 32);
    let (d, end) = U256::decode_compact(out.as_slice(), 0).unwrap();
    assert_eq!(d, v);
    assert_eq!(end, 32);
}

#[test]
fn compact_matches_borsh_layout_words() {
    let v = U128::from_vec(vec![0xdead_beef, 0x1234_5678_9abc_def0]);
    let mut out: Vec<u8> = Vec::new();
    v.encode_compact(&mut out);
    let mut reference: Vec<u8> = borsh::to_vec(&0xdead_beefu64).unwrap();
    reference.extend_from_slice(borsh::to_vec(&0x1234_5678_9abc_def0u64).unwrap().as_slice());
    assert_eq!(out, reference);
}

#[test]
fn compact_truncated_u256() {
    let input: Vec<u8> = vec![0u8; 31];
    assert_eq!(U256::decode_compact(input.as_slice(), 0), Err(DecodeError::TruncatedInput));
}

#[test]
fn compact_truncated_u64() {
    let input: Vec<u8> = vec![0u8; 7];
    assert_eq!(U64::decode_compact(input.as_slice(), 0), Err(DecodeError::TruncatedInput));
}

#[test]
fn rlp_zero_is_empty_string_item() {
    let v = U256::zero();
    let mut out: Vec<u8> = Vec::new();
    v.encode_rlp(&mut out);
    assert_eq!(out, vec![0x80]);
    let d = U256::decode_rlp(out.as_slice()).unwrap();
    assert_eq!(d, v);
}

#[test]
fn rlp_256_is_two_byte_payload() {
    let v = U256::from_u64(256);
    let mut out: Vec<u8> = Vec::new();
    v.encode_rlp(&mut out);
    assert_eq!(out, vec![0x82, 0x01, 0x00]);
    let d = U256::decode_rlp(out.as_slice()).unwrap();
    assert_eq!(d, v);
}

#[test]
fn rlp_small_integer_is_single_byte() {
    let v = U64::from_u64(0x7f);
    let mut out: Vec<u8> = Vec::new();
    v.encode_rlp(&mut out);
    assert_eq!(out, vec![0x7f]);
    let d = U64::decode_rlp(out.as_slice()).unwrap();
    assert_eq!(d, v);
}

#[test]
fn rlp_boundary_integer_0x80() {
    let v = U64::from_u64(0x80);
    let mut out: Vec<u8> = Vec::new();
    v.encode_rlp(&mut out);
    assert_eq!(out, vec![0x81, 0x80]);
    let d = U64::decode_rlp(out.as_slice()).unwrap();
    assert_eq!(d, v);
}

#[test]
fn rlp_round_trip_full_width() {
    let v = U256::from_vec(vec![u64::MAX, u64::MAX, u64::MAX, u64::MAX]);
    let mut out: Vec<u8> = Vec::new();
    v.encode_rlp(&mut out);
    assert_eq!(out.len(), 33);
    assert_eq!(out[0], 0xa0);
    let d = U256::decode_rlp(out.as_slice()).unwrap();
    assert_eq!(d, v);
}

#[test]
fn rlp_matches_reference_crate_u64() {
    let values: Vec<u64> = vec![0, 1, 0x7f, 0x80, 255, 256, 0xffff, 0x0102_0304_0506_0708, u64::MAX];
    for value in values {
        let reference: Vec<u8> = rlp::encode(&value).to_vec();
        let v = U64::from_u64(value);
        let mut out: Vec<u8> = Vec::new();
        v.encode_rlp(&mut out);
        assert_eq!(out, reference);
        let back: u64 = rlp::decode(out.as_slice()).unwrap();
        assert_eq!(back, value);
    }
}

#[test]
fn rlp_matches_reference_crate_u128() {
    let value: u128 = 0x0102_0304_0506_0708_090a_0b0c_0d0e_0f10;
    let reference: Vec<u8> = rlp::encode(&value).to_vec();
    let low: u64 = value as u64;
    let high: u64 = (value >> 64) as u64;
    let v = U128::from_vec(vec![low, high]);
    let mut out: Vec<u8> = Vec::new();
    v.encode_rlp(&mut out);
    assert_eq!(out, reference);
}

#[test]
fn rlp_rejects_leading_zero_payload() {
    let input: Vec<u8> = vec![0x82, 0x00, 0x01];
    assert_eq!(U256::decode_rlp(input.as_slice()), Err(DecodeError::RlpWrongLength));
}

#[test]
fn rlp_rejects_oversized_payload() {
    let mut input: Vec<u8> = vec![0xa1];
    input.push(1);
    input.extend_from_slice(vec![0u8; 32].as_slice());
    assert_eq!(input.len(), 34);
    assert_eq!(U256::decode_rlp(input.as_slice()), Err(DecodeError::RlpWrongLength));
}

#[test]
fn rlp_rejects_list_item_words() {
    let input: Vec<u8> = vec![0xc1, 0x01];
    assert_eq!(U256::decode_rlp(input.as_slice()), Err(DecodeError::RlpNotAByteString));
}

#[test]
fn default_is_zero() {
    let v: U256 = Default::default();
    assert_eq!(v, U256::zero());
    assert_eq!(v.words().as_slice(), [0u64; 4].as_slice());
}

#[test]
fn rlp_round_trip_u128() {
    let v = U128::from_vec(vec![0x1122_3344_5566_7788, 0x99aa]);
    let mut out: Vec<u8> = Vec::new();
    v.encode_rlp(&mut out);
    let d = U128::decode_rlp(out.as_slice()).unwrap();
    assert_eq!(d, v);
}

#[test]
fn try_from_vec_checks_word_count() {
    assert!(U256::try_from_vec(vec![1, 2, 3]).is_none());
    let v = U256::try_from_vec(vec![1, 2, 3, 4]).unwrap();
    assert_eq!(v.words().as_slice(), [1u64, 2, 3, 4].as_slice());
}
