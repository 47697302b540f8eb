//! The hex-text decoder's padding, prefix and rejection behaviour, and
//! the two digest functions against their published test vectors.

use ethbridge::errors::DecodeError;
use ethbridge::fixed_bytes::{H160, H256};
use ethbridge::hashing::{keccak256, sha256};

#[test]
fn hex_full_width() {
    let text = "000102030405060708090a0b0c0d0e0f101112131415161718191a1b1c1d1e1f";
    let v = H256::from_hex_str(text).unwrap();
    let mut expected: Vec<u8> = Vec::new();
    let mut i: usize = 0;
    while i < 32 {
        expected.push(i as u8);
        i += 1;
    }
    assert_eq!(v.bytes().as_slice(), expected.as_slice());
}

#[test]
fn hex_prefix_and_bare_agree() {
    let bare = "deadbeef00000000000000000000000000000000";
    let prefixed = "0xdeadbeef00000000000000000000000000000000";
    let a = H160::from_hex_str(bare).unwrap();
    let b = H160::from_hex_str(prefixed).unwrap();
    assert_eq!(a, b);
}

#[test]
fn hex_matches_reference_crate() {
    let text = "0102030405060708090a0b0c0d0e0f101112131415161718191a1b1c1d1e1f20";
    let v = H256::from_hex_str(text).unwrap();
    let reference: Vec<u8> = hex::decode(text).unwrap();
    assert_eq!(v.bytes().as_slice(), reference.as_slice());
}

#[test]
fn hex_short_input_is_zero_extended() {
    let v = H256::from_hex_str("1").unwrap();
    let mut expected: Vec<u8> = vec![0u8; 32];
    expected[31] = 1;
    assert_eq!(v.bytes().as_slice(), expected.as_slice());
}

#[test]
fn hex_short_input_with_prefix() {
    let v = H256::from_hex_str("0xff").unwrap();
    let mut expected: Vec<u8> = vec![0u8; 32];
    expected[31] = 0xff;
    assert_eq!(v.bytes().as_slice(), expected.as_slice());
}

#[test]
fn hex_empty_input_is_zero() {
    let v = H256::from_hex_str("").unwrap();
    assert_eq!(v, H256::zero());
}

#[test]
fn hex_case_insensitive() {
    let lower = H256::from_hex_str("abcdef").unwrap();
    let upper = H256::from_hex_str("ABCDEF").unwrap();
    assert_eq!(lower, upper);
}

#[test]
fn hex_rejects_non_hex_character() {
    assert_eq!(H256::from_hex_str("0xzz"), Err(DecodeError::InvalidHex));
}

#[test]
fn hex_rejects_oversized_text() {
    let mut text = String::new();
    let mut i: usize = 0;
    while i < 65 {
        text.push('1');
        i += 1;
    }
    assert_eq!(H256::from_hex_str(text.as_str()), Err(DecodeError::InvalidHex));
}

#[test]
fn hex_rejects_oversized_even_with_leading_zeros() {
    let mut text = String::from("00");
    let mut i: usize = 0;
    while i < 64 {
        text.push('0');
        i += 1;
    }
    assert_eq!(text.len(), 66);
    assert_eq!(H256::from_hex_str(text.as_str()), Err(DecodeError::InvalidHex));
}

#[test]
fn sha256_empty_input_vector() {
    let digest = sha256(&[]);
    let expected: Vec<u8> =
        hex::decode("e3b0c44298fc1c149afbf4c8996fb92427ae41e4649b934ca495991b7852b855").unwrap();
    assert_eq!(digest.bytes().as_slice(), expected.as_slice());
}

#[test]
fn sha256_abc_vector() {
    let digest = sha256(b"abc");
    let expected: Vec<u8> =
        hex::decode("ba7816bf8f01cfea414140de5dae2223b00361a396177a9cb410ff61f20015ad").unwrap();
    assert_eq!(digest.bytes().as_slice(), expected.as_slice());
}

#[test]
fn keccak256_empty_input_vector() {
    let digest = keccak256(&[]);
    let expected: Vec<u8> =
        hex::decode("c5d2460186f7233c927e7db2dcc703c0e500b653ca82273b7bfad8045d85a470").unwrap();
    assert_eq!(digest.bytes().as_slice(), expected.as_slice());
}

#[test]
fn hashes_are_deterministic_and_distinct() {
    let a = sha256(&[]);
    let b = sha256(&[]);
    assert_eq!(a, b);
    let c = keccak256(&[]);
    let d = keccak256(&[]);
    assert_eq!(c, d);
    assert_ne!(a, c);
}

#[test]
fn keccak_differs_from_sha3_padding() {
    // Keccak-256 of "abc" (pre-standardization padding), not SHA3-256.
    let digest = keccak256(b"abc");
    let expected: Vec<u8> =
        hex::decode("4e03657aea45a94fc7d47ba826c8d667c0d1e6e33a64a036ec44f58fa12d6c45").unwrap();
    assert_eq!(digest.bytes().as_slice(), expected.as_slice());
}
