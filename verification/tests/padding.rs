//! OAEP encoding and decoding, round trips and rejections.

use rsa_oaep::oaep::{mgf1, oaep_encode, oaep_decode};
use rsa_oaep::sha256::Sha256;

const K: usize = 256;

fn xor(a: &[u8], b: &[u8]) -> Vec<u8> {
    a.iter().zip(b.iter()).map(|(x, y)| x ^ y).collect()
}

/// Assemble an encoded message from an arbitrary data block and seed,
/// the way the encoder masks them.
fn assemble_em(db: &[u8], seed: &[u8]) -> Vec<u8> {
    let masked_db = xor(db, &mgf1(seed, K - 33));
    let masked_seed = xor(seed, &mgf1(&masked_db, 32));
    let mut em = vec![0u8];
    em.extend_from_slice(&masked_seed);
    em.extend_from_slice(&masked_db);
    em
}

/// A well-formed data block around `message`.
fn well_formed_db(message: &[u8]) -> Vec<u8> {
    let mut db = Sha256::digest(&[]);
    db.extend_from_slice(&vec![0u8; K - message.len() - 66]);
    db.push(1);
    db.extend_from_slice(message);
    db
}

#[test]
fn encode_decode_three_bytes_with_zero_seed() {
    // modulus width 256, hash width 32, fixed all-zero seed
    let message = [1u8, 2, 3];
    let seed = [0u8; 32];
    let em = oaep_encode(&message, &seed, K).unwrap();
    assert_eq!(em.len(), K);
    assert_eq!(em[0], 0x00);
    let back = oaep_decode(&em).unwrap();
    assert_eq!(back, message.to_vec());
}

#[test]
fn encode_decode_empty_message() {
    let seed = [0x11u8; 32];
    let em = oaep_encode(&[], &seed, K).unwrap();
    assert_eq!(oaep_decode(&em).unwrap(), Vec::<u8>::new());
}

#[test]
fn encode_decode_maximum_message() {
    let message = vec![0xA5u8; K - 66];
    let seed = [0x77u8; 32];
    let em = oaep_encode(&message, &seed, K).unwrap();
    assert_eq!(oaep_decode(&em).unwrap(), message);
}

#[test]
fn encode_rejects_oversized_message() {
    let message = vec![0u8; K - 65];
    let seed = [0u8; 32];
    assert!(oaep_encode(&message, &seed, K).is_none());
}

#[test]
fn decode_rejects_bad_leading_byte() {
    let message = [9u8, 8, 7];
    let seed = [3u8; 32];
    let mut em = oaep_encode(&message, &seed, K).unwrap();
    em[0] = 0x01;
    assert!(oaep_decode(&em).is_none());
}

#[test]
fn decode_rejects_corrupted_label_hash() {
    let seed = [0x42u8; 32];
    let mut db = well_formed_db(b"msg");
    db[0] ^= 0xFF; // corrupt the label hash
    let em = assemble_em(&db, &seed);
    assert!(oaep_decode(&em).is_none());
}

#[test]
fn decode_rejects_nonzero_padding_byte() {
    let seed = [0x42u8; 32];
    let mut db = well_formed_db(b"msg");
    db[40] = 0x7F; // stray byte in the zero padding, before the separator
    let em = assemble_em(&db, &seed);
    assert!(oaep_decode(&em).is_none());
}

#[test]
fn decode_rejects_missing_separator() {
    let seed = [0x42u8; 32];
    let mut db = Sha256::digest(&[]);
    db.extend_from_slice(&vec![0u8; K - 33 - 32]); // all zeros, no 0x01 anywhere
    let em = assemble_em(&db, &seed);
    assert!(oaep_decode(&em).is_none());
}

#[test]
fn decode_round_trip_across_lengths() {
    for len in [1usize, 31, 32, 100, 189] {
        let message: Vec<u8> = (0..len).map(|i| (i * 7 + 1) as u8).collect();
        let seed: Vec<u8> = (0..32u8).collect();
        let em = oaep_encode(&message, &seed, K).unwrap();
        assert_eq!(oaep_decode(&em).unwrap(), message);
    }
}
