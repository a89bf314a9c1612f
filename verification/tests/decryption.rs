//! CRT decryption: the small worked example, the reference
//! cross-check, and full-scale round trips with a consistent 2048-bit
//! key.

use rsa_oaep::bigint::BigUint;
use rsa_oaep::rsa::{rsa_encrypt, rsa_encrypt_random, crt_decrypt, crt_decrypt_raw,
    parse_encrypt_input, parse_decrypt_input};



fn key_p() -> Vec<u8> {
    vec![
        154, 90, 141, 98, 91, 107, 194, 240, 161, 239, 183, 255, 63, 13, 221, 40,
        84, 180, 89, 156, 23, 86, 43, 60, 157, 89, 81, 185, 152, 111, 143, 70,
        0, 58, 132, 228, 63, 36, 66, 103, 114, 72, 129, 210, 30, 195, 137, 231,
        105, 25, 196, 97, 209, 98, 95, 9, 184, 117, 126, 21, 166, 251, 115, 83,
        145, 134, 67, 70, 53, 211, 233, 92, 19, 177, 208, 77, 173, 236, 142, 212,
        213, 155, 126, 51, 7, 106, 18, 171, 113, 43, 239, 199, 124, 94, 173, 90,
        161, 24, 226, 129, 30, 94, 47, 215, 14, 191, 123, 171, 193, 203, 220, 233,
        21, 96, 234, 191, 135, 60, 177, 171, 137, 61, 90, 0, 21, 221, 163, 231,
    ]
}
fn key_q() -> Vec<u8> {
    vec![
        255, 244, 208, 56, 31, 206, 224, 101, 179, 172, 171, 196, 124, 45, 34, 149,
        62, 222, 232, 230, 242, 183, 231, 200, 31, 113, 21, 71, 94, 12, 137, 151,
        182, 187, 5, 72, 234, 200, 23, 56, 16, 159, 91, 0, 26, 75, 249, 187,
        88, 235, 9, 72, 230, 18, 184, 238, 35, 67, 66, 24, 150, 164, 114, 5,
        52, 52, 76, 21, 75, 203, 129, 126, 209, 41, 93, 175, 247, 252, 9, 200,
        232, 116, 86, 81, 148, 40, 159, 208, 107, 19, 79, 251, 224, 122, 233, 88,
        175, 116, 135, 99, 77, 194, 104, 147, 87, 167, 52, 179, 27, 121, 110, 172,
        34, 85, 56, 67, 129, 41, 184, 106, 42, 80, 214, 12, 242, 54, 128, 75,
    ]
}
fn key_n() -> Vec<u8> {
    vec![
        154, 83, 206, 175, 36, 172, 4, 248, 72, 155, 43, 90, 231, 1, 35, 183,
        88, 185, 59, 174, 24, 155, 126, 163, 223, 230, 36, 246, 124, 217, 178, 114,
        173, 103, 253, 253, 181, 169, 152, 153, 63, 67, 55, 5, 105, 180, 151, 142,
        10, 201, 184, 119, 191, 111, 228, 226, 136, 68, 199, 168, 175, 30, 64, 44,
        124, 86, 43, 240, 155, 231, 102, 167, 71, 99, 88, 99, 99, 182, 196, 68,
        32, 211, 149, 158, 92, 69, 58, 244, 87, 88, 131, 198, 66, 66, 205, 194,
        64, 140, 131, 31, 63, 119, 48, 2, 210, 218, 32, 96, 96, 174, 83, 244,
        203, 36, 93, 67, 90, 177, 148, 170, 25, 77, 85, 150, 106, 52, 11, 172,
        38, 163, 91, 61, 18, 7, 248, 7, 3, 149, 150, 201, 58, 29, 103, 173,
        233, 166, 54, 45, 126, 177, 53, 122, 20, 90, 33, 210, 225, 32, 164, 25,
        218, 44, 68, 196, 25, 178, 14, 7, 57, 176, 50, 142, 115, 178, 125, 154,
        19, 160, 162, 243, 101, 235, 29, 253, 51, 58, 68, 157, 180, 187, 181, 121,
        150, 241, 176, 186, 219, 188, 217, 45, 24, 168, 231, 158, 119, 38, 222, 84,
        29, 32, 33, 28, 215, 11, 13, 191, 248, 251, 134, 208, 54, 114, 131, 44,
        76, 219, 138, 57, 51, 117, 132, 249, 52, 189, 17, 168, 243, 9, 30, 175,
        184, 46, 14, 124, 119, 213, 37, 250, 94, 64, 83, 122, 42, 156, 132, 173,
    ]
}
fn key_e() -> Vec<u8> {
    vec![
        0, 0, 0, 0, 0, 0, 0, 0, 0, 0, 0, 0, 0, 0, 0, 0,
        0, 0, 0, 0, 0, 0, 0, 0, 0, 0, 0, 0, 0, 0, 0, 0,
        0, 0, 0, 0, 0, 0, 0, 0, 0, 0, 0, 0, 0, 0, 0, 0,
        0, 0, 0, 0, 0, 0, 0, 0, 0, 0, 0, 0, 0, 0, 0, 0,
        0, 0, 0, 0, 0, 0, 0, 0, 0, 0, 0, 0, 0, 0, 0, 0,
        0, 0, 0, 0, 0, 0, 0, 0, 0, 0, 0, 0, 0, 0, 0, 0,
        0, 0, 0, 0, 0, 0, 0, 0, 0, 0, 0, 0, 0, 0, 0, 0,
        0, 0, 0, 0, 0, 0, 0, 0, 0, 0, 0, 0, 0, 0, 0, 0,
        0, 0, 0, 0, 0, 0, 0, 0, 0, 0, 0, 0, 0, 0, 0, 0,
        0, 0, 0, 0, 0, 0, 0, 0, 0, 0, 0, 0, 0, 0, 0, 0,
        0, 0, 0, 0, 0, 0, 0, 0, 0, 0, 0, 0, 0, 0, 0, 0,
        0, 0, 0, 0, 0, 0, 0, 0, 0, 0, 0, 0, 0, 0, 0, 0,
        0, 0, 0, 0, 0, 0, 0, 0, 0, 0, 0, 0, 0, 0, 0, 0,
        0, 0, 0, 0, 0, 0, 0, 0, 0, 0, 0, 0, 0, 0, 0, 0,
        0, 0, 0, 0, 0, 0, 0, 0, 0, 0, 0, 0, 0, 0, 0, 0,
        0, 0, 0, 0, 0, 0, 0, 0, 0, 0, 0, 0, 0, 1, 0, 1,
    ]
}
fn key_d() -> Vec<u8> {
    vec![
        20, 212, 12, 200, 12, 141, 254, 217, 183, 138, 225, 174, 18, 17, 80, 77,
        181, 118, 194, 124, 59, 171, 248, 202, 139, 52, 87, 118, 192, 224, 236, 185,
        151, 119, 186, 138, 220, 82, 184, 90, 174, 116, 22, 223, 239, 37, 69, 115,
        17, 55, 170, 98, 214, 254, 118, 8, 176, 213, 127, 144, 223, 153, 152, 149,
        168, 110, 68, 221, 227, 92, 182, 185, 10, 228, 120, 144, 105, 107, 200, 79,
        93, 146, 208, 213, 159, 164, 100, 81, 135, 220, 85, 100, 147, 154, 202, 132,
        86, 11, 224, 194, 125, 225, 75, 36, 134, 106, 148, 6, 13, 230, 89, 68,
        103, 138, 79, 224, 0, 68, 137, 72, 239, 195, 69, 50, 216, 192, 143, 118,
        132, 27, 237, 214, 92, 189, 247, 153, 36, 209, 198, 54, 14, 170, 229, 214,
        68, 247, 167, 213, 48, 138, 183, 226, 216, 95, 120, 154, 78, 45, 200, 240,
        227, 219, 198, 17, 10, 233, 70, 240, 220, 117, 107, 68, 205, 49, 35, 197,
        98, 73, 66, 222, 221, 84, 230, 121, 32, 23, 69, 213, 121, 96, 210, 149,
        43, 71, 98, 132, 168, 247, 225, 228, 204, 67, 14, 179, 138, 169, 249, 228,
        164, 45, 225, 248, 133, 198, 55, 163, 24, 177, 188, 113, 26, 137, 14, 25,
        66, 12, 21, 70, 251, 228, 21, 77, 44, 193, 241, 189, 122, 244, 131, 240,
        70, 184, 104, 154, 106, 20, 170, 221, 48, 192, 124, 17, 133, 160, 156, 77,
    ]
}
fn key_dp() -> Vec<u8> {
    vec![
        24, 229, 160, 70, 140, 46, 126, 156, 39, 210, 173, 224, 27, 0, 150, 122,
        169, 231, 9, 73, 55, 46, 107, 252, 243, 248, 115, 73, 55, 128, 79, 32,
        224, 106, 144, 2, 236, 248, 97, 73, 164, 82, 115, 182, 59, 198, 24, 153,
        94, 7, 140, 248, 166, 56, 114, 209, 243, 145, 232, 11, 128, 10, 177, 24,
        122, 177, 168, 106, 75, 198, 105, 174, 179, 114, 140, 1, 235, 154, 235, 147,
        2, 253, 120, 198, 172, 92, 124, 180, 112, 165, 192, 160, 113, 188, 39, 196,
        37, 150, 8, 251, 0, 181, 250, 139, 122, 210, 130, 21, 59, 70, 49, 212,
        218, 224, 238, 28, 132, 168, 210, 147, 179, 168, 84, 187, 12, 203, 218, 99,
    ]
}
fn key_dq() -> Vec<u8> {
    vec![
        237, 4, 183, 12, 65, 232, 64, 195, 236, 238, 40, 225, 122, 92, 17, 122,
        67, 14, 8, 126, 84, 165, 24, 109, 169, 47, 254, 148, 103, 243, 20, 54,
        249, 111, 150, 37, 63, 196, 170, 59, 176, 168, 224, 139, 231, 206, 19, 35,
        249, 227, 44, 101, 229, 39, 209, 56, 52, 79, 68, 21, 160, 234, 6, 235,
        234, 187, 194, 248, 181, 135, 110, 19, 17, 125, 76, 212, 118, 191, 94, 16,
        61, 177, 253, 124, 237, 197, 240, 183, 255, 111, 146, 209, 155, 190, 53, 247,
        122, 2, 94, 157, 6, 148, 208, 98, 32, 249, 37, 67, 246, 93, 44, 175,
        25, 219, 240, 142, 18, 61, 160, 24, 47, 183, 75, 128, 17, 139, 134, 161,
    ]
}
fn key_qinv() -> Vec<u8> {
    vec![
        147, 48, 146, 115, 42, 68, 88, 247, 128, 182, 125, 241, 36, 119, 176, 37,
        214, 50, 24, 64, 98, 86, 67, 211, 110, 254, 254, 181, 85, 144, 19, 90,
        56, 244, 230, 197, 97, 123, 191, 124, 1, 213, 190, 75, 48, 225, 135, 180,
        120, 21, 45, 147, 218, 68, 35, 102, 197, 43, 112, 133, 193, 186, 198, 188,
        8, 34, 178, 107, 103, 153, 220, 66, 52, 11, 117, 22, 168, 125, 152, 163,
        253, 175, 240, 75, 87, 233, 123, 181, 151, 1, 218, 215, 12, 166, 52, 41,
        66, 134, 192, 123, 253, 182, 222, 45, 152, 243, 216, 249, 224, 125, 248, 144,
        103, 233, 128, 238, 148, 112, 115, 57, 234, 160, 149, 132, 65, 155, 136, 129,
    ]
}

fn field_u64(v: u64, width: usize) -> Vec<u8> {
    let mut out = vec![0u8; width];
    let be = v.to_be_bytes();
    out[width - 8..].copy_from_slice(&be);
    out
}

#[test]
fn small_prime_crt_matches_reference_exponentiation() {
    // p = 61, q = 53, n = 3233, d = 2753, and a known ciphertext
    let p = field_u64(61, 128);
    let q = field_u64(53, 128);
    let dp = field_u64(53, 128);
    let dq = field_u64(49, 128);
    let qinv = field_u64(38, 128);
    let c = field_u64(2790, 256);
    let em = crt_decrypt_raw(&p, &q, &dp, &dq, &qinv, &c);
    assert_eq!(em.len(), 256);
    let got = BigUint::from_be_bytes(&em).to_u64();
    // directly computed c ^ d mod n with the reference exponentiation
    let reference = BigUint::from_u64(2790)
        .naive_modpow(&BigUint::from_u64(2753), &BigUint::from_u64(3233))
        .to_u64();
    assert_eq!(got, reference);
    assert_eq!(got, 65);
}

fn round_trip(message: &[u8], seed: &[u8; 32]) {
    let c = rsa_encrypt(&key_n(), &key_e(), message, seed);
    assert_eq!(c.len(), 256);
    let back = crt_decrypt(&key_p(), &key_q(), &key_dp(), &key_dq(), &key_qinv(), &c);
    assert_eq!(back.unwrap(), message.to_vec());
}

#[test]
fn full_round_trip_short_message() {
    round_trip(&[0xDE, 0xAD, 0xBE], &[7u8; 32]);
}

#[test]
fn full_round_trip_empty_message() {
    round_trip(&[], &[0u8; 32]);
}

#[test]
fn full_round_trip_maximum_message() {
    let message: Vec<u8> = (0..190).map(|i| (i * 3 + 5) as u8).collect();
    round_trip(&message, &[0x55u8; 32]);
}

#[test]
fn full_decrypt_matches_direct_exponentiation() {
    // decrypting with the CRT equals one direct d-exponentiation
    let seed = [9u8; 32];
    let c = rsa_encrypt(&key_n(), &key_e(), b"check", &seed);
    let em_crt = crt_decrypt_raw(&key_p(), &key_q(), &key_dp(), &key_dq(), &key_qinv(), &c);
    let n = BigUint::from_be_bytes(&key_n());
    let d = BigUint::from_be_bytes(&key_d());
    let em_direct = BigUint::from_be_bytes(&c).rem(&n).modpow(&d, &n).to_bytes_be(256);
    assert_eq!(em_crt, em_direct);
}

#[test]
fn decrypt_of_garbage_is_silent() {
    let c = vec![0xABu8; 256];
    let r = crt_decrypt(&key_p(), &key_q(), &key_dp(), &key_dq(), &key_qinv(), &c);
    assert!(r.is_none());
}

#[test]
fn random_seed_encryption_decrypts() {
    let c = rsa_encrypt_random(&key_n(), &key_e(), b"random seed").unwrap();
    assert_eq!(c.len(), 256);
    let back = crt_decrypt(&key_p(), &key_q(), &key_dp(), &key_dq(), &key_qinv(), &c);
    assert_eq!(back.unwrap(), b"random seed".to_vec());
}

#[test]
fn parse_encrypt_layout() {
    let mut input = Vec::new();
    input.extend_from_slice(&[0u8; 16]);
    input.extend_from_slice(&key_n());
    input.extend_from_slice(&key_e());
    input.extend_from_slice(&[0u8; 256]);
    input.push(3);
    input.extend_from_slice(&[10, 20, 30]);
    let (n, e, msg) = parse_encrypt_input(&input).unwrap();
    assert_eq!(n, key_n());
    assert_eq!(e, key_e());
    assert_eq!(msg, vec![10, 20, 30]);
    // truncated input is refused
    assert!(parse_encrypt_input(&input[..input.len() - 1]).is_none());
    assert!(parse_encrypt_input(&[0u8; 100]).is_none());
}

#[test]
fn parse_decrypt_layout() {
    let mut input = Vec::new();
    input.extend_from_slice(&key_p());
    input.extend_from_slice(&key_q());
    input.extend_from_slice(&key_n());
    input.extend_from_slice(&key_d());
    input.extend_from_slice(&key_dp());
    input.extend_from_slice(&key_dq());
    input.extend_from_slice(&key_qinv());
    input.extend_from_slice(&[0x5Au8; 256]);
    let (p, q, dp, dq, qinv, c) = parse_decrypt_input(&input).unwrap();
    assert_eq!(p, key_p());
    assert_eq!(q, key_q());
    assert_eq!(dp, key_dp());
    assert_eq!(dq, key_dq());
    assert_eq!(qinv, key_qinv());
    assert_eq!(c, vec![0x5Au8; 256]);
    assert!(parse_decrypt_input(&input[..1407]).is_none());
}
