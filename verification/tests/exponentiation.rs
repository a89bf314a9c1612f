//! Montgomery exponentiation against the naive reference.

use rsa_oaep::bigint::BigUint;

fn modpow_u64(base: u64, exp: u64, modulus: u64) -> u64 {
    let b = BigUint::from_u64(base);
    let e = BigUint::from_u64(exp);
    let n = BigUint::from_u64(modulus);
    b.rem(&n).modpow(&e, &n).to_u64()
}

fn naive_modpow_u64(base: u64, exp: u64, modulus: u64) -> u64 {
    let b = BigUint::from_u64(base);
    let e = BigUint::from_u64(exp);
    let n = BigUint::from_u64(modulus);
    b.naive_modpow(&e, &n).to_u64()
}

#[test]
fn montgomery_matches_reference() {
    let cases: [(u64, u64, u64); 6] = [
        (7, 129, 1000003),
        (2, 64, 0xFFFFFFFB),
        (123456789, 987654321, 0xFFFFFFFFFFFFFFC5),
        (1, 0, 3),
        (0, 5, 9),
        (10, 1, 21),
    ];
    for &(b, e, m) in cases.iter() {
        assert_eq!(modpow_u64(b, e, m), naive_modpow_u64(b, e, m));
    }
}

#[test]
fn montgomery_known_values() {
    assert_eq!(modpow_u64(7, 129, 1000003), 804635);
    assert_eq!(
        modpow_u64(123456789, 987654321, 0xFFFFFFFFFFFFFFC5),
        13340410239862665191
    );
}

#[test]
fn zero_exponent_gives_one() {
    assert_eq!(modpow_u64(12345, 0, 99991), 1);
    assert_eq!(naive_modpow_u64(12345, 0, 99991), 1);
}

#[test]
fn modulus_one_gives_zero() {
    assert_eq!(modpow_u64(0, 7, 1), 0);
    assert_eq!(naive_modpow_u64(5, 7, 1), 0);
}

#[test]
fn wide_exponentiation_matches_reference() {
    // a few dozen bytes of fixed pseudo-random data, odd modulus
    let mut b_bytes = Vec::new();
    let mut e_bytes = Vec::new();
    let mut n_bytes = Vec::new();
    let mut s: u32 = 0xCAFEBABE;
    for _ in 0..48 {
        s = s.wrapping_mul(1664525).wrapping_add(1013904223);
        b_bytes.push((s >> 24) as u8);
        s = s.wrapping_mul(1664525).wrapping_add(1013904223);
        e_bytes.push((s >> 24) as u8);
        s = s.wrapping_mul(1664525).wrapping_add(1013904223);
        n_bytes.push((s >> 24) as u8);
    }
    n_bytes[47] |= 1; // odd
    n_bytes[0] |= 0x80; // full width, so the reduced base is smaller
    let n = BigUint::from_be_bytes(&n_bytes);
    let e = BigUint::from_be_bytes(&e_bytes);
    let b = BigUint::from_be_bytes(&b_bytes).rem(&n);
    let fast = b.modpow(&e, &n).to_bytes_be(48);
    let slow = b.naive_modpow(&e, &n).to_bytes_be(48);
    assert_eq!(fast, slow);
}

#[test]
fn word_inverse_negates() {
    // n0 * n' == -1 mod 2^64 for odd words
    for &n0 in [1u64, 3, 0xFFFFFFFFFFFFFFFF, 0x123456789ABCDEF1, 12345678901234567].iter() {
        let np = BigUint::compute_n_prime(n0);
        assert_eq!(n0.wrapping_mul(np), u64::MAX);
    }
}
