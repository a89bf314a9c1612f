//! Arithmetic on the fixed-capacity integers.

use rsa_oaep::bigint::BigUint;

fn to_full_bytes(x: &BigUint) -> Vec<u8> {
    x.to_bytes_be(528)
}

fn same_value(a: &BigUint, b: &BigUint) -> bool {
    to_full_bytes(a) == to_full_bytes(b)
}

#[test]
fn constructors_and_low_word() {
    let z = BigUint::zero();
    assert!(z.is_zero());
    assert_eq!(z.to_u64(), 0);
    let o = BigUint::one();
    assert!(!o.is_zero());
    assert_eq!(o.to_u64(), 1);
    let v = BigUint::from_u64(0xDEADBEEF12345678);
    assert_eq!(v.to_u64(), 0xDEADBEEF12345678);
    let n = BigUint::new();
    assert!(n.is_zero());
}

#[test]
fn byte_round_trip() {
    let bytes: Vec<u8> = (0u8..=255).collect();
    let x = BigUint::from_be_bytes(&bytes);
    assert_eq!(x.to_bytes_be(256), bytes);
    // shorter widths cut from the most significant end
    let tail = x.to_bytes_be(4);
    assert_eq!(tail, vec![252, 253, 254, 255]);
}

#[test]
fn little_endian_matches_reversed_big_endian() {
    let le = vec![0x78, 0x56, 0x34, 0x12];
    let be = vec![0x12, 0x34, 0x56, 0x78];
    let a = BigUint::from_le_bytes(&le);
    let b = BigUint::from_be_bytes(&be);
    assert!(same_value(&a, &b));
    assert_eq!(a.to_u64(), 0x12345678);
}

#[test]
fn addition_and_subtraction() {
    let mut a = BigUint::from_u64(u64::MAX);
    let b = BigUint::from_u64(1);
    a.add_assign(&b);
    // carried into the second limb
    assert_eq!(a.to_u64(), 0);
    assert_eq!(a.to_bytes_be(9), vec![1, 0, 0, 0, 0, 0, 0, 0, 0]);
    a.sub_assign(&b);
    assert_eq!(a.to_u64(), u64::MAX);
}

#[test]
fn shifts() {
    let mut a = BigUint::from_u64(0x8000000000000001);
    a.shl_1();
    assert_eq!(a.to_bytes_be(9), vec![1, 0, 0, 0, 0, 0, 0, 0, 2]);
    let mut b = BigUint::from_u64(0x1234);
    b.shr_8();
    assert_eq!(b.to_u64(), 0x12);
}

#[test]
fn comparison() {
    let a = BigUint::from_u64(100);
    let b = BigUint::from_u64(101);
    assert!(b.ge(&a));
    assert!(!a.ge(&b));
    assert!(a.ge(&a));
}

#[test]
fn bit_length() {
    assert_eq!(BigUint::zero().bit_len(), 0);
    assert_eq!(BigUint::one().bit_len(), 1);
    assert_eq!(BigUint::from_u64(255).bit_len(), 8);
    assert_eq!(BigUint::from_u64(256).bit_len(), 9);
}

#[test]
fn multiplication() {
    let a = BigUint::from_u64(0xFFFFFFFF);
    let b = BigUint::from_u64(0xFFFFFFFF);
    let p = a.mul(&b);
    assert_eq!(p.to_u64(), 0xFFFFFFFE00000001);
    let z = a.mul(&BigUint::zero());
    assert!(z.is_zero());
}

#[test]
fn division_invariant_small() {
    // A == B * Q + R with R < B
    let a = BigUint::from_u64(1000000007);
    let b = BigUint::from_u64(97);
    let (q, r) = a.div_rem(&b);
    assert_eq!(q.to_u64(), 1000000007 / 97);
    assert_eq!(r.to_u64(), 1000000007 % 97);
    let mut back = q.mul(&b);
    back.add_assign(&r);
    assert!(same_value(&back, &a));
    assert!(!r.ge(&b));
}

#[test]
fn division_invariant_wide() {
    // a couple of hundred bytes of fixed pseudo-random data
    let mut a_bytes = Vec::new();
    let mut b_bytes = Vec::new();
    let mut s: u32 = 0x1234_5678;
    for i in 0..200 {
        s = s.wrapping_mul(1664525).wrapping_add(1013904223);
        a_bytes.push((s >> 24) as u8);
        if i < 60 {
            b_bytes.push((s >> 16) as u8);
        }
    }
    b_bytes[59] |= 1; // nonzero divisor
    let a = BigUint::from_be_bytes(&a_bytes);
    let b = BigUint::from_be_bytes(&b_bytes);
    let (q, r) = a.div_rem(&b);
    let mut back = q.mul(&b);
    back.add_assign(&r);
    assert!(same_value(&back, &a));
    assert!(!r.ge(&b));
    // rem agrees with the pair
    let r2 = a.rem(&b);
    assert!(same_value(&r2, &r));
}

#[test]
fn remainder_small() {
    let a = BigUint::from_u64(10);
    let b = BigUint::from_u64(3);
    assert_eq!(a.rem(&b).to_u64(), 1);
    assert_eq!(a.mul_mod(&a, &b).to_u64(), 1);
}
