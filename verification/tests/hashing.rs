//! SHA-256 vectors and the MGF1 mask generator.

use rsa_oaep::sha256::Sha256;
use rsa_oaep::oaep::mgf1;

fn hex(bytes: &[u8]) -> String {
    let mut s = String::new();
    for b in bytes {
        s.push_str(&format!("{:02x}", b));
    }
    s
}

#[test]
fn digest_of_empty_input() {
    let d = Sha256::digest(&[]);
    assert_eq!(
        hex(&d),
        "e3b0c44298fc1c149afbf4c8996fb92427ae41e4649b934ca495991b7852b855"
    );
}

#[test]
fn digest_of_abc() {
    let d = Sha256::digest(b"abc");
    assert_eq!(
        hex(&d),
        "ba7816bf8f01cfea414140de5dae2223b00361a396177a9cb410ff61f20015ad"
    );
}

#[test]
fn digest_of_two_blocks() {
    let d = Sha256::digest(b"abcdbcdecdefdefgefghfghighijhijkijkljklmklmnlmnomnopnopq");
    assert_eq!(
        hex(&d),
        "248d6a61d20638b8e5c026930c3e6039a33ce45964ff2167f6ecedd419db06c1"
    );
}

#[test]
fn digest_of_block_boundary_length() {
    // exactly 64 bytes: padding spills into a second block
    let input = [0x61u8; 64];
    let one = Sha256::digest(&input);
    // the same bytes fed in two chunks give the same digest
    let mut h = Sha256::new();
    h.update(&input[..13]);
    h.update(&input[13..]);
    assert_eq!(h.finalize(), one);
}

#[test]
fn chunking_does_not_matter() {
    let input: Vec<u8> = (0u8..200).collect();
    let whole = Sha256::digest(&input);
    let mut h = Sha256::new();
    for chunk in input.chunks(7) {
        h.update(chunk);
    }
    assert_eq!(h.finalize(), whole);
}

#[test]
fn mgf1_length_and_determinism() {
    let seed = [0x5Au8; 32];
    for len in [0usize, 1, 31, 32, 33, 100] {
        let m = mgf1(&seed, len);
        assert_eq!(m.len(), len);
        let again = mgf1(&seed, len);
        assert_eq!(m, again);
    }
}

#[test]
fn mgf1_prefix_property() {
    let seed = b"prefix property seed";
    let short = mgf1(seed, 10);
    let long = mgf1(seed, 75);
    assert_eq!(&long[..10], &short[..]);
    let mid = mgf1(seed, 32);
    assert_eq!(&long[..32], &mid[..]);
}

#[test]
fn mgf1_depends_on_seed() {
    let a = mgf1(b"seed a", 32);
    let b = mgf1(b"seed b", 32);
    assert_ne!(a, b);
}

#[test]
fn mgf1_is_counted_digests() {
    // independently rebuild the mask from plain digest calls
    let seed = b"cross check";
    let mut block0 = seed.to_vec();
    block0.extend_from_slice(&[0, 0, 0, 0]);
    let mut block1 = seed.to_vec();
    block1.extend_from_slice(&[0, 0, 0, 1]);
    let mut expect = Sha256::digest(&block0);
    expect.extend_from_slice(&Sha256::digest(&block1));
    expect.truncate(40);
    assert_eq!(mgf1(seed, 40), expect);
}
