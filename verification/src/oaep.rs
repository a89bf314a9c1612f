//! OAEP message encoding and decoding, with the MGF1 mask generator.
//!
//! Encoding fails only when the message cannot fit the padding layout;
//! decoding fails closed, returning nothing at all whatever structural
//! check went wrong.

use vstd::prelude::*;
use crate::sha256::{Sha256, sha256_spec, lemma_sha256_len};
use vstd::arithmetic::power2::{pow2, lemma2_to64, lemma2_to64_rest};

verus! {

/// Digest width in bytes.
pub const HASH_LEN: usize = 32;

/// Pointwise exclusive or of two equal-length byte strings.
pub open spec fn xor_seq(a: Seq<u8>, b: Seq<u8>) -> Seq<u8>
    recommends
        a.len() == b.len(),
{
    Seq::new(a.len(), |i: int| a[i] ^ b[i])
}

/// The four big-endian bytes of the MGF1 block counter.
pub open spec fn ctr_bytes(c: nat) -> Seq<u8>
    recommends
        c < 0x100000000,
{
    seq![
        ((c / 0x1000000) % 0x100) as u8,
        ((c / 0x10000) % 0x100) as u8,
        ((c / 0x100) % 0x100) as u8,
        (c % 0x100) as u8,
    ]
}

/// The first `n` whole MGF1 blocks: digests of seed-and-counter.
pub open spec fn mgf1_blocks(seed: Seq<u8>, n: nat) -> Seq<u8>
    decreases n,
{
    if n == 0 {
        Seq::empty()
    } else {
        mgf1_blocks(seed, (n - 1) as nat) + sha256_spec(seed + ctr_bytes((n - 1) as nat))
    }
}

/// The MGF1 mask of `len` bytes derived from `seed`.
pub open spec fn mgf1_spec(seed: Seq<u8>, len: nat) -> Seq<u8> {
    mgf1_blocks(seed, (len + 31) / 32).take(len as int)
}

/// The whole blocks together are 32 bytes each.
pub proof fn lemma_mgf1_blocks_len(seed: Seq<u8>, n: nat)
    ensures
        mgf1_blocks(seed, n).len() == 32 * n,
    decreases n,
{
    if n > 0 {
        lemma_mgf1_blocks_len(seed, (n - 1) as nat);
        lemma_sha256_len(seed + ctr_bytes((n - 1) as nat));
    }
}

/// Fewer blocks are a prefix of more blocks.
pub proof fn lemma_mgf1_blocks_prefix(seed: Seq<u8>, n1: nat, n2: nat)
    requires
        n1 <= n2,
    ensures
        mgf1_blocks(seed, n1) == mgf1_blocks(seed, n2).take(32 * n1 as int),
    decreases n2,
{
    lemma_mgf1_blocks_len(seed, n1);
    lemma_mgf1_blocks_len(seed, n2);
    if n1 == n2 {
        assert(mgf1_blocks(seed, n1).take(32 * n1 as int) =~= mgf1_blocks(seed, n1));
    } else {
        lemma_mgf1_blocks_prefix(seed, n1, (n2 - 1) as nat);
        lemma_mgf1_blocks_len(seed, (n2 - 1) as nat);
        assert(mgf1_blocks(seed, n2).take(32 * n1 as int)
            =~= mgf1_blocks(seed, (n2 - 1) as nat).take(32 * n1 as int));
    }
}

/// The MGF1 mask of a given length is exactly that long, it depends on
/// the seed and length alone, and a shorter mask is a prefix of any
/// longer one from the same seed.
pub proof fn lemma_mgf1_prefix(seed: Seq<u8>, l1: nat, l2: nat)
    requires
        l1 <= l2,
    ensures
        mgf1_spec(seed, l1).len() == l1,
        mgf1_spec(seed, l2).len() == l2,
        mgf1_spec(seed, l1) == mgf1_spec(seed, l2).take(l1 as int),
{
    let n1 = (l1 + 31) / 32;
    let n2 = (l2 + 31) / 32;
    lemma_mgf1_blocks_len(seed, n1);
    lemma_mgf1_blocks_len(seed, n2);
    lemma_mgf1_blocks_prefix(seed, n1, n2);
    assert(mgf1_blocks(seed, n1).take(l1 as int)
        =~= mgf1_blocks(seed, n2).take(l2 as int).take(l1 as int));
}

/// Masking twice with the same mask gives the input back.
pub proof fn lemma_xor_cancel(a: Seq<u8>, b: Seq<u8>)
    requires
        a.len() == b.len(),
    ensures
        xor_seq(xor_seq(a, b), b) == a,
{
    assert forall|i: int| 0 <= i < a.len()
        implies xor_seq(xor_seq(a, b), b)[i] == a[i] by {
        let x = a[i];
        let y = b[i];
        assert((x ^ y) ^ y == x) by (bit_vector);
    }
    assert(xor_seq(xor_seq(a, b), b) =~= a);
}

/// The scan for the 0x01 separator: zero bytes are skipped, the first
/// 0x01 splits off the message, anything else rejects.
pub open spec fn sep_scan(db: Seq<u8>, i: int) -> Option<Seq<u8>>
    decreases db.len() - i,
{
    if i < 0 || i >= db.len() {
        None
    } else if db[i] == 1 {
        Some(db.skip(i + 1))
    } else if db[i] != 0 {
        None
    } else {
        sep_scan(db, i + 1)
    }
}

/// A run of zero bytes does not change what the scan finds.
pub proof fn lemma_sep_scan_zeros(db: Seq<u8>, i: int, j: int)
    requires
        0 <= i <= j <= db.len(),
        forall|q: int| i <= q < j ==> db[q] == 0,
    ensures
        sep_scan(db, i) == sep_scan(db, j),
    decreases j - i,
{
    if i < j {
        lemma_sep_scan_zeros(db, i + 1, j);
    }
}

/// A data block whose scanned region is all zeros — no separator at
/// all — is rejected.
pub proof fn lemma_sep_scan_rejects_all_zero(db: Seq<u8>, i: int)
    requires
        0 <= i <= db.len(),
        forall|q: int| i <= q < db.len() ==> db[q] == 0,
    ensures
        sep_scan(db, i) is None,
    decreases db.len() - i,
{
    if i < db.len() {
        lemma_sep_scan_rejects_all_zero(db, i + 1);
    }
}

/// A data block whose first nonzero scanned byte is not the 0x01
/// separator is rejected.
pub proof fn lemma_sep_scan_rejects_stray_byte(db: Seq<u8>, i: int, j: int)
    requires
        0 <= i <= j < db.len(),
        db[j] != 0,
        db[j] != 1,
        forall|q: int| i <= q < j ==> db[q] == 0,
    ensures
        sep_scan(db, i) is None,
{
    lemma_sep_scan_zeros(db, i, j);
}

/// The OAEP encoding of `m` under `seed` for a modulus of `k` bytes.
pub open spec fn oaep_encode_spec(m: Seq<u8>, seed: Seq<u8>, k: nat) -> Seq<u8>
    recommends
        m.len() + 66 <= k,
        seed.len() == 32,
{
    let db = sha256_spec(Seq::empty())
        + Seq::new((k - m.len() - 66) as nat, |i: int| 0u8) + seq![1u8] + m;
    let masked_db = xor_seq(db, mgf1_spec(seed, (k - 33) as nat));
    let masked_seed = xor_seq(seed, mgf1_spec(masked_db, 32));
    seq![0u8] + masked_seed + masked_db
}

/// The OAEP decoding of an encoded message, or nothing when any
/// structural check fails.
pub open spec fn oaep_decode_spec(em: Seq<u8>) -> Option<Seq<u8>>
    recommends
        em.len() >= 66,
{
    if em[0] != 0 {
        None
    } else {
        let masked_seed = em.subrange(1, 33);
        let masked_db = em.skip(33);
        let seed = xor_seq(masked_seed, mgf1_spec(masked_db, 32));
        let db = xor_seq(masked_db, mgf1_spec(seed, masked_db.len()));
        if db.take(32) != sha256_spec(Seq::empty()) {
            None
        } else {
            sep_scan(db, 32)
        }
    }
}

/// Decoding inverts encoding: for any message that fits and any 32-byte
/// seed, the decoder returns exactly the encoded message.
pub proof fn lemma_oaep_round_trip(m: Seq<u8>, seed: Seq<u8>, k: nat)
    requires
        seed.len() == 32,
        m.len() + 66 <= k,
    ensures
        oaep_decode_spec(oaep_encode_spec(m, seed, k)) == Some(m),
{
    let z = (k - m.len() - 66) as nat;
    let lh = sha256_spec(Seq::<u8>::empty());
    let db = lh + Seq::new(z, |i: int| 0u8) + seq![1u8] + m;
    let dbm = mgf1_spec(seed, (k - 33) as nat);
    let masked_db = xor_seq(db, dbm);
    let sm = mgf1_spec(masked_db, 32);
    let masked_seed = xor_seq(seed, sm);
    let em = oaep_encode_spec(m, seed, k);
    lemma_sha256_len(Seq::<u8>::empty());
    lemma_mgf1_prefix(seed, (k - 33) as nat, (k - 33) as nat);
    lemma_mgf1_prefix(masked_db, 32, 32);
    assert(lh.len() == 32);
    assert(db.len() == k - 33);
    assert(em[0] == 0);
    assert(em.subrange(1, 33) =~= masked_seed);
    assert(em.skip(33) =~= masked_db);
    // the seed and the data block both unmask
    lemma_xor_cancel(seed, sm);
    assert(xor_seq(em.subrange(1, 33), mgf1_spec(em.skip(33), 32)) == seed);
    lemma_xor_cancel(db, dbm);
    assert(xor_seq(em.skip(33), mgf1_spec(seed, masked_db.len())) == db);
    // the label hash checks out and the scan lands on the separator
    assert(db.take(32) =~= lh);
    assert(forall|q: int| 32 <= q < 32 + z as int ==> db[q] == 0);
    lemma_sep_scan_zeros(db, 32, 32 + z as int);
    assert(db[32 + z as int] == 1);
    assert(sep_scan(db, 32 + z as int) == Some(db.skip(33 + z as int)));
    assert(db.skip(33 + z as int) =~= m);
}

/// Append a copy of `src`.
#[verifier::loop_isolation(false)]
fn append_bytes(dst: &mut Vec<u8>, src: &[u8])
    ensures
        final(dst)@ == old(dst)@ + src@,
{
    let n = src.len();
    let mut i: usize = 0;
    proof {
        assert(dst@ =~= old(dst)@ + src@.take(0));
    }
    while i < n
        invariant
            i <= n,
            dst@ == old(dst)@ + src@.take(i as int),
        decreases n - i,
    {
        let b = src[i];
        dst.push(b);
        proof {
            assert(old(dst)@ + src@.take(i as int) + seq![b] =~= old(dst)@ + src@.take(i + 1));
        }
        i = i + 1;
    }
    proof {
        assert(src@.take(n as int) =~= src@);
    }
}

/// Append `n` zero bytes.
#[verifier::loop_isolation(false)]
fn append_zeros(dst: &mut Vec<u8>, n: usize)
    ensures
        final(dst)@ == old(dst)@ + Seq::new(n as nat, |i: int| 0u8),
{
    let mut i: usize = 0;
    while i < n
        invariant
            i <= n,
            dst@ == old(dst)@ + Seq::new(i as nat, |q: int| 0u8),
        decreases n - i,
    {
        dst.push(0);
        proof {
            assert(old(dst)@ + Seq::new(i as nat, |q: int| 0u8) + seq![0u8]
                =~= old(dst)@ + Seq::new((i + 1) as nat, |q: int| 0u8));
        }
        i = i + 1;
    }
}

/// A copy of `src[from..to]`.
#[verifier::loop_isolation(false)]
fn sub_bytes(src: &[u8], from: usize, to: usize) -> (r: Vec<u8>)
    requires
        from <= to <= src@.len(),
    ensures
        r@ == src@.subrange(from as int, to as int),
{
    let mut r: Vec<u8> = Vec::new();
    let mut i = from;
    while i < to
        invariant
            from <= i <= to,
            r@ == src@.subrange(from as int, i as int),
        decreases to - i,
    {
        let b = src[i];
        r.push(b);
        proof {
            assert(src@.subrange(from as int, i as int).push(b)
                =~= src@.subrange(from as int, i + 1));
        }
        i = i + 1;
    }
    r
}

/// Whether two byte strings are equal.
#[verifier::loop_isolation(false)]
fn bytes_eq(a: &[u8], b: &[u8]) -> (r: bool)
    ensures
        r == (a@ == b@),
{
    if a.len() != b.len() {
        return false;
    }
    let n = a.len();
    let mut i: usize = 0;
    while i < n
        invariant
            i <= n,
            forall|q: int| 0 <= q < i ==> a@[q] == b@[q],
        decreases n - i,
    {
        if a[i] != b[i] {
            return false;
        }
        i = i + 1;
    }
    proof {
        assert(a@ =~= b@);
    }
    true
}

/// The hash of the empty label.
fn label_hash() -> (r: Vec<u8>)
    ensures
        r@ == sha256_spec(Seq::<u8>::empty()),
        r@.len() == 32,
{
    let empty: [u8; 0] = [];
    proof {
        vstd::arithmetic::power2::lemma_pow2_pos(61);
        assert(empty@ =~= Seq::<u8>::empty());
    }
    Sha256::digest(empty.as_slice())
}

/// The MGF1 mask: digests of seed-and-counter, concatenated and cut to
/// `len` bytes. Deterministic in the seed and length.
#[verifier::loop_isolation(false)]
pub fn mgf1(seed: &[u8], len: usize) -> (r: Vec<u8>)
    requires
        seed@.len() + 4 < pow2(61),
        len < 0x100000000,
    ensures
        r@.len() == len,
        r@ == mgf1_spec(seed@, len as nat),
{
    let mut t: Vec<u8> = Vec::new();
    let mut counter: u32 = 0;
    proof {
        lemma_mgf1_blocks_len(seed@, 0);
    }
    while t.len() < len
        invariant
            t@ == mgf1_blocks(seed@, counter as nat),
            t@.len() == 32 * counter,
        decreases len + 32 - t@.len(),
    {
        let mut hasher = Sha256::new();
        hasher.update(seed);
        let cb = ctr_to_bytes(counter);
        hasher.update(cb.as_slice());
        let d = hasher.finalize();
        proof {
            assert(Seq::<u8>::empty() + seed@ + cb@ =~= seed@ + ctr_bytes(counter as nat));
        }
        let ghost pre = t@;
        append_bytes(&mut t, d.as_slice());
        proof {
            lemma_mgf1_blocks_len(seed@, (counter + 1) as nat);
            assert(t@ == mgf1_blocks(seed@, (counter + 1) as nat));
        }
        counter = counter + 1;
    }
    // cut the assembled blocks down to the requested length
    let mut out: Vec<u8> = Vec::new();
    let mut i: usize = 0;
    while i < len
        invariant
            i <= len,
            len <= t@.len(),
            t@ == mgf1_blocks(seed@, counter as nat),
            out@ == t@.take(i as int),
        decreases len - i,
    {
        let b = t[i];
        out.push(b);
        proof {
            assert(t@.take(i as int).push(b) =~= t@.take(i + 1));
        }
        i = i + 1;
    }
    proof {
        let nb = ((len + 31) / 32) as nat;
        lemma_mgf1_blocks_prefix(seed@, nb, counter as nat);
        lemma_mgf1_blocks_len(seed@, nb);
        lemma_mgf1_blocks_len(seed@, counter as nat);
        assert(mgf1_blocks(seed@, nb).take(len as int)
            =~= mgf1_blocks(seed@, counter as nat).take(len as int));
        assert(out@ == mgf1_spec(seed@, len as nat));
    }
    out
}

/// The four big-endian counter bytes.
fn ctr_to_bytes(c: u32) -> (r: Vec<u8>)
    ensures
        r@ == ctr_bytes(c as nat),
        r@.len() == 4,
{
    let mut r: Vec<u8> = Vec::new();
    r.push(((c / 0x1000000) % 0x100) as u8);
    r.push(((c / 0x10000) % 0x100) as u8);
    r.push(((c / 0x100) % 0x100) as u8);
    r.push((c % 0x100) as u8);
    proof {
        assert(r@ =~= ctr_bytes(c as nat));
    }
    r
}

/// OAEP-encode `message` for a `k`-byte modulus with the given 32-byte
/// seed: `None` exactly when the message is too long for the layout.
#[verifier::loop_isolation(false)]
#[verifier::rlimit(100)]
pub fn oaep_encode(message: &[u8], seed: &[u8], k: usize) -> (r: Option<Vec<u8>>)
    requires
        seed@.len() == 32,
        66 <= k < 0x100000000,
    ensures
        message@.len() + 66 <= k ==> (match r {
            Option::Some(em) => em@ == oaep_encode_spec(message@, seed@, k as nat)
                && em@.len() == k,
            Option::None => false,
        }),
        message@.len() + 66 > k ==> r is None,
{
    if message.len() > k - 66 {
        return None;
    }
    let z = k - 66 - message.len();
    let mut db = label_hash();
    append_zeros(&mut db, z);
    db.push(1);
    append_bytes(&mut db, message);
    let ghost db_spec = sha256_spec(Seq::<u8>::empty())
        + Seq::new((k - message@.len() - 66) as nat, |i: int| 0u8) + seq![1u8] + message@;
    proof {
        lemma_sha256_len(Seq::<u8>::empty());
        assert(db@ =~= db_spec);
    }
    proof {
        lemma2_to64();
        lemma2_to64_rest();
    }
    let db_mask = mgf1(seed, k - 33);
    let masked_db = xor_bytes(db.as_slice(), db_mask.as_slice());
    let seed_mask = mgf1(masked_db.as_slice(), HASH_LEN);
    let masked_seed = xor_bytes(seed, seed_mask.as_slice());
    let mut em: Vec<u8> = Vec::new();
    em.push(0);
    append_bytes(&mut em, masked_seed.as_slice());
    append_bytes(&mut em, masked_db.as_slice());
    proof {
        assert(em@ =~= oaep_encode_spec(message@, seed@, k as nat));
    }
    Some(em)
}

/// Pointwise exclusive or.
#[verifier::loop_isolation(false)]
fn xor_bytes(a: &[u8], b: &[u8]) -> (r: Vec<u8>)
    requires
        a@.len() == b@.len(),
    ensures
        r@ == xor_seq(a@, b@),
{
    let n = a.len();
    let mut r: Vec<u8> = Vec::new();
    let mut i: usize = 0;
    while i < n
        invariant
            i <= n,
            r@.len() == i,
            forall|q: int| 0 <= q < i ==> r@[q] == (a@[q] ^ b@[q]),
        decreases n - i,
    {
        r.push(a[i] ^ b[i]);
        i = i + 1;
    }
    proof {
        assert(r@ =~= xor_seq(a@, b@));
    }
    r
}

/// OAEP-decode an encoded message; any failed structural check yields
/// `None`, with no word on which check it was.
#[verifier::loop_isolation(false)]
#[verifier::rlimit(100)]
pub fn oaep_decode(em: &[u8]) -> (r: Option<Vec<u8>>)
    requires
        66 <= em@.len() < 0x100000000,
    ensures
        ({
            let d = oaep_decode_spec(em@);
            match r {
                Option::Some(v) => d == Some(v@),
                Option::None => d is None,
            }
        }),
{
    if em[0] != 0 {
        return None;
    }
    let masked_seed = sub_bytes(em, 1, 33);
    let masked_db = sub_bytes(em, 33, em.len());
    proof {
        assert(em@.subrange(33, em@.len() as int) =~= em@.skip(33));
    }
    proof {
        lemma2_to64();
        lemma2_to64_rest();
    }
    let seed_mask = mgf1(masked_db.as_slice(), HASH_LEN);
    let seed = xor_bytes(masked_seed.as_slice(), seed_mask.as_slice());
    let db_mask = mgf1(seed.as_slice(), em.len() - 33);
    let db = xor_bytes(masked_db.as_slice(), db_mask.as_slice());
    let lh = label_hash();
    let db_head = sub_bytes(db.as_slice(), 0, 32);
    proof {
        assert(db@.subrange(0, 32) =~= db@.take(32));
    }
    if !bytes_eq(db_head.as_slice(), lh.as_slice()) {
        return None;
    }
    let n = db.len();
    let mut i: usize = 32;
    while i < n
        invariant
            32 <= i <= n,
            n == db@.len(),
            sep_scan(db@, 32) == sep_scan(db@, i as int),
        decreases n - i,
    {
        let b = db[i];
        if b == 1 {
            let msg = sub_bytes(db.as_slice(), i + 1, n);
            proof {
                assert(db@.subrange(i + 1, n as int) =~= db@.skip(i + 1));
            }
            return Some(msg);
        }
        if b != 0 {
            return None;
        }
        i = i + 1;
    }
    None
}

} // verus!
