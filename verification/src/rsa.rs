//! The RSA transforms: OAEP-padded public-key encryption and CRT
//! (Garner) private-key decryption, plus parsing of the fixed binary
//! request layouts.

use vstd::prelude::*;
use vstd::arithmetic::power::pow;
use vstd::arithmetic::power2::{pow2, lemma2_to64, lemma_pow2_pos, lemma_pow2_adds, lemma_pow2_strictly_increases};
use vstd::arithmetic::div_mod::{lemma_small_mod, lemma_mod_bound, lemma_mod_multiples_vanish, lemma_mul_mod_noop_right, lemma_mul_mod_noop_left};
use crate::bigint::{BigUint, cap, be_bytes_val, lemma_be_bytes_val_bound};
use crate::oaep::{oaep_encode, oaep_decode, oaep_encode_spec, oaep_decode_spec};

verus! {

/// Modulus width in bytes: a 2048-bit key.
pub const KEY_BYTES: usize = 256;

/// Prime width in bytes for the CRT form: 1024 bits.
pub const PRIME_BYTES: usize = 128;

/// The ciphertext value produced by encrypting `m` under `(nb, eb)` with
/// the OAEP seed `seed`.
pub open spec fn rsa_encrypt_spec(nb: Seq<u8>, eb: Seq<u8>, m: Seq<u8>, seed: Seq<u8>) -> nat {
    (pow(be_bytes_val(oaep_encode_spec(m, seed, 256)) as int, be_bytes_val(eb))
        % (be_bytes_val(nb) as int)) as nat
}

/// The plaintext value recovered by Garner's recombination.
pub open spec fn garner_spec(pv: nat, qv: nat, dpv: nat, dqv: nat, qinvv: nat, cv: nat) -> nat
    recommends
        pv > 0,
        qv > 0,
{
    let m1 = (pow((cv % pv) as int, dpv) % (pv as int)) as nat;
    let m2 = (pow((cv % qv) as int, dqv) % (qv as int)) as nat;
    let diff = (((m1 + pv - m2 % pv) as int) % (pv as int)) as nat;
    let h = (diff * qinvv) % pv;
    m2 + h * qv
}

/// Two big-endian strings of one length with one value are the same string.
pub proof fn lemma_be_bytes_val_injective(a: Seq<u8>, b: Seq<u8>)
    requires
        a.len() == b.len(),
        be_bytes_val(a) == be_bytes_val(b),
    ensures
        a == b,
    decreases a.len(),
{
    if a.len() > 0 {
        let p = pow2(8 * (a.len() - 1) as nat);
        lemma_pow2_pos(8 * (a.len() - 1) as nat);
        lemma_be_bytes_val_bound(a.skip(1));
        lemma_be_bytes_val_bound(b.skip(1));
        vstd::arithmetic::div_mod::lemma_fundamental_div_mod_converse(
            be_bytes_val(a) as int, p as int, a[0] as int, be_bytes_val(a.skip(1)) as int);
        vstd::arithmetic::div_mod::lemma_fundamental_div_mod_converse(
            be_bytes_val(b) as int, p as int, b[0] as int, be_bytes_val(b.skip(1)) as int);
        assert((a[0] as nat) * p == p * (a[0] as int)) by (nonlinear_arith);
        assert((b[0] as nat) * p == p * (b[0] as int)) by (nonlinear_arith);
        assert(a[0] as int == be_bytes_val(a) as int / (p as int));
        assert(b[0] as int == be_bytes_val(b) as int / (p as int));
        assert(a[0] == b[0]);
        assert(be_bytes_val(a.skip(1)) == be_bytes_val(b.skip(1)));
        lemma_be_bytes_val_injective(a.skip(1), b.skip(1));
        assert forall|i: int| 0 <= i < a.len() implies a[i] == b[i] by {
            if i > 0 {
                assert(a[i] == a.skip(1)[i - 1]);
                assert(b[i] == b.skip(1)[i - 1]);
            }
        }
        assert(a =~= b);
    } else {
        assert(a =~= b);
    }
}

/// Garner's recombination is the unique residue: the combined value is
/// below `p q` and reduces to `m1` modulo `p` and to `m2` modulo `q`,
/// whenever `qInv` really inverts `q` modulo `p`.
pub proof fn lemma_garner_combines(pv: nat, qv: nat, m1: nat, m2: nat, qinvv: nat)
    requires
        pv > 0,
        qv > 0,
        m1 < pv,
        m2 < qv,
        (qinvv * qv) % pv == 1,
    ensures
        ({
            let diff = (((m1 + pv - m2 % pv) as int) % (pv as int)) as nat;
            let h = (diff * qinvv) % pv;
            let m = m2 + h * qv;
            &&& m % qv == m2
            &&& m % pv == m1
            &&& m < pv * qv
        }),
{
    let pi = pv as int;
    let qi = qv as int;
    let diff = (((m1 + pv - m2 % pv) as int) % (pv as int)) as nat;
    let h = (diff * qinvv) % pv;
    let m = m2 + h * qv;

    // m mod q is m2: h q vanishes
    lemma_mod_multiples_vanish(h as int, m2 as int, qi);
    assert(m as int == qi * (h as int) + m2 as int) by (nonlinear_arith)
        requires m == m2 + h * qv, qi == qv;
    lemma_small_mod(m2, qv);
    assert(m % qv == m2);

    // m mod p is m1: h q == (m1 - m2) qInv q == m1 - m2  (mod p)
    lemma_mod_bound(m2 as int, pi);
    lemma_mod_bound(diff as int, pi);
    lemma_mod_bound((diff * qinvv) as int, pi);
    // (h q) mod p == (diff qinv q) mod p
    lemma_mul_mod_noop_left((diff * qinvv) as int, qi, pi);
    assert((h * qv) % pv == ((diff * qinvv) * qv) % pv) by {
        assert(h == (diff * qinvv) % pv);
        lemma_mul_mod_noop_left((diff * qinvv) as int, qi, pi);
    }
    // (diff qinv q) mod p == (diff * (qinv q)) mod p == (diff * ((qinv q) mod p)) mod p == diff mod p
    assert((diff * qinvv) * qv == diff * (qinvv * qv)) by (nonlinear_arith);
    lemma_mul_mod_noop_right(diff as int, (qinvv * qv) as int, pi);
    assert((diff * (qinvv * qv)) % pv == (diff * ((qinvv * qv) % pv)) % pv);
    assert(diff * ((qinvv * qv) % pv) == diff) by (nonlinear_arith)
        requires (qinvv * qv) % pv == 1;
    lemma_small_mod(diff, pv);
    assert((h * qv) % pv == diff);
    // diff == (m1 - m2) mod p, so m == m2 + h q == m1  (mod p)
    let m2p = m2 % pv;
    lemma_fundamental_div_mod_int((h * qv) as int, pi);
    let s = (h * qv) as int / pi;
    assert((h * qv) as int == pi * s + diff);
    lemma_fundamental_div_mod_int((m1 + pv - m2p) as int, pi);
    let t = (m1 + pv - m2p) as int / pi;
    assert((m1 + pv - m2p) as int == pi * t + diff);
    lemma_fundamental_div_mod_int(m2 as int, pi);
    let u = m2 as int / pi;
    assert(m2 as int == pi * u + m2p);
    assert(m as int == pi * (s - t + u + 1) + m1) by (nonlinear_arith)
        requires
            pi == pv,
            m == m2 + h * qv,
            (h * qv) as int == pi * s + diff,
            (m1 + pv - m2p) as int == pi * t + diff,
            m2 as int == pi * u + m2p;
    vstd::arithmetic::div_mod::lemma_fundamental_div_mod_converse_mod(
        m as int, pi, s - t + u + 1, m1 as int);

    // and the combination stays below p q
    assert(h * qv <= (pv - 1) * qv) by (nonlinear_arith)
        requires h <= pv - 1, qv >= 0;
    assert(m2 + (pv - 1) * qv < pv * qv) by (nonlinear_arith)
        requires m2 < qv, pv >= 1;
}

/// `lemma_fundamental_div_mod` restated over an `int` dividend.
proof fn lemma_fundamental_div_mod_int(x: int, d: int)
    requires
        d != 0,
    ensures
        x == d * (x / d) + x % d,
{
    vstd::arithmetic::div_mod::lemma_fundamental_div_mod(x, d);
}

/// Montgomery exponentiation and the naive reference agree wherever both
/// contracts apply: each returns `base ^ e mod m`.
pub proof fn lemma_modpow_matches_reference(fast: nat, slow: nat, base: nat, e: nat, m: nat)
    requires
        fast == pow(base as int, e) % (m as int),
        slow == pow(base as int, e) % (m as int),
    ensures
        fast == slow,
{
}

/// Relies on `rand::rngs::SysRng::try_fill_bytes` (getrandom's system
/// entropy source): on success the buffer is filled with `n` bytes from
/// the operating system; nothing else is promised of their values.
#[verifier::external_body]
fn os_random_bytes(n: usize) -> (r: Option<Vec<u8>>)
    ensures
        match r {
            Option::Some(v) => v@.len() == n,
            Option::None => true,
        },
{
    let mut buf = vec![0u8; n];
    match rand::TryRng::try_fill_bytes(&mut rand::rngs::SysRng, &mut buf) {
        Ok(()) => Some(buf),
        Err(_) => None,
    }
}

/// Encrypt with a caller-supplied OAEP seed: OAEP-encode, then one
/// public-key exponentiation, then the 256-byte big-endian ciphertext.
pub fn rsa_encrypt(n_bytes: &[u8], e_bytes: &[u8], message: &[u8], seed: &[u8]) -> (r: Vec<u8>)
    requires
        n_bytes@.len() == 256,
        e_bytes@.len() == 256,
        seed@.len() == 32,
        message@.len() + 66 <= 256,
        be_bytes_val(n_bytes@) % 2 == 1,
        n_bytes@[0] >= 1,
    ensures
        r@.len() == 256,
        be_bytes_val(r@) == rsa_encrypt_spec(n_bytes@, e_bytes@, message@, seed@),
{
    let em_opt = oaep_encode(message, seed, KEY_BYTES);
    let em = match em_opt {
        Option::Some(v) => v,
        Option::None => {
            proof {
                assert(false);
            }
            Vec::new()
        },
    };
    let m_int = BigUint::from_be_bytes(em.as_slice());
    let n_int = BigUint::from_be_bytes(n_bytes);
    let e_int = BigUint::from_be_bytes(e_bytes);
    proof {
        // the leading zero byte keeps the encoded message below the modulus
        assert(em@[0] == 0);
        assert(em@.skip(1).len() == 255);
        lemma_be_bytes_val_bound(em@.skip(1));
        assert(be_bytes_val(em@)
            == (em@[0] as nat) * pow2(2040) + be_bytes_val(em@.skip(1)));
        assert((em@[0] as nat) * pow2(2040) == 0) by (nonlinear_arith)
            requires em@[0] == 0;
        assert(be_bytes_val(n_bytes@)
            == (n_bytes@[0] as nat) * pow2(2040) + be_bytes_val(n_bytes@.skip(1)));
        lemma_pow2_pos(2040);
        assert((n_bytes@[0] as nat) * pow2(2040) >= pow2(2040)) by (nonlinear_arith)
            requires (n_bytes@[0] as nat) >= 1, pow2(2040) > 0;
        lemma_be_bytes_val_bound(n_bytes@);
        lemma_pow2_strictly_increases(2040, 2048);
        assert(m_int.val() < n_int.val());
        assert(n_int.val() < pow2(2048));
    }
    let c = m_int.modpow(&e_int, &n_int);
    let out = c.to_bytes_be(KEY_BYTES);
    proof {
        lemma_small_mod(c.val(), pow2(2048));
    }
    out
}

/// Encrypt with a fresh random OAEP seed from the operating system;
/// `None` only when the system's entropy source fails.
pub fn rsa_encrypt_random(n_bytes: &[u8], e_bytes: &[u8], message: &[u8]) -> (r: Option<Vec<u8>>)
    requires
        n_bytes@.len() == 256,
        e_bytes@.len() == 256,
        message@.len() + 66 <= 256,
        be_bytes_val(n_bytes@) % 2 == 1,
        n_bytes@[0] >= 1,
    ensures
        match r {
            Option::Some(c) => c@.len() == 256 && exists|seed: Seq<u8>|
                seed.len() == 32
                    && be_bytes_val(c@) == #[trigger] rsa_encrypt_spec(
                        n_bytes@, e_bytes@, message@, seed),
            Option::None => true,
        },
{
    let seed = match os_random_bytes(32) {
        Option::Some(s) => s,
        Option::None => {
            return None;
        },
    };
    let c = rsa_encrypt(n_bytes, e_bytes, message, seed.as_slice());
    proof {
        assert(be_bytes_val(c@) == rsa_encrypt_spec(n_bytes@, e_bytes@, message@, seed@));
    }
    Some(c)
}

/// Modular subtraction: add the modulus once when the subtrahend is the
/// larger, then subtract.
pub fn mod_sub(a: &BigUint, b: &BigUint, p: &BigUint) -> (r: BigUint)
    requires
        a.wf(),
        b.wf(),
        p.wf(),
        a.val() < p.val(),
        b.val() < p.val(),
        2 * p.val() <= cap(),
    ensures
        r.wf(),
        r.val() == ((a.val() + p.val() - b.val()) as int) % (p.val() as int),
        r.val() < p.val(),
{
    let mut r = a.duplicate();
    if r.ge(b) {
        r.sub_assign(b);
        proof {
            lemma_mod_multiples_vanish(1, a.val() - b.val(), p.val() as int);
            lemma_small_mod((a.val() - b.val()) as nat, p.val());
            assert(p.val() as int * 1 + (a.val() - b.val())
                == a.val() + p.val() - b.val()) by (nonlinear_arith);
        }
    } else {
        proof {
            lemma_small_mod(a.val(), cap());
            assert(a.val() + p.val() < cap());
            lemma_small_mod((a.val() + p.val()) as nat, cap());
        }
        r.add_assign(p);
        r.sub_assign(b);
        proof {
            lemma_small_mod((a.val() + p.val() - b.val()) as nat, p.val());
        }
    }
    r
}

/// CRT decryption down to the encoded message: two half-width
/// exponentiations and Garner's recombination, as 256 big-endian bytes.
pub fn crt_decrypt_raw(
    p_bytes: &[u8], q_bytes: &[u8], dp_bytes: &[u8], dq_bytes: &[u8],
    qinv_bytes: &[u8], c_bytes: &[u8],
) -> (r: Vec<u8>)
    requires
        p_bytes@.len() == 128,
        q_bytes@.len() == 128,
        dp_bytes@.len() == 128,
        dq_bytes@.len() == 128,
        qinv_bytes@.len() == 128,
        c_bytes@.len() == 256,
        be_bytes_val(p_bytes@) % 2 == 1,
        be_bytes_val(q_bytes@) % 2 == 1,
    ensures
        r@.len() == 256,
        be_bytes_val(r@) == garner_spec(
            be_bytes_val(p_bytes@), be_bytes_val(q_bytes@),
            be_bytes_val(dp_bytes@), be_bytes_val(dq_bytes@),
            be_bytes_val(qinv_bytes@), be_bytes_val(c_bytes@)) % pow2(2048),
{
    let p = BigUint::from_be_bytes(p_bytes);
    let q = BigUint::from_be_bytes(q_bytes);
    let dp = BigUint::from_be_bytes(dp_bytes);
    let dq = BigUint::from_be_bytes(dq_bytes);
    let qinv = BigUint::from_be_bytes(qinv_bytes);
    let c = BigUint::from_be_bytes(c_bytes);
    let ghost pv = p.val();
    let ghost qv = q.val();
    proof {
        lemma_be_bytes_val_bound(p_bytes@);
        lemma_be_bytes_val_bound(q_bytes@);
        lemma_be_bytes_val_bound(qinv_bytes@);
        lemma_pow2_strictly_increases(1024, 2048);
        lemma_pow2_strictly_increases(1024, 4224);
        lemma_pow2_adds(1024, 1);
        lemma2_to64();
        lemma_pow2_strictly_increases(1025, 4224);
        assert(2 * pv < pow2(1025)) by (nonlinear_arith)
            requires pv < pow2(1024), pow2(1025) == pow2(1024) * pow2(1), pow2(1) == 2;
        assert(2 * qv < pow2(1025)) by (nonlinear_arith)
            requires qv < pow2(1024), pow2(1025) == pow2(1024) * pow2(1), pow2(1) == 2;
    }
    // m1 = (c mod p) ^ dP mod p, m2 = (c mod q) ^ dQ mod q
    let c_mod_p = c.rem(&p);
    let m1 = c_mod_p.modpow(&dp, &p);
    let c_mod_q = c.rem(&q);
    let m2 = c_mod_q.modpow(&dq, &q);
    // h = (m1 - m2) qInv mod p, working strictly modulo p
    let m2_mod_p = m2.rem(&p);
    proof {
        lemma_mod_bound(m2.val() as int, pv as int);
    }
    let diff = mod_sub(&m1, &m2_mod_p, &p);
    proof {
        lemma_pow2_adds(1024, 1024);
        lemma_pow2_strictly_increases(2048, 4224);
        assert(diff.val() * qinv.val() < pow2(1024) * pow2(1024)) by (nonlinear_arith)
            requires diff.val() < pow2(1024), qinv.val() < pow2(1024);
    }
    let h = diff.mul_mod(&qinv, &p);
    // m = m2 + h q, provably below p q, then out to full width
    proof {
        lemma_mod_bound(h.val() as int, pv as int);
        assert(h.val() * qv < pow2(1024) * pow2(1024)) by (nonlinear_arith)
            requires h.val() < pow2(1024), qv < pow2(1024);
        lemma_small_mod((h.val() * qv) as nat, cap());
    }
    let hq = h.mul(&q);
    let mut m = m2.duplicate();
    proof {
        assert(m2.val() + hq.val() < pow2(1024) + pow2(2048));
        lemma_pow2_strictly_increases(1024, 2048);
        lemma_pow2_adds(2048, 1);
        lemma_pow2_strictly_increases(2049, 4224);
        assert(pow2(2048) + pow2(2048) == 2 * pow2(2048));
        assert(2 * pow2(2048) == pow2(2049)) by (nonlinear_arith)
            requires pow2(2049) == pow2(2048) * 2;
        lemma_small_mod((m2.val() + hq.val()) as nat, cap());
    }
    m.add_assign(&hq);
    m.to_bytes_be(KEY_BYTES)
}

/// Full CRT decryption: recombine, then OAEP-decode; nothing at all
/// comes out when any structural check fails.
pub fn crt_decrypt(
    p_bytes: &[u8], q_bytes: &[u8], dp_bytes: &[u8], dq_bytes: &[u8],
    qinv_bytes: &[u8], c_bytes: &[u8],
) -> (r: Option<Vec<u8>>)
    requires
        p_bytes@.len() == 128,
        q_bytes@.len() == 128,
        dp_bytes@.len() == 128,
        dq_bytes@.len() == 128,
        qinv_bytes@.len() == 128,
        c_bytes@.len() == 256,
        be_bytes_val(p_bytes@) % 2 == 1,
        be_bytes_val(q_bytes@) % 2 == 1,
    ensures
        ({
            let emv = garner_spec(
                be_bytes_val(p_bytes@), be_bytes_val(q_bytes@),
                be_bytes_val(dp_bytes@), be_bytes_val(dq_bytes@),
                be_bytes_val(qinv_bytes@), be_bytes_val(c_bytes@)) % pow2(2048);
            forall|em: Seq<u8>| em.len() == 256 && be_bytes_val(em) == emv
                ==> #[trigger] oaep_decode_spec(em) == (match r {
                    Option::Some(v) => Some(v@),
                    Option::None => None::<Seq<u8>>,
                })
        }),
{
    let em = crt_decrypt_raw(p_bytes, q_bytes, dp_bytes, dq_bytes, qinv_bytes, c_bytes);
    let r = oaep_decode(em.as_slice());
    proof {
        let ghost emv = be_bytes_val(em@);
        assert forall|emx: Seq<u8>| emx.len() == 256 && be_bytes_val(emx) == emv
            implies #[trigger] oaep_decode_spec(emx) == oaep_decode_spec(em@) by {
            lemma_be_bytes_val_injective(emx, em@);
        }
    }
    r
}

/// Split an encryption request: 16 reserved bytes, the 256-byte modulus,
/// the 256-byte public exponent, 256 skipped bytes, a one-byte message
/// length, then the message. `None` when the input is too short.
pub fn parse_encrypt_input(input: &[u8]) -> (r: Option<(Vec<u8>, Vec<u8>, Vec<u8>)>)
    ensures
        ({
            let ok = input@.len() >= 785 && input@.len() >= 785 + input@[784];
            match r {
                Option::Some(t) => ok
                    && t.0@ == input@.subrange(16, 272)
                    && t.1@ == input@.subrange(272, 528)
                    && t.2@ == input@.subrange(785, 785 + input@[784]),
                Option::None => !ok,
            }
        }),
{
    if input.len() < 785 {
        return None;
    }
    let m_len = input[784] as usize;
    if input.len() < 785 + m_len {
        return None;
    }
    let n = sub_slice(input, 16, 272);
    let e = sub_slice(input, 272, 528);
    let msg = sub_slice(input, 785, 785 + m_len);
    Some((n, e, msg))
}

/// Split a decryption request: the two 128-byte primes, 512 skipped
/// bytes, the three 128-byte CRT exponent fields, then the 256-byte
/// ciphertext. `None` when the input is too short.
pub fn parse_decrypt_input(input: &[u8])
    -> (r: Option<(Vec<u8>, Vec<u8>, Vec<u8>, Vec<u8>, Vec<u8>, Vec<u8>)>)
    ensures
        ({
            match r {
                Option::Some(t) => input@.len() >= 1408
                    && t.0@ == input@.subrange(0, 128)
                    && t.1@ == input@.subrange(128, 256)
                    && t.2@ == input@.subrange(768, 896)
                    && t.3@ == input@.subrange(896, 1024)
                    && t.4@ == input@.subrange(1024, 1152)
                    && t.5@ == input@.subrange(1152, 1408),
                Option::None => input@.len() < 1408,
            }
        }),
{
    if input.len() < 1408 {
        return None;
    }
    let p = sub_slice(input, 0, 128);
    let q = sub_slice(input, 128, 256);
    let dp = sub_slice(input, 768, 896);
    let dq = sub_slice(input, 896, 1024);
    let qinv = sub_slice(input, 1024, 1152);
    let c = sub_slice(input, 1152, 1408);
    Some((p, q, dp, dq, qinv, c))
}

/// A copy of `src[from..to]`.
#[verifier::loop_isolation(false)]
fn sub_slice(src: &[u8], from: usize, to: usize) -> (r: Vec<u8>)
    requires
        from <= to <= src@.len(),
    ensures
        r@ == src@.subrange(from as int, to as int),
{
    let mut r: Vec<u8> = Vec::new();
    let mut i = from;
    while i < to
        invariant
            from <= i <= to,
            r@ == src@.subrange(from as int, i as int),
        decreases to - i,
    {
        let b = src[i];
        r.push(b);
        proof {
            assert(src@.subrange(from as int, i as int).push(b)
                =~= src@.subrange(from as int, i + 1));
        }
        i = i + 1;
    }
    r
}

} // verus!
