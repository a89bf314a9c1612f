//! Montgomery modular exponentiation.
//!
//! A per-modulus context is rebuilt on every call: the word inverse
//! `n' = -N^(-1) mod 2^64` comes from five Newton–Raphson doublings, the
//! Montgomery constant `R mod N` from one generic reduction, and the
//! square-and-multiply loop works entirely on Montgomery-domain residues.

use vstd::prelude::*;
use vstd::arithmetic::power2::*;
use vstd::arithmetic::power::*;
use vstd::arithmetic::mul::*;
use vstd::arithmetic::div_mod::*;
use crate::bigint::{BigUint, LIMBS, cap, bit_of, lemma_val_low_limb, lemma_u64_below_pow2_64};

verus! {

/// `a * b` truncated to 64 bits.
fn wrap_mul(a: u64, b: u64) -> (r: u64)
    ensures
        r == ((a as nat) * (b as nat)) % pow2(64),
{
    proof {
        lemma2_to64();
        assert((a as nat) * (b as nat) <= 0xffffffffffffffff * 0xffffffffffffffff)
            by (nonlinear_arith)
            requires (a as nat) <= 0xffffffffffffffff, (b as nat) <= 0xffffffffffffffff;
    }
    let p: u128 = (a as u128) * (b as u128);
    (p % 0x10000000000000000u128) as u64
}

/// `2 - y` truncated to 64 bits.
fn wrap_two_minus(y: u64) -> (r: u64)
    ensures
        r == (pow2(64) as int + 2 - y) % (pow2(64) as int),
{
    proof {
        lemma2_to64();
    }
    let t: u128 = 0x10000000000000002u128 - (y as u128);
    (t % 0x10000000000000000u128) as u64
}

/// `-x` truncated to 64 bits.
fn wrap_neg(x: u64) -> (r: u64)
    ensures
        r == (pow2(64) as int - x) % (pow2(64) as int),
{
    proof {
        lemma2_to64();
    }
    let t: u128 = 0x10000000000000000u128 - (x as u128);
    (t % 0x10000000000000000u128) as u64
}

/// A residue of 1 modulo a power of two survives weakening to a smaller
/// power of two.
proof fn lemma_one_mod_pow2_weaken(a: nat, k: nat, j: nat)
    requires
        1 <= j <= k,
        a % pow2(k) == 1,
    ensures
        a % pow2(j) == 1,
{
    lemma_pow2_pos(j);
    lemma_pow2_pos(k);
    lemma_pow2_adds(j, (k - j) as nat);
    lemma_mod_mod(a as int, pow2(j) as int, pow2((k - j) as nat) as int);
    assert(pow2(j) * pow2((k - j) as nat) == pow2(k));
    assert((a % pow2(k)) % pow2(j) == a % pow2(j));
    lemma_pow2_strictly_increases(0, j);
    lemma2_to64();
    lemma_small_mod(1, pow2(j));
}

/// One Newton–Raphson doubling: from an inverse of `n0` modulo `2^k` the
/// update `x * (2 - n0 x)` is an inverse modulo `2^(2k)`.
#[verifier::rlimit(50)]
proof fn lemma_newton_step(n0: nat, x: nat, k: nat)
    requires
        1 <= k,
        2 * k <= 64,
        (n0 * x) % pow2(k) == 1,
    ensures
        ({
            let y: int = ((n0 * x) % pow2(64)) as int;
            let t: int = (pow2(64) as int + 2 - y) % (pow2(64) as int);
            let x2: int = ((x as int) * t) % (pow2(64) as int);
            (n0 as int * x2) % (pow2(2 * k) as int) == 1
        }),
{
    let p64: int = pow2(64) as int;
    let pk: int = pow2(k) as int;
    let p2k: int = pow2(2 * k) as int;
    lemma_pow2_pos(64);
    lemma_pow2_pos(k);
    lemma_pow2_pos(2 * k);
    lemma_pow2_adds(k, k);
    assert(p2k == pk * pk);
    lemma_pow2_adds(2 * k, (64 - 2 * k) as nat);
    let s: int = pow2((64 - 2 * k) as nat) as int;
    assert(p64 == p2k * s);

    let z: int = (n0 * x) as int;
    let y: int = ((n0 * x) % pow2(64)) as int;
    let t: int = (pow2(64) as int + 2 - y) % (pow2(64) as int);
    let x2: int = ((x as int) * t) % (pow2(64) as int);

    // t == (2 - z) mod 2^64
    lemma_fundamental_div_mod(z, p64);
    lemma_mod_add_multiples_vanish(2 - y, p64);
    assert((p64 + (2 - y)) % p64 == (2 - y) % p64);
    lemma_sub_mod_noop_right(2, z, p64);
    assert((2 - z % p64) % p64 == (2 - z) % p64);
    assert(t == (2 - z) % p64);

    // n0 * x2 == n0 * x * t modulo 2^(2k)
    let xt: int = (x as int) * t;
    lemma_fundamental_div_mod(xt, p64);
    assert(x2 == xt - p64 * (xt / p64));
    let n0i: int = n0 as int;
    assert(n0i * x2 == p2k * (-(n0i * (xt / p64) * s)) + n0i * xt) by (nonlinear_arith)
        requires x2 == xt - p64 * (xt / p64), p64 == p2k * s;
    lemma_mod_multiples_vanish(-(n0i * (xt / p64) * s), n0i * xt, p2k);
    assert((n0i * x2) % p2k == (n0i * xt) % p2k);

    // n0 * x * t == z * (2 - z) modulo 2^(2k)
    lemma_fundamental_div_mod(2 - z, p64);
    let q: int = (2 - z) / p64;
    assert(t == (2 - z) - p64 * q);
    assert(n0i * xt == p2k * (-(z * q * s)) + z * (2 - z)) by (nonlinear_arith)
        requires t == (2 - z) - p64 * q, p64 == p2k * s, z == n0i * (x as int), xt == (x as int) * t;
    lemma_mod_multiples_vanish(-(z * q * s), z * (2 - z), p2k);
    assert((n0i * xt) % p2k == (z * (2 - z)) % p2k);

    // z * (2 - z) == 1 - (z - 1)^2, and z - 1 is a multiple of 2^k
    lemma_fundamental_div_mod(z, pk);
    assert(z % pk == 1);
    let m: int = z / pk;
    assert(z == pk * m + 1);
    assert(z * (2 - z) == p2k * (-(m * m)) + 1) by (nonlinear_arith)
        requires z == pk * m + 1, p2k == pk * pk;
    lemma_mod_multiples_vanish(-(m * m), 1, p2k);
    assert((z * (2 - z)) % p2k == 1int % p2k);
    lemma_pow2_strictly_increases(0, 2 * k);
    lemma2_to64();
    lemma_small_mod(1, pow2(2 * k));
}

/// An odd word is its own inverse modulo 8.
proof fn lemma_odd_self_inverse_mod8(n0: nat)
    requires
        n0 % 2 == 1,
    ensures
        (n0 * n0) % pow2(3) == 1,
{
    lemma2_to64();
    let a: int = (n0 as int) / 2;
    lemma_fundamental_div_mod(n0 as int, 2);
    assert(n0 == 2 * a + 1);
    let b: int = a / 2;
    lemma_fundamental_div_mod(a, 2);
    // n0^2 = 4 a (a + 1) + 1, and a (a + 1) is even either way
    if a % 2 == 0 {
        assert((n0 as int) * (n0 as int) == 8 * (b * (a + 1)) + 1) by (nonlinear_arith)
            requires n0 == 2 * a + 1, a == 2 * b;
        lemma_mod_multiples_vanish(b * (a + 1), 1, 8);
        assert(((n0 as int) * (n0 as int)) % 8 == 1int % 8);
    } else {
        assert(a == 2 * b + 1);
        assert((n0 as int) * (n0 as int) == 8 * (a * (b + 1)) + 1) by (nonlinear_arith)
            requires n0 == 2 * a + 1, a == 2 * b + 1;
        lemma_mod_multiples_vanish(a * (b + 1), 1, 8);
        assert(((n0 as int) * (n0 as int)) % 8 == 1int % 8);
    }
    lemma_small_mod(1, 8);
    assert(pow2(3) == 8);
}

/// An odd modulus that divides a doubled number divides the number itself.
proof fn lemma_odd_halves(n: int, w: int)
    requires
        n > 0,
        n % 2 == 1,
        (2 * w) % n == 0,
    ensures
        w % n == 0,
{
    lemma_fundamental_div_mod(2 * w, n);
    let q: int = (2 * w) / n;
    assert(2 * w == n * q);
    if q % 2 == 1 {
        lemma_fundamental_div_mod(q, 2);
        lemma_fundamental_div_mod(n, 2);
        // an odd times an odd is odd, but n q == 2 w is even
        assert(n * q == 2 * (2 * (n / 2) * (q / 2) + n / 2 + q / 2) + 1) by (nonlinear_arith)
            requires n == 2 * (n / 2) + 1, q == 2 * (q / 2) + 1;
        lemma_fundamental_div_mod_converse_mod(
            n * q, 2, 2 * (n / 2) * (q / 2) + n / 2 + q / 2, 1);
        lemma_mod_multiples_basic(w, 2);
        assert((2 * w) % 2 == 0) by {
            assert(2 * w == w * 2) by (nonlinear_arith);
        }
        assert(false);
    } else {
        lemma_fundamental_div_mod(q, 2);
        assert(q == 2 * (q / 2));
        assert(2 * w == 2 * ((q / 2) * n)) by (nonlinear_arith)
            requires 2 * w == n * q, q == 2 * (q / 2);
        assert(w == (q / 2) * n);
        lemma_mod_multiples_basic(q / 2, n);
    }
}

/// A power of two can be cancelled on both sides of a congruence with an
/// odd modulus.
proof fn lemma_pow2_mod_cancel(n: int, u: int, v: int, j: nat)
    requires
        n > 0,
        n % 2 == 1,
        (u * pow2(j)) % n == (v * pow2(j)) % n,
    ensures
        u % n == v % n,
    decreases j,
{
    if j == 0 {
        lemma2_to64();
        lemma_mul_basics(u);
        lemma_mul_basics(v);
        assert(u * pow2(0) == u * 1);
        assert(v * pow2(0) == v * 1);
    } else {
        lemma_pow2_adds((j - 1) as nat, 1);
        lemma2_to64();
        let uu: int = u * pow2((j - 1) as nat);
        let vv: int = v * pow2((j - 1) as nat);
        assert(u * pow2(j) == 2 * uu) by (nonlinear_arith)
            requires pow2(j) == pow2((j - 1) as nat) * 2, uu == u * pow2((j - 1) as nat);
        assert(v * pow2(j) == 2 * vv) by (nonlinear_arith)
            requires pow2(j) == pow2((j - 1) as nat) * 2, vv == v * pow2((j - 1) as nat);
        lemma_mod_equivalence(2 * uu, 2 * vv, n);
        assert((2 * uu - 2 * vv) % n == 0);
        assert(2 * uu - 2 * vv == 2 * (uu - vv));
        lemma_odd_halves(n, uu - vv);
        lemma_mod_equivalence(uu, vv, n);
        lemma_pow2_mod_cancel(n, u, v, (j - 1) as nat);
    }
}

/// Adding `m * N` at limb position `i` clears limb `i`: the low `64 (i+1)`
/// bits of the sum vanish, because `m` was chosen as `t_i * n'` and
/// `N n' == -1 mod 2^64`.
proof fn lemma_mont_step_zeroes(tv: nat, m: u64, nv: nat, np: u64, i: nat, d: u64)
    requires
        tv % pow2(64 * i) == 0,
        d == (tv / pow2(64 * i)) % pow2(64),
        m == ((d as nat) * (np as nat)) % pow2(64),
        ((nv % pow2(64)) * (np as nat)) % pow2(64) == pow2(64) - 1,
    ensures
        (tv + ((m as nat) * nv) * pow2(64 * i)) % pow2(64 * (i + 1)) == 0,
{
    let p64: int = pow2(64) as int;
    let pi: int = pow2(64 * i) as int;
    let pi1: int = pow2(64 * (i + 1)) as int;
    lemma_pow2_pos(64);
    lemma_pow2_pos(64 * i);
    lemma_pow2_pos(64 * (i + 1));
    lemma_pow2_adds(64 * i, 64);
    assert(pi1 == pi * p64);
    let u: int = (tv / pow2(64 * i)) as int;
    lemma_fundamental_div_mod(tv as int, pi);
    assert(tv == pi * u);
    let mi: int = m as int;
    let di: int = d as int;
    let npi: int = np as int;
    let nvi: int = nv as int;
    let nl: int = (nv % pow2(64)) as int;

    // (m * nv) % 2^64 == (2^64 - d) % 2^64
    lemma_mul_mod_noop_right(mi, nvi, p64);
    lemma_fundamental_div_mod(nvi, p64);
    assert((mi * nl) % p64 == (mi * nvi) % p64) by {
        lemma_mul_mod_noop_right(mi, nvi, p64);
        assert((mi * (nvi % p64)) % p64 == (mi * nvi) % p64);
    }
    lemma_mul_mod_noop_left(di * npi, nl, p64);
    assert((mi * nl) % p64 == ((di * npi) * nl) % p64) by {
        assert(mi == (di * npi) % p64);
        lemma_mul_mod_noop_left(di * npi, nl, p64);
    }
    assert((di * npi) * nl == di * (nl * npi)) by (nonlinear_arith);
    lemma_mul_mod_noop_right(di, nl * npi, p64);
    assert((di * (nl * npi)) % p64 == (di * ((nl * npi) % p64)) % p64);
    assert((di * ((nl * npi) % p64)) % p64 == (di * (p64 - 1)) % p64);
    assert(di * (p64 - 1) == p64 * di + (-di)) by (nonlinear_arith);
    lemma_mod_multiples_vanish(di, -di, p64);
    assert((di * (p64 - 1)) % p64 == (-di) % p64);
    assert((mi * nvi) % p64 == (-di) % p64);

    // so limb i of the sum is (d - d) mod 2^64 == 0
    lemma_add_mod_noop(u, mi * nvi, p64);
    assert(u % p64 == di);
    assert((u + mi * nvi) % p64 == (di % p64 + (-di) % p64) % p64) by {
        assert((u % p64 + (mi * nvi) % p64) % p64 == (u + mi * nvi) % p64);
        lemma_small_mod(d as nat, pow2(64));
    }
    lemma_add_mod_noop(di, -di, p64);
    assert((di % p64 + (-di) % p64) % p64 == (di + (-di)) % p64);
    assert((di + (-di)) % p64 == 0) by {
        lemma_small_mod(0, pow2(64));
    }
    assert((u + mi * nvi) % p64 == 0);

    // the sum is pi * (u + m nv), and 2^64 divides the second factor
    let w: int = (u + mi * nvi) / p64;
    lemma_fundamental_div_mod(u + mi * nvi, p64);
    assert(u + mi * nvi == p64 * w);
    assert(tv + (mi * nvi) * pi == pi1 * w) by (nonlinear_arith)
        requires tv == pi * u, u + mi * nvi == p64 * w, pi1 == pi * p64;
    lemma_mod_multiples_basic(w, pi1);
    assert((pi1 * w) % pi1 == (w * pi1) % pi1) by (nonlinear_arith);
}

impl BigUint {
    /// The word inverse used by Montgomery reduction:
    /// `n0 * r == -1 mod 2^64`, computed by Newton–Raphson doubling.
    ///
    /// Any odd word is its own inverse modulo 8, and each of the five rounds
    /// doubles the number of correct low bits, reaching all 64.
    pub fn compute_n_prime(n0: u64) -> (r: u64)
        requires
            n0 % 2 == 1,
        ensures
            ((n0 as nat) * (r as nat)) % pow2(64) == pow2(64) - 1,
    {
        let mut x = n0;
        proof {
            lemma_odd_self_inverse_mod8(n0 as nat);
        }
        let y0 = wrap_mul(n0, x);
        let t0 = wrap_two_minus(y0);
        proof {
            lemma_newton_step(n0 as nat, x as nat, 3);
        }
        x = wrap_mul(x, t0);

        let y1 = wrap_mul(n0, x);
        let t1 = wrap_two_minus(y1);
        proof {
            lemma_newton_step(n0 as nat, x as nat, 6);
        }
        x = wrap_mul(x, t1);

        let y2 = wrap_mul(n0, x);
        let t2 = wrap_two_minus(y2);
        proof {
            lemma_newton_step(n0 as nat, x as nat, 12);
        }
        x = wrap_mul(x, t2);

        let y3 = wrap_mul(n0, x);
        let t3 = wrap_two_minus(y3);
        proof {
            lemma_newton_step(n0 as nat, x as nat, 24);
        }
        x = wrap_mul(x, t3);
        proof {
            lemma_one_mod_pow2_weaken((n0 as nat) * (x as nat), 48, 32);
        }

        let y4 = wrap_mul(n0, x);
        let t4 = wrap_two_minus(y4);
        proof {
            lemma_newton_step(n0 as nat, x as nat, 32);
        }
        x = wrap_mul(x, t4);

        // negate the inverse: n0 * (2^64 - x) == -(n0 x) == -1 mod 2^64
        let r = wrap_neg(x);
        proof {
            lemma2_to64();
            let p64: int = pow2(64) as int;
            let xi: int = x as int;
            let ni: int = n0 as int;
            if x == 0 {
                assert((ni * 0) % p64 == 0) by (nonlinear_arith)
                    requires p64 > 0;
                assert(false);
            }
            assert(r == p64 - xi) by {
                lemma_small_mod((pow2(64) - x) as nat, pow2(64));
            }
            lemma_fundamental_div_mod(ni * xi, p64);
            let q: int = (ni * xi) / p64;
            assert(ni * xi == p64 * q + 1);
            assert(ni * (p64 - xi) == p64 * (ni - q - 1) + (p64 - 1)) by (nonlinear_arith)
                requires ni * xi == p64 * q + 1;
            assert((ni - q - 1) * p64 == p64 * (ni - q - 1)) by (nonlinear_arith);
            lemma_fundamental_div_mod_converse_mod(ni * (p64 - xi), p64, ni - q - 1, p64 - 1);
        }
        r
    }

    /// One Montgomery multiplication: the result `r` satisfies
    /// `r * 2^(64 k) == self * other (mod N)` and is fully reduced.
    ///
    /// The caller supplies the word inverse `n_prime` and the modulus
    /// width `k` in limbs; the modulus must be odd and both inputs
    /// already reduced.
    #[verifier::loop_isolation(false)]
    pub fn mont_mul(&self, other: &BigUint, n: &BigUint, n_prime: u64, k: usize) -> (r: BigUint)
        requires
            self.wf(),
            other.wf(),
            n.wf(),
            n.val() % 2 == 1,
            1 <= k <= 32,
            n.val() < pow2(64 * k as nat),
            ((n.val() % pow2(64)) * (n_prime as nat)) % pow2(64) == pow2(64) - 1,
            self.val() <= n.val(),
            other.val() <= n.val(),
        ensures
            r.wf(),
            r.val() < n.val(),
            (r.val() * pow2(64 * k as nat)) % n.val()
                == (self.val() * other.val()) % n.val(),
    {
        let ghost av = self.val();
        let ghost bv = other.val();
        let ghost nv = n.val();
        let ghost rr = pow2(64 * k as nat);
        proof {
            lemma_pow2_pos(64 * k as nat);
            lemma_pow2_adds(64 * k as nat, 64 * k as nat);
            if 64 * k < 2048 {
                lemma_pow2_strictly_increases(64 * k as nat, 2048);
            }
            assert(nv < pow2(2048));
            if 128 * k < 4224 {
                lemma_pow2_strictly_increases(128 * k as nat, 4224);
            }
            assert(av * bv <= nv * nv) by (nonlinear_arith)
                requires av <= nv, bv <= nv;
            assert(nv * nv < rr * rr) by (nonlinear_arith)
                requires nv < rr;
            assert(rr * rr == pow2(128 * k as nat));
            assert(av * bv < cap());
            lemma_small_mod(av * bv, cap());
        }
        let mut t = self.mul(other);
        let mut i: usize = 0;
        proof {
            lemma2_to64();
            assert(t.val() % pow2(0) == 0) by {
                assert(t.val() % 1 == 0) by (nonlinear_arith);
            }
            assert((pow2(0) - 1) * nv == 0) by (nonlinear_arith)
                requires pow2(0) == 1;
        }
        while i < k
            invariant
                t.wf(),
                i <= k,
                t.val() % pow2(64 * i as nat) == 0,
                t.val() % nv == (av * bv) % nv,
                t.val() <= av * bv + (pow2(64 * i as nat) - 1) * nv,
            decreases k - i,
        {
            let d = t.limb(i);
            let m = wrap_mul(d, n_prime);
            let ghost pre = t.val();
            proof {
                crate::bigint::lemma_limb_extract(t.limbs(), i as int);
                lemma_mont_step_zeroes(pre, m, nv, n_prime, i as nat, d);
                // the addition stays inside the capacity
                lemma_u64_below_pow2_64(m);
                lemma_pow2_adds(64 * i as nat, 64);
                assert(((m as nat) * nv) * pow2(64 * i as nat)
                    <= ((pow2(64) - 1) * nv) * pow2(64 * i as nat)) by (nonlinear_arith)
                    requires (m as nat) <= pow2(64) - 1, nv >= 0, pow2(64 * i as nat) >= 0;
                assert(((pow2(64) - 1) * nv) * pow2(64 * i as nat)
                    == (pow2(64 * (i + 1) as nat) - pow2(64 * i as nat)) * nv) by (nonlinear_arith)
                    requires pow2(64 * (i + 1) as nat) == pow2(64 * i as nat) * pow2(64);
                assert((pow2(64 * i as nat) - 1) * nv
                    + (pow2(64 * (i + 1) as nat) - pow2(64 * i as nat)) * nv
                    == (pow2(64 * (i + 1) as nat) - 1) * nv) by (nonlinear_arith);
                // bound everything by cap()
                lemma_pow2_pos(64 * (i + 1) as nat);
                lemma_pow2_strictly_increases(64 * (i + 1) as nat, 2112);
                if 64 * k < 2048 {
                    lemma_pow2_strictly_increases(64 * k as nat, 2048);
                }
                assert(nv < pow2(2048));
                lemma_pow2_adds(2112, 2048);
                lemma_pow2_strictly_increases(4160, 4223);
                lemma_pow2_adds(4223, 1);
                lemma2_to64();
                assert((pow2(64 * (i + 1) as nat) - 1) * nv < pow2(2112) * pow2(2048))
                    by (nonlinear_arith)
                    requires
                        pow2(64 * (i + 1) as nat) < pow2(2112),
                        nv < pow2(2048),
                        nv >= 0,
                        pow2(64 * (i + 1) as nat) >= 1;
                assert(av * bv < pow2(4160)) by {
                    assert(rr * rr <= pow2(4160)) by {
                        lemma_pow2_adds(64 * k as nat, 64 * k as nat);
                        if 128 * k < 4160 {
                            lemma_pow2_strictly_increases(128 * k as nat, 4160);
                        }
                    }
                }
                assert(pow2(4160) + pow2(2112) * pow2(2048) <= pow2(4224)) by {
                    assert(pow2(2112) * pow2(2048) == pow2(4160));
                    assert(pow2(4160) + pow2(4160) == 2 * pow2(4160));
                    assert(2 * pow2(4160) <= pow2(4224)) by {
                        lemma_pow2_adds(4160, 1);
                        assert(2 * pow2(4160) == pow2(4161)) by (nonlinear_arith)
                            requires pow2(4161) == pow2(4160) * 2;
                        if 4161 < 4224 {
                            lemma_pow2_strictly_increases(4161, 4224);
                        }
                    }
                }
                assert(pre + ((m as nat) * nv) * pow2(64 * i as nat) < cap());
                lemma_small_mod(
                    (pre + ((m as nat) * nv) * pow2(64 * i as nat)) as nat, cap());
            }
            t.add_mul_shifted(m, n, i);
            proof {
                assert(t.val() == pre + ((m as nat) * nv) * pow2(64 * i as nat));
                // congruence modulo N is kept: the addition is a multiple of N
                assert(t.val() == nv * ((m as nat) * pow2(64 * i as nat)) + pre)
                    by (nonlinear_arith)
                    requires t.val() == pre + ((m as nat) * nv) * pow2(64 * i as nat);
                lemma_mod_multiples_vanish(
                    ((m as nat) * pow2(64 * i as nat)) as int, pre as int, nv as int);
            }
            i = i + 1;
        }
        let c = t.shr_limbs(k);
        proof {
            // t == c * R exactly, c < 2 N, and c R == a b  (mod N)
            lemma_pow2_pos(64 * k as nat);
            lemma_fundamental_div_mod(t.val() as int, rr as int);
            assert(t.val() == rr * c.val());
            assert(t.val() <= av * bv + (rr - 1) * nv);
            assert(av * bv + (rr - 1) * nv < rr * (2 * nv)) by (nonlinear_arith)
                requires av * bv <= nv * nv, nv < rr, nv >= 1, rr >= 1;
            lemma_multiply_divide_lt(t.val() as int, rr as int, 2 * (nv as int));
            assert(c.val() < 2 * nv);
            assert(c.val() * rr == t.val()) by (nonlinear_arith)
                requires t.val() == rr * c.val();
        }
        let mut r = c;
        if r.ge(n) {
            proof {
                assert((r.val() - nv) * rr == nv * (-(rr as int)) + r.val() * rr)
                    by (nonlinear_arith);
                lemma_mod_multiples_vanish(-(rr as int), (r.val() * rr) as int, nv as int);
            }
            r.sub_assign(n);
        }
        proof {
            assert(nv >= 1);
        }
        r
    }

    /// Montgomery modular exponentiation: `self ^ exponent mod modulus`
    /// for an odd modulus of at most 2048 bits and a reduced base.
    #[verifier::loop_isolation(false)]
    pub fn modpow(&self, exponent: &BigUint, modulus: &BigUint) -> (r: BigUint)
        requires
            self.wf(),
            exponent.wf(),
            modulus.wf(),
            modulus.val() % 2 == 1,
            modulus.val() < pow2(2048),
            self.val() < modulus.val(),
        ensures
            r.wf(),
            r.val() < modulus.val(),
            r.val() == pow(self.val() as int, exponent.val()) % (modulus.val() as int),
    {
        let ghost av = self.val();
        let ghost ev = exponent.val();
        let ghost nv = modulus.val();
        let ghost avi = av as int;
        let ghost nvi = nv as int;

        let k = modulus.limbs_used();
        proof {
            if k > 32 {
                if 2048 < 64 * (k - 1) {
                    lemma_pow2_strictly_increases(2048, (64 * (k - 1)) as nat);
                }
                assert(pow2(2048) <= pow2((64 * (k - 1)) as nat));
                assert(false);
            }
        }
        let ghost rri = pow2(64 * k as nat) as int;
        let n0 = modulus.limb(0);
        proof {
            lemma_val_low_limb(modulus.limbs());
            crate::bigint::lemma_val_mod_low(modulus.limbs(), 1);
            lemma2_to64();
            assert(n0 % 2 == 1);
        }
        let np = BigUint::compute_n_prime(n0);

        // R mod N, obtained by one generic reduction of 2^(64 k)
        let mut r_big = BigUint::new();
        proof {
            lemma_pow2_pos(64 * k as nat);
            lemma_div_of0(pow2(64 * k as nat) as int);
            assert(!bit_of(0, (64 * k) as nat)) by {
                assert((0nat / pow2((64 * k) as nat)) == 0) by (nonlinear_arith)
                    requires pow2((64 * k) as nat) > 0;
            }
            lemma_pow2_strictly_increases(2048, 4224);
            lemma_pow2_adds(2048, 1);
            lemma_pow2_strictly_increases(2049, 4224);
            assert(2 * nv < pow2(2049)) by (nonlinear_arith)
                requires nv < pow2(2048), pow2(2049) == pow2(2048) * pow2(1), pow2(1) == 2;
            assert(2 * nv <= cap());
        }
        r_big.set_bit(64 * k);
        let r_mod = r_big.rem(modulus);
        proof {
            assert(r_mod.val() == pow2(64 * k as nat) % nv);
        }

        // R^2 mod N, then the base in Montgomery form
        proof {
            lemma_mod_bound(rri, nvi);
            lemma_pow2_strictly_increases(2048, 2112);
            lemma_pow2_adds(2112, 2112);
            lemma_pow2_strictly_increases(4224, 4225);
            assert(r_mod.val() * r_mod.val() < pow2(2112) * pow2(2112)) by (nonlinear_arith)
                requires r_mod.val() < pow2(2112), r_mod.val() >= 0, pow2(2112) > 0;
            assert(r_mod.val() * r_mod.val() < cap());
        }
        let r_sq = r_mod.mul_mod(&r_mod, modulus);
        proof {
            lemma_mul_mod_noop(rri, rri, nvi);
            assert(r_sq.val() == (rri * rri) % nvi);
            lemma_mod_bound(rri * rri, nvi);
        }
        let x = self.mont_mul(&r_sq, modulus, np, k);
        proof {
            // x == a R mod N: x R == a (R^2 mod N) == (a R) R  (mod N)
            lemma_mul_mod_noop_right(avi, rri * rri, nvi);
            assert((av * r_sq.val()) % nv == (avi * (rri * rri)) % nvi);
            assert(avi * (rri * rri) == (avi * rri) * rri) by (nonlinear_arith);
            lemma_pow2_mod_cancel(nvi, x.val() as int, avi * rri, 64 * k as nat);
            lemma_small_mod(x.val(), nv);
            assert(x.val() == (avi * rri) % nvi);
        }

        // square and multiply over the exponent's bits, in Montgomery form
        let mut res = r_mod.duplicate();
        let bl = exponent.bit_len();
        let mut i = bl;
        proof {
            lemma_pow2_pos(bl as nat);
            lemma_basic_div(ev as int, pow2(bl as nat) as int);
            lemma_pow0(avi);
            lemma_mul_basics(rri);
            assert(res.val() == (pow(avi, ev / pow2(bl as nat)) * rri) % nvi);
            lemma_mod_bound(rri, nvi);
        }
        while i > 0
            invariant
                res.wf(),
                i <= bl,
                res.val() < nv,
                res.val() == (pow(avi, ev / pow2(i as nat)) * rri) % nvi,
            decreases i,
        {
            i = i - 1;
            let ghost ehi = ev / pow2((i + 1) as nat);
            let ghost p_old = pow(avi, ehi);
            proof {
                lemma_pow2_adds(i as nat, 1);
                lemma2_to64();
                lemma_pow2_pos(i as nat);
                lemma_div_denominator(ev as int, pow2(i as nat) as int, 2);
                assert((ev / pow2(i as nat)) / 2 == ehi);
                lemma_fundamental_div_mod((ev / pow2(i as nat)) as int, 2);
            }
            let tmp = res.mont_mul(&res, modulus, np, k);
            proof {
                lemma_mont_domain_mul(
                    tmp.val(), res.val(), res.val(), p_old, p_old, nvi, 64 * k as nat);
                lemma_pow_adds(avi, ehi, ehi);
            }
            res = tmp;
            let bit = self_bit(exponent, i);
            if bit {
                let tmp2 = res.mont_mul(&x, modulus, np, k);
                proof {
                    lemma_mont_domain_mul(
                        tmp2.val(), res.val(), x.val(), p_old * p_old, avi, nvi, 64 * k as nat);
                    lemma_pow_adds(avi, 2 * ehi, 1);
                    lemma_pow1(avi);
                    assert(pow(avi, 2 * ehi + 1) == (p_old * p_old) * avi) by {
                        assert(pow(avi, 2 * ehi) == p_old * p_old) by {
                            lemma_pow_adds(avi, ehi, ehi);
                        }
                    }
                    assert(ev / pow2(i as nat) == 2 * ehi + 1);
                }
                res = tmp2;
            } else {
                proof {
                    assert(ev / pow2(i as nat) == 2 * ehi);
                    assert(pow(avi, 2 * ehi) == p_old * p_old) by {
                        lemma_pow_adds(avi, ehi, ehi);
                    }
                }
            }
        }

        // leave the Montgomery domain: multiply by one
        let one = BigUint::one();
        let out = res.mont_mul(&one, modulus, np, k);
        proof {
            lemma2_to64();
            assert(ev / pow2(0) == ev) by (nonlinear_arith)
                requires pow2(0) == 1;
            lemma_mul_basics(res.val() as int);
            assert(((res.val() as int) * 1) % nvi == (res.val() as int) % nvi);
            lemma_small_mod(res.val(), nv);
            // out R == res == pow(a, e) R  (mod N), so out == pow(a, e)  (mod N)
            lemma_mod_mod(pow(avi, ev) * rri, nvi, 1);
            assert(((pow(avi, ev) * rri) % nvi) % nvi == (pow(avi, ev) * rri) % nvi) by {
                lemma_mod_twice(pow(avi, ev) * rri, nvi);
            }
            lemma_pow2_mod_cancel(nvi, out.val() as int, pow(avi, ev), 64 * k as nat);
            lemma_small_mod(out.val(), nv);
        }
        out
    }

    /// Reference exponentiation: plain square-and-multiply with a full
    /// reduction after every product.
    #[verifier::loop_isolation(false)]
    pub fn naive_modpow(&self, exponent: &BigUint, modulus: &BigUint) -> (r: BigUint)
        requires
            self.wf(),
            exponent.wf(),
            modulus.wf(),
            modulus.val() > 0,
            modulus.val() < pow2(2048),
        ensures
            r.wf(),
            r.val() < modulus.val(),
            r.val() == pow(self.val() as int, exponent.val()) % (modulus.val() as int),
    {
        let ghost av = self.val();
        let ghost ev = exponent.val();
        let ghost nv = modulus.val();
        let ghost avi = av as int;
        let ghost nvi = nv as int;
        proof {
            lemma2_to64();
            lemma_pow2_strictly_increases(2048, 4224);
            lemma_pow2_adds(2048, 1);
            lemma_pow2_strictly_increases(2049, 4224);
            assert(2 * nv < pow2(2049)) by (nonlinear_arith)
                requires nv < pow2(2048), pow2(2049) == pow2(2048) * pow2(1), pow2(1) == 2;
            assert(2 * nv <= cap());
        }
        let base = self.rem(modulus);
        let one = BigUint::one();
        let mut res = one.rem(modulus);
        let bl = exponent.bit_len();
        let mut i = bl;
        proof {
            lemma_pow2_pos(bl as nat);
            lemma_basic_div(ev as int, pow2(bl as nat) as int);
            lemma_pow0(avi);
            assert(res.val() == pow(avi, ev / pow2(bl as nat)) % nvi);
        }
        while i > 0
            invariant
                res.wf(),
                i <= bl,
                res.val() < nv,
                res.val() == pow(avi, ev / pow2(i as nat)) % nvi,
            decreases i,
        {
            i = i - 1;
            let ghost ehi = ev / pow2((i + 1) as nat);
            let ghost p_old = pow(avi, ehi);
            proof {
                lemma_pow2_adds(i as nat, 1);
                lemma2_to64();
                lemma_pow2_pos(i as nat);
                lemma_div_denominator(ev as int, pow2(i as nat) as int, 2);
                lemma_fundamental_div_mod((ev / pow2(i as nat)) as int, 2);
                // products of reduced values stay inside the capacity
                lemma_pow2_adds(2048, 2048);
                lemma_pow2_strictly_increases(4096, 4224);
                assert(res.val() * res.val() < pow2(2048) * pow2(2048)) by (nonlinear_arith)
                    requires res.val() < pow2(2048), res.val() >= 0, pow2(2048) > 0;
                lemma_mul_mod_noop(p_old, p_old, nvi);
            }
            let tmp = res.mul_mod(&res, modulus);
            proof {
                lemma_pow_adds(avi, ehi, ehi);
                assert(tmp.val() == (p_old * p_old) % nvi);
            }
            res = tmp;
            let bit = self_bit(exponent, i);
            if bit {
                proof {
                    lemma_pow2_adds(2048, 2048);
                    lemma_pow2_strictly_increases(4096, 4224);
                    assert(res.val() * base.val() < pow2(2048) * pow2(2048)) by (nonlinear_arith)
                        requires
                            res.val() < pow2(2048),
                            base.val() < pow2(2048),
                            res.val() >= 0,
                            base.val() >= 0,
                            pow2(2048) > 0;
                    lemma_mod_bound(avi, nvi);
                    lemma_mul_mod_noop(p_old * p_old, avi, nvi);
                }
                let tmp2 = res.mul_mod(&base, modulus);
                proof {
                    lemma_pow_adds(avi, 2 * ehi, 1);
                    lemma_pow1(avi);
                    assert(tmp2.val() == ((p_old * p_old) * avi) % nvi);
                    assert(ev / pow2(i as nat) == 2 * ehi + 1);
                }
                res = tmp2;
            } else {
                proof {
                    assert(ev / pow2(i as nat) == 2 * ehi);
                }
            }
        }
        proof {
            lemma2_to64();
            assert(ev / pow2(0) == ev) by (nonlinear_arith)
                requires pow2(0) == 1;
        }
        res
    }
}

/// Reading one bit of the exponent.
fn self_bit(e: &BigUint, i: usize) -> (r: bool)
    requires
        e.wf(),
        i < 64 * LIMBS,
    ensures
        r == ((e.val() / pow2(i as nat)) % 2 == 1),
{
    let b = e.get_bit(i);
    proof {
        lemma2_to64();
    }
    b
}

/// A Montgomery product of two Montgomery-domain residues represents the
/// product of what they represent.
proof fn lemma_mont_domain_mul(
    rv: nat, xv: nat, yv: nat, px: int, py: int, nvi: int, j: nat)
    requires
        nvi > 0,
        nvi % 2 == 1,
        xv == (px * (pow2(j) as int)) % nvi,
        yv == (py * (pow2(j) as int)) % nvi,
        (rv * pow2(j)) % (nvi as nat) == (xv * yv) % (nvi as nat),
        rv < nvi,
    ensures
        rv == ((px * py) * (pow2(j) as int)) % nvi,
{
    let rri = pow2(j) as int;
    lemma_mul_mod_noop(px * rri, py * rri, nvi);
    assert(((xv as int) * (yv as int)) % nvi == ((px * rri) * (py * rri)) % nvi);
    assert((px * rri) * (py * rri) == (((px * py) * rri) * rri)) by (nonlinear_arith);
    assert((rv * pow2(j)) % (nvi as nat) == ((rv as int) * rri) % nvi);
    lemma_pow2_mod_cancel(nvi, rv as int, (px * py) * rri, j);
    lemma_small_mod(rv, nvi as nat);
}

} // verus!
