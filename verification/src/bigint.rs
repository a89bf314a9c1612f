//! Fixed-capacity multi-precision unsigned integers.
//!
//! A `BigUint` is a vector of exactly [`LIMBS`] 64-bit limbs, least
//! significant first.  The capacity is sized for a 2048-bit RSA modulus
//! with room for a full double-width product, and is never resized.

use vstd::prelude::*;
use vstd::arithmetic::power2::*;
use vstd::arithmetic::mul::*;
use vstd::arithmetic::div_mod::*;

verus! {

/// Number of 64-bit limbs in every `BigUint`: room for a 2048-bit value,
/// a full double-width product, and carry headroom.
pub const LIMBS: usize = 66;

/// The value denoted by a least-significant-first limb sequence.
pub open spec fn limbs_val(s: Seq<u64>) -> nat
    decreases s.len(),
{
    if s.len() == 0 {
        0
    } else {
        s[0] as nat + pow2(64) * limbs_val(s.skip(1))
    }
}

/// Everything a `BigUint` can hold is below this bound.
pub open spec fn cap() -> nat {
    pow2(64 * LIMBS as nat)
}

/// Appending a limb adds its value at the next power-of-2^64 position.
pub proof fn lemma_val_push(s: Seq<u64>, x: u64)
    ensures
        limbs_val(s.push(x)) == limbs_val(s) + x * pow2(64 * s.len()),
    decreases s.len(),
{
    if s.len() == 0 {
        reveal_with_fuel(limbs_val, 2);
        assert(s.push(x).skip(1) =~= Seq::<u64>::empty());
        assert(s.push(x)[0] == x);
        lemma2_to64();
    } else {
        assert(s.push(x).skip(1) =~= s.skip(1).push(x));
        assert(s.push(x)[0] == s[0]);
        lemma_val_push(s.skip(1), x);
        lemma_pow2_adds(64, 64 * (s.len() - 1) as nat);
        let b = limbs_val(s.skip(1));
        let p = pow2(64 * (s.len() - 1) as nat);
        assert(limbs_val(s.push(x)) == s[0] as nat + pow2(64) * (b + x * p));
        assert(pow2(64) * (b + x * p) == pow2(64) * b + x * (pow2(64) * p)) by (nonlinear_arith);
        assert(64 + 64 * (s.len() - 1) as nat == 64 * s.len());
        assert(pow2(64) * p == pow2(64 * s.len()));
        assert(limbs_val(s) == s[0] as nat + pow2(64) * b);
    }
}

/// A limb sequence's value is below 2^(64 * length).
pub proof fn lemma_val_bound(s: Seq<u64>)
    ensures
        limbs_val(s) < pow2(64 * s.len()),
    decreases s.len(),
{
    if s.len() == 0 {
        lemma2_to64();
    } else {
        lemma_val_bound(s.skip(1));
        lemma_pow2_adds(64, 64 * (s.len() - 1) as nat);
        lemma_pow2_pos(64);
        assert(pow2(64) * limbs_val(s.skip(1)) <= pow2(64) * (pow2(64 * (s.len() - 1) as nat) - 1))
            by (nonlinear_arith)
            requires limbs_val(s.skip(1)) <= pow2(64 * (s.len() - 1) as nat) - 1, pow2(64) > 0;
        assert(s[0] < pow2(64)) by {
            lemma_u64_below_pow2_64(s[0]);
        }
        assert(pow2(64) * (pow2(64 * (s.len() - 1) as nat) - 1)
            == pow2(64) * pow2(64 * (s.len() - 1) as nat) - pow2(64)) by (nonlinear_arith);
    }
}

/// Every `u64` lies below 2^64.
pub proof fn lemma_u64_below_pow2_64(x: u64)
    ensures
        x < pow2(64),
{
    lemma2_to64();
}

/// A limb sequence's value splits at any limb index.
pub proof fn lemma_val_split(s: Seq<u64>, i: int)
    requires
        0 <= i <= s.len(),
    ensures
        limbs_val(s) == limbs_val(s.take(i)) + pow2(64 * i as nat) * limbs_val(s.skip(i)),
    decreases i,
{
    if i == 0 {
        assert(s.take(0) =~= Seq::<u64>::empty());
        assert(s.skip(0) =~= s);
        lemma2_to64();
    } else {
        lemma_val_split(s.skip(1), i - 1);
        assert(s.skip(1).take(i - 1) =~= s.take(i).skip(1));
        assert(s.skip(1).skip(i - 1) =~= s.skip(i));
        lemma_pow2_adds(64, 64 * (i - 1) as nat);
        // limbs_val(s) == s[0] + pow2(64) * limbs_val(s.skip(1))
        //             == s[0] + pow2(64) * (limbs_val(s.take(i).skip(1))
        //                                   + pow2(64*(i-1)) * limbs_val(s.skip(i)))
        assert(s.take(i)[0] == s[0]);
        assert(limbs_val(s.take(i)) == s[0] as nat + pow2(64) * limbs_val(s.take(i).skip(1)));
        assert(pow2(64) * (limbs_val(s.take(i).skip(1)) + pow2(64 * (i - 1) as nat) * limbs_val(s.skip(i)))
            == pow2(64) * limbs_val(s.take(i).skip(1))
               + pow2(64) * (pow2(64 * (i - 1) as nat) * limbs_val(s.skip(i)))) by (nonlinear_arith);
        assert(pow2(64) * (pow2(64 * (i - 1) as nat) * limbs_val(s.skip(i)))
            == (pow2(64) * pow2(64 * (i - 1) as nat)) * limbs_val(s.skip(i))) by (nonlinear_arith);
    }
}

/// Extending a prefix by one limb adds that limb's weighted value.
pub proof fn lemma_val_take_step(s: Seq<u64>, i: int)
    requires
        0 <= i < s.len(),
    ensures
        limbs_val(s.take(i + 1)) == limbs_val(s.take(i)) + s[i] * pow2(64 * i as nat),
{
    assert(s.take(i + 1) =~= s.take(i).push(s[i]));
    lemma_val_push(s.take(i), s[i]);
}

/// A limb sequence denotes zero exactly when every limb is zero.
pub proof fn lemma_val_zero(s: Seq<u64>)
    ensures
        (limbs_val(s) == 0) <==> (forall|i: int| 0 <= i < s.len() ==> s[i] == 0),
    decreases s.len(),
{
    if s.len() != 0 {
        lemma_val_zero(s.skip(1));
        lemma_pow2_pos(64);
        assert(forall|i: int| 0 <= i < s.skip(1).len() ==> s.skip(1)[i] == s[i + 1]);
        if limbs_val(s) == 0 {
            assert(pow2(64) * limbs_val(s.skip(1)) == 0);
            assert(limbs_val(s.skip(1)) == 0) by (nonlinear_arith)
                requires pow2(64) * limbs_val(s.skip(1)) == 0, pow2(64) > 0;
            assert(forall|i: int| 0 <= i < s.len() ==> s[i] == 0) by {
                assert(forall|i: int| 1 <= i < s.len() ==> s[i] == s.skip(1)[i - 1] && s[i] == 0);
            }
        } else {
            if forall|i: int| 0 <= i < s.len() ==> s[i] == 0 {
                assert(forall|i: int| 0 <= i < s.skip(1).len() ==> s.skip(1)[i] == 0);
                assert(limbs_val(s.skip(1)) == 0);
            }
        }
    }
}

/// Two equal-length limb sequences that agree above index `i` and differ
/// at `i` order their values by the limbs at `i`.
pub proof fn lemma_val_lt_at(a: Seq<u64>, b: Seq<u64>, i: int)
    requires
        a.len() == b.len(),
        0 <= i < a.len(),
        forall|j: int| i < j < a.len() ==> a[j] == b[j],
        a[i] < b[i],
    ensures
        limbs_val(a) < limbs_val(b),
{
    lemma_val_split(a, i);
    lemma_val_split(b, i);
    assert(a.skip(i).skip(1) =~= b.skip(i).skip(1));
    assert(a.skip(i)[0] == a[i]);
    assert(b.skip(i)[0] == b[i]);
    let pi = pow2(64 * i as nat);
    lemma_pow2_pos(64 * i as nat);
    lemma_val_bound(a.take(i));
    lemma_val_bound(b.take(i));
    assert(a.take(i).len() == i);
    assert(b.take(i).len() == i);
    // value of the tails differs by at least 1, so by at least pi overall
    assert(limbs_val(a.skip(i)) + 1 <= limbs_val(b.skip(i)));
    assert(pi * limbs_val(a.skip(i)) + pi <= pi * limbs_val(b.skip(i))) by (nonlinear_arith)
        requires pi > 0, limbs_val(a.skip(i)) + 1 <= limbs_val(b.skip(i));
}

/// Bit `i` of the number `v`.
pub open spec fn bit_of(v: nat, i: nat) -> bool {
    (v / pow2(i)) % 2 == 1
}

/// Each limb is the matching 64-bit window of the value.
pub proof fn lemma_limb_extract(s: Seq<u64>, w: int)
    requires
        0 <= w < s.len(),
    ensures
        s[w] == (limbs_val(s) / pow2(64 * w as nat)) % pow2(64),
{
    lemma_val_split(s, w);
    lemma_val_bound(s.take(w));
    assert(s.take(w).len() == w);
    lemma_pow2_pos(64 * w as nat);
    let pw = pow2(64 * w as nat);
    let tail = limbs_val(s.skip(w));
    assert(limbs_val(s.take(w)) < pw);
    assert(pw * tail == tail * pw) by (nonlinear_arith);
    lemma_fundamental_div_mod_converse(
        limbs_val(s) as int, pw as int, tail as int, limbs_val(s.take(w)) as int);
    assert(limbs_val(s) as int / pw as int == tail);
    assert(s.skip(w)[0] == s[w]);
    assert(tail == s[w] as nat + pow2(64) * limbs_val(s.skip(w).skip(1)));
    lemma_u64_below_pow2_64(s[w]);
    lemma_pow2_pos(64);
    lemma_mod_multiples_vanish(
        limbs_val(s.skip(w).skip(1)) as int, s[w] as int, pow2(64) as int);
    lemma_small_mod(s[w] as nat, pow2(64));
}

/// Dropping the high bits above `a + b` does not change the window
/// `[a, a + b)`: `((x % 2^n) / 2^a) % 2^b == (x / 2^a) % 2^b` for `a + b <= n`.
pub proof fn lemma_pow2_window(x: nat, n: nat, a: nat, b: nat)
    requires
        a + b <= n,
    ensures
        ((x % pow2(n)) / pow2(a)) % pow2(b) == (x / pow2(a)) % pow2(b),
{
    lemma_pow2_pos(n);
    lemma_pow2_pos(a);
    lemma_pow2_pos(b);
    lemma_pow2_adds(a, (n - a) as nat);
    let q: int = (x / pow2(n)) as int;
    let r: int = (x % pow2(n)) as int;
    let pa: int = pow2(a) as int;
    let pb: int = pow2(b) as int;
    let pna: int = pow2((n - a) as nat) as int;
    lemma_fundamental_div_mod(x as int, pow2(n) as int);
    // x = q * 2^n + r, so x / 2^a = q * 2^(n-a) + r / 2^a
    assert(pow2(n) == pow2(a) * pow2((n - a) as nat));
    assert(q * (pa * pna) == (q * pna) * pa) by (nonlinear_arith);
    assert(pow2(n) as int * q == (q * pna) * pa) by (nonlinear_arith)
        requires pow2(n) == pa * pna;
    lemma_hoist_over_denominator(r, q * pna, pa as nat);
    assert(((q * pna) * pa + r) / pa == q * pna + r / pa);
    assert(x as int / pa == q * pna + r / pa);
    // q * 2^(n-a) is a multiple of 2^b, so it vanishes modulo 2^b
    lemma_pow2_adds(b, (n - a - b) as nat);
    let pnab: int = pow2((n - a - b) as nat) as int;
    assert(pna == pb * pnab);
    assert(q * (pb * pnab) == pb * (q * pnab)) by (nonlinear_arith);
    lemma_mod_multiples_vanish(q * pnab, r / pa, pb);
    assert((pb * (q * pnab) + r / pa) % pb == (r / pa) % pb);
}

/// The value modulo a small power of two is the low limb's residue.
pub proof fn lemma_val_mod_low(s: Seq<u64>, k: nat)
    requires
        s.len() > 0,
        k <= 64,
    ensures
        limbs_val(s) % pow2(k) == (s[0] as nat) % pow2(k),
{
    lemma_pow2_pos(k);
    lemma_pow2_adds(k, (64 - k) as nat);
    let rest = limbs_val(s.skip(1));
    assert(limbs_val(s) == s[0] as nat + pow2(64) * rest);
    assert(pow2(64) * rest == pow2(k) * (pow2((64 - k) as nat) * rest)) by (nonlinear_arith)
        requires pow2(64) == pow2(k) * pow2((64 - k) as nat);
    lemma_mod_multiples_vanish(
        (pow2((64 - k) as nat) * rest) as int, s[0] as int, pow2(k) as int);
}

/// `2^e` as a machine word, for exponents below 64.
#[verifier::loop_isolation(false)]
fn pow2_u64(e: usize) -> (r: u64)
    requires
        e < 64,
    ensures
        r == pow2(e as nat),
{
    let mut r: u64 = 1;
    let mut j: usize = 0;
    proof {
        lemma2_to64();
    }
    while j < e
        invariant
            j <= e,
            r == pow2(j as nat),
        decreases e - j,
    {
        proof {
            lemma_pow2_adds(j as nat, 1);
            lemma2_to64();
            lemma_pow2_strictly_increases(j as nat, 63);
            lemma2_to64_rest();
        }
        r = r * 2;
        j = j + 1;
    }
    r
}

/// The position of the highest set bit of a word, plus one; zero for zero.
#[verifier::loop_isolation(false)]
fn u64_bit_len(x: u64) -> (r: usize)
    ensures
        r <= 64,
        x < pow2(r as nat),
        r > 0 ==> x >= pow2((r - 1) as nat),
{
    let mut c: usize = 0;
    let mut y: u64 = x;
    proof {
        lemma2_to64();
    }
    while y > 0
        invariant
            c <= 64,
            y == x as nat / pow2(c as nat),
            c > 0 ==> x >= pow2((c - 1) as nat),
        decreases y,
    {
        proof {
            lemma_pow2_pos(c as nat);
            // y > 0 means x >= 2^c, so c stays below 64
            assert(x >= pow2(c as nat)) by (nonlinear_arith)
                requires x as nat / pow2(c as nat) > 0, pow2(c as nat) > 0;
            lemma_u64_below_pow2_64(x);
            if c >= 64 {
                lemma_pow2_strictly_increases(64, c as nat);
                assert(false);
            }
            lemma_pow2_adds(c as nat, 1);
            lemma2_to64();
            lemma_div_denominator(x as int, pow2(c as nat) as int, 2);
            assert(y / 2 == x as nat / pow2(c as nat + 1));
        }
        y = y / 2;
        c = c + 1;
    }
    proof {
        lemma_pow2_pos(c as nat);
        lemma_small_div_converse(x as int, pow2(c as nat) as int);
    }
    c
}

/// One step of the in-place byte shift: writing the shifted limb at `i`
/// moves one more limb of `a` into the divided-by-256 prefix.
pub proof fn lemma_shr8_step(prev: Seq<u64>, next: Seq<u64>, a: Seq<u64>, i: int, lo: u64)
    requires
        a.len() == LIMBS,
        prev.len() == LIMBS,
        0 <= i < LIMBS,
        forall|j: int| i <= j < LIMBS ==> prev[j] == a[j],
        next == prev.update(i, lo),
        lo == (a[i] as nat) / 256
            + ((if i + 1 < LIMBS { a[i + 1] as nat } else { 0 }) % 256) * 0x100000000000000,
        256 * limbs_val(prev.take(i)) + (a[0] as nat) % 256
            == limbs_val(a.take(i)) + ((a[i] as nat) % 256) * pow2(64 * i as nat),
    ensures
        256 * limbs_val(next.take(i + 1)) + (a[0] as nat) % 256
            == limbs_val(a.take(i + 1))
               + (if i + 1 < LIMBS { ((a[i + 1] as nat) % 256) * pow2(64 * (i + 1) as nat) } else { 0 }),
{
    lemma2_to64();
    lemma2_to64_rest();
    assert(prev.take(i).len() == i);
    assert(a.take(i).len() == i);
    assert(next.take(i + 1) =~= prev.take(i).push(lo));
    assert(a.take(i + 1) =~= a.take(i).push(a[i]));
    lemma_val_push(prev.take(i), lo);
    lemma_val_push(a.take(i), a[i]);
    lemma_pow2_adds(64 * i as nat, 64);
    let p = pow2(64 * i as nat);
    let av = a[i] as nat;
    let nv = (if i + 1 < LIMBS { a[i + 1] as nat } else { 0 }) % 256;
    lemma_fundamental_div_mod(av as int, 256);
    assert(256 * (lo * p) == (av - av % 256) * p + nv * (pow2(64) * p))
        by (nonlinear_arith)
        requires
            lo == av / 256 + nv * 0x100000000000000,
            av == 256 * (av / 256) + av % 256,
            pow2(64) == 0x10000000000000000;
    assert((av - av % 256) * p == av * p - (av % 256) * p) by (nonlinear_arith);
    assert(nv * (pow2(64) * p) == nv * pow2(64 * (i + 1) as nat));
    assert(256 * limbs_val(next.take(i + 1))
        == 256 * limbs_val(prev.take(i)) + 256 * (lo * p));
    assert(limbs_val(a.take(i + 1)) == limbs_val(a.take(i)) + av * p);
    assert(256 * limbs_val(next.take(i + 1)) + (a[0] as nat) % 256
        == limbs_val(a.take(i)) + av * p + nv * pow2(64 * (i + 1) as nat));
    if i + 1 < LIMBS {
        assert(nv == (a[i + 1] as nat) % 256);
    } else {
        assert(nv == 0);
        assert(nv * pow2(64 * (i + 1) as nat) == 0) by (nonlinear_arith)
            requires nv == 0;
    }
}

/// The value of a big-endian byte string.
pub open spec fn be_bytes_val(s: Seq<u8>) -> nat
    decreases s.len(),
{
    if s.len() == 0 {
        0
    } else {
        (s[0] as nat) * pow2(8 * (s.len() - 1) as nat) + be_bytes_val(s.skip(1))
    }
}

/// The value of a little-endian byte string.
pub open spec fn le_bytes_val(s: Seq<u8>) -> nat
    decreases s.len(),
{
    if s.len() == 0 {
        0
    } else {
        s[0] as nat + 256 * le_bytes_val(s.skip(1))
    }
}

/// A big-endian byte string's value is below 2^(8 * length).
pub proof fn lemma_be_bytes_val_bound(s: Seq<u8>)
    ensures
        be_bytes_val(s) < pow2(8 * s.len()),
    decreases s.len(),
{
    if s.len() == 0 {
        lemma2_to64();
    } else {
        lemma_be_bytes_val_bound(s.skip(1));
        let p = pow2(8 * (s.len() - 1) as nat);
        lemma_pow2_adds(8, 8 * (s.len() - 1) as nat);
        lemma2_to64();
        assert((s[0] as nat) * p <= 255 * p) by (nonlinear_arith)
            requires (s[0] as nat) <= 255, p >= 0;
        assert(256 * p == pow2(8 * s.len()));
    }
}

/// Appending a byte to a little-endian string adds its weighted value.
pub proof fn lemma_le_bytes_push(s: Seq<u8>, x: u8)
    ensures
        le_bytes_val(s.push(x)) == le_bytes_val(s) + x * pow2(8 * s.len()),
    decreases s.len(),
{
    if s.len() == 0 {
        reveal_with_fuel(le_bytes_val, 2);
        assert(s.push(x).skip(1) =~= Seq::<u8>::empty());
        assert(s.push(x)[0] == x);
        lemma2_to64();
        assert(x * pow2(0) == x) by (nonlinear_arith)
            requires pow2(0) == 1;
    } else {
        assert(s.push(x).skip(1) =~= s.skip(1).push(x));
        assert(s.push(x)[0] == s[0]);
        lemma_le_bytes_push(s.skip(1), x);
        lemma_pow2_adds(8, 8 * (s.len() - 1) as nat);
        lemma2_to64();
        let b = le_bytes_val(s.skip(1));
        let p = pow2(8 * (s.len() - 1) as nat);
        assert(le_bytes_val(s.push(x)) == s[0] as nat + 256 * (b + x * p));
        assert(256 * (b + x * p) == 256 * b + x * (256 * p)) by (nonlinear_arith);
        assert(8 + 8 * (s.len() - 1) as nat == 8 * s.len());
        assert(256 * p == pow2(8 * s.len()));
    }
}

/// One step of restoring division: shifting the remainder left by one
/// bit and restoring once tracks quotient and remainder of `2 h + bit`.
pub proof fn lemma_div_bit_step(h: nat, b: nat, bit: nat)
    requires
        b > 0,
        bit <= 1,
    ensures
        ({
            let r2 = 2 * (h % b) + bit;
            &&& (2 * h + bit) % b == (if r2 >= b { (r2 - b) as nat } else { r2 })
            &&& (2 * h + bit) / b == 2 * (h / b) + (if r2 >= b { 1nat } else { 0nat })
        }),
{
    let q = h / b;
    let r = h % b;
    lemma_fundamental_div_mod(h as int, b as int);
    lemma_mod_bound(h as int, b as int);
    let r2 = 2 * r + bit;
    assert(2 * h + bit == b * (2 * q) + r2) by (nonlinear_arith)
        requires h == b * q + r, r2 == 2 * r + bit;
    if r2 >= b {
        assert(2 * h + bit == (2 * q + 1) * b + (r2 - b)) by (nonlinear_arith)
            requires 2 * h + bit == b * (2 * q) + r2;
        lemma_fundamental_div_mod_converse(
            (2 * h + bit) as int, b as int, (2 * q + 1) as int, r2 - b);
    } else {
        assert(2 * h + bit == (2 * q) * b + r2) by (nonlinear_arith)
            requires 2 * h + bit == b * (2 * q) + r2;
        lemma_fundamental_div_mod_converse(
            (2 * h + bit) as int, b as int, (2 * q) as int, r2 as int);
    }
}

/// Fixed-width multi-precision unsigned integer.
pub struct BigUint {
    data: Vec<u64>,
}

impl BigUint {
    /// The limbs, least significant first.
    pub closed spec fn limbs(&self) -> Seq<u64> {
        self.data@
    }

    /// Well-formed: exactly `LIMBS` limbs, always.
    pub open spec fn wf(&self) -> bool {
        self.limbs().len() == LIMBS
    }

    /// The number this `BigUint` stands for.
    pub open spec fn val(&self) -> nat {
        limbs_val(self.limbs())
    }

    /// A fresh zero value.
    #[verifier::loop_isolation(false)]
    pub fn new() -> (r: BigUint)
        ensures
            r.wf(),
            r.val() == 0,
    {
        let mut data: Vec<u64> = Vec::new();
        let mut i: usize = 0;
        while i < LIMBS
            invariant
                i <= LIMBS,
                data@.len() == i,
                limbs_val(data@) == 0,
            decreases LIMBS - i,
        {
            proof {
                lemma_val_push(data@, 0);
            }
            data.push(0);
            i = i + 1;
        }
        BigUint { data }
    }

    /// Zero.
    pub fn zero() -> (r: BigUint)
        ensures
            r.wf(),
            r.val() == 0,
    {
        BigUint::new()
    }

    /// One.
    pub fn one() -> (r: BigUint)
        ensures
            r.wf(),
            r.val() == 1,
    {
        BigUint::from_u64(1)
    }

    /// The value `v`.
    pub fn from_u64(v: u64) -> (r: BigUint)
        ensures
            r.wf(),
            r.val() == v,
    {
        let mut r = BigUint::new();
        proof {
            lemma_val_update(r.limbs(), 0, v);
            lemma2_to64();
            assert(v * pow2(0) == v) by (nonlinear_arith)
                requires pow2(0) == 1;
            assert(r.limbs()[0] * pow2(0) == 0) by (nonlinear_arith)
                requires r.limbs()[0] == 0;
        }
        r.data.set(0, v);
        r
    }

    /// The low 64 bits, that is the value modulo 2^64.
    pub fn to_u64(&self) -> (r: u64)
        requires
            self.wf(),
        ensures
            r == self.val() % pow2(64),
    {
        proof {
            lemma_val_low_limb(self.limbs());
        }
        self.data[0]
    }

    /// Add `byte * 2^(8 j)`; the caller guarantees the value is still
    /// below `2^(8 j)`, so the affected limb has room.
    fn add_byte_shifted(&mut self, byte: u8, j: usize)
        requires
            old(self).wf(),
            j < 8 * LIMBS,
            old(self).val() < pow2(8 * j as nat),
        ensures
            final(self).wf(),
            final(self).val() == old(self).val() + byte * pow2(8 * j as nat),
    {
        let w = j / 8;
        let off = 8 * (j % 8);
        let m = pow2_u64(off);
        proof {
            lemma_fundamental_div_mod(j as int, 8);
            assert(64 * w + off == 8 * j);
            lemma_pow2_adds(64 * w as nat, off as nat);
            lemma_limb_extract(self.limbs(), w as int);
            lemma_pow2_pos(64 * w as nat);
            lemma_pow2_pos(off as nat);
            // the limb holds fewer than 2^off, so the new byte fits above it
            assert(pow2(64 * w as nat) * pow2(off as nat) == pow2(8 * j as nat));
            lemma_multiply_divide_lt(self.val() as int, pow2(64 * w as nat) as int, pow2(off as nat) as int);
            assert(self.val() / pow2(64 * w as nat) < pow2(off as nat));
            if off < 64 {
                lemma_pow2_strictly_increases(off as nat, 64);
            }
            lemma_small_mod(self.val() / pow2(64 * w as nat), pow2(64));
            assert(self.limbs()[w as int] < pow2(off as nat));
            lemma_pow2_adds(off as nat, 8);
            lemma2_to64();
            assert((byte as nat) * pow2(off as nat) <= 255 * pow2(off as nat)) by (nonlinear_arith)
                requires (byte as nat) <= 255, pow2(off as nat) >= 0;
            assert(256 * pow2(off as nat) == pow2(off as nat + 8));
            lemma_pow2_adds(off as nat + 8, (56 - off) as nat);
            if off + 8 < 64 {
                lemma_pow2_strictly_increases(off as nat + 8, 64);
            }
            assert(pow2(off as nat + 8) <= pow2(64));
        }
        let ghost pre = self.limbs();
        let nv = self.data[w] + (byte as u64) * m;
        self.data.set(w, nv);
        proof {
            lemma_val_update(pre, w as int, nv);
            let p = pow2(64 * w as nat);
            assert(nv * p == pre[w as int] * p + byte * (pow2(off as nat) * p))
                by (nonlinear_arith)
                requires nv == pre[w as int] + byte * pow2(off as nat);
            assert(pow2(off as nat) * p == p * pow2(off as nat)) by (nonlinear_arith);
            assert(pow2(off as nat) * p == pow2((64 * w + off) as nat));
            assert(pow2((64 * w + off) as nat) == pow2(8 * j as nat));
        }
    }

    /// Build a value from big-endian bytes.
    #[verifier::loop_isolation(false)]
    pub fn from_be_bytes(bytes: &[u8]) -> (r: BigUint)
        requires
            bytes@.len() <= 8 * LIMBS,
        ensures
            r.wf(),
            r.val() == be_bytes_val(bytes@),
    {
        let n = bytes.len();
        let mut r = BigUint::new();
        let mut j: usize = 0;
        proof {
            lemma2_to64();
            assert(bytes@.skip(n as int) =~= Seq::<u8>::empty());
        }
        while j < n
            invariant
                r.wf(),
                j <= n,
                r.val() == be_bytes_val(bytes@.skip(n - j)),
                r.val() < pow2(8 * j as nat),
            decreases n - j,
        {
            let b = bytes[n - 1 - j];
            proof {
                let tail = bytes@.skip(n - j - 1);
                assert(tail[0] == bytes@[n - 1 - j]);
                assert(tail.skip(1) =~= bytes@.skip(n - j));
                assert(tail.len() == j + 1);
                assert(be_bytes_val(tail)
                    == (b as nat) * pow2(8 * j as nat) + be_bytes_val(bytes@.skip(n - j)));
                lemma_be_bytes_val_bound(tail);
            }
            r.add_byte_shifted(b, j);
            j = j + 1;
        }
        proof {
            assert(bytes@.skip(0) =~= bytes@);
        }
        r
    }

    /// Build a value from little-endian bytes.
    #[verifier::loop_isolation(false)]
    pub fn from_le_bytes(bytes: &[u8]) -> (r: BigUint)
        requires
            bytes@.len() <= 8 * LIMBS,
        ensures
            r.wf(),
            r.val() == le_bytes_val(bytes@),
    {
        let n = bytes.len();
        let mut r = BigUint::new();
        let mut j: usize = 0;
        proof {
            lemma2_to64();
            assert(bytes@.take(0) =~= Seq::<u8>::empty());
        }
        while j < n
            invariant
                r.wf(),
                j <= n,
                r.val() == le_bytes_val(bytes@.take(j as int)),
                r.val() < pow2(8 * j as nat),
            decreases n - j,
        {
            let b = bytes[j];
            proof {
                assert(bytes@.take(j + 1) =~= bytes@.take(j as int).push(b));
                lemma_le_bytes_push(bytes@.take(j as int), b);
                assert(bytes@.take(j as int).len() == j);
                lemma_pow2_adds(8 * j as nat, 8);
                lemma2_to64();
                assert((b as nat) * pow2(8 * j as nat) <= 255 * pow2(8 * j as nat))
                    by (nonlinear_arith)
                    requires (b as nat) <= 255, pow2(8 * j as nat) >= 0;
                assert(256 * pow2(8 * j as nat) == pow2(8 * (j + 1) as nat));
            }
            r.add_byte_shifted(b, j);
            j = j + 1;
        }
        proof {
            assert(bytes@.take(n as int) =~= bytes@);
        }
        r
    }

    /// The value as `width` big-endian bytes; high bytes beyond `width`
    /// are cut off.
    #[verifier::loop_isolation(false)]
    pub fn to_bytes_be(&self, width: usize) -> (r: Vec<u8>)
        requires
            self.wf(),
        ensures
            r@.len() == width,
            be_bytes_val(r@) == self.val() % pow2(8 * width as nat),
    {
        let mut res: Vec<u8> = Vec::new();
        let mut k: usize = 0;
        while k < width
            invariant
                res@.len() == k,
                k <= width,
            decreases width - k,
        {
            res.push(0);
            k = k + 1;
        }
        let mut temp = self.duplicate();
        let mut i: usize = width;
        proof {
            lemma2_to64();
            assert(res@.skip(width as int) =~= Seq::<u8>::empty());
            assert(self.val() % pow2(0) == 0) by {
                assert(self.val() % 1 == 0) by (nonlinear_arith);
            }
            assert(self.val() / pow2(0) == self.val()) by {
                assert(self.val() as int / 1 == self.val()) by (nonlinear_arith);
            }
        }
        while i > 0
            invariant
                res@.len() == width,
                temp.wf(),
                i <= width,
                be_bytes_val(res@.skip(i as int)) == self.val() % pow2(8 * (width - i) as nat),
                temp.val() == self.val() / pow2(8 * (width - i) as nat),
            decreases i,
        {
            i = i - 1;
            let ghost d = (8 * (width - i - 1)) as nat;
            let low = temp.to_u64();
            let byte: u8 = (low % 256) as u8;
            let ghost pre = res@;
            res.set(i, byte);
            temp.shr_8();
            proof {
                lemma2_to64();
                // low byte of temp is the value's next base-256 digit
                lemma_pow2_pos(d);
                lemma_mod_mod((self.val() / pow2(d)) as int, 256, 0x100000000000000);
                assert(256 * 0x100000000000000 == pow2(64));
                assert((byte as nat) == (self.val() / pow2(d)) % 256);
                assert(res@.skip(i as int)[0] == byte);
                assert(res@.skip(i as int).skip(1) =~= pre.skip(i + 1));
                assert(res@.skip(i as int).len() == width - i);
                assert(8 * (res@.skip(i as int).len() - 1) as nat == d);
                assert(be_bytes_val(res@.skip(i as int))
                    == (res@.skip(i as int)[0] as nat) * pow2(8 * (res@.skip(i as int).len() - 1) as nat)
                       + be_bytes_val(res@.skip(i as int).skip(1)));
                assert(be_bytes_val(res@.skip(i as int))
                    == (byte as nat) * pow2(d) + be_bytes_val(pre.skip(i + 1)));
                lemma_mod_breakdown(self.val() as int, pow2(d) as int, 256);
                lemma_pow2_adds(d, 8);
                assert(pow2(d) * 256 == pow2(d + 8));
                assert(d + 8 == 8 * (width - i));
                assert((byte as nat) * pow2(d) == pow2(d) * ((self.val() / pow2(d)) % 256))
                    by (nonlinear_arith)
                    requires (byte as nat) == (self.val() / pow2(d)) % 256;
                // and the divided-down value advances one byte
                lemma_div_denominator(self.val() as int, pow2(d) as int, 256);
            }
        }
        proof {
            assert(res@.skip(0) =~= res@);
        }
        res
    }

    /// Limb `i` of the value.
    pub(crate) fn limb(&self, i: usize) -> (r: u64)
        requires
            self.wf(),
            i < LIMBS,
        ensures
            r == self.limbs()[i as int],
    {
        self.data[i]
    }

    /// Whether the value is zero.
    #[verifier::loop_isolation(false)]
    pub fn is_zero(&self) -> (r: bool)
        requires
            self.wf(),
        ensures
            r == (self.val() == 0),
    {
        let mut i: usize = 0;
        while i < LIMBS
            invariant
                self.wf(),
                i <= LIMBS,
                forall|j: int| 0 <= j < i ==> self.limbs()[j] == 0,
            decreases LIMBS - i,
        {
            if self.data[i] != 0 {
                proof {
                    lemma_val_zero(self.limbs());
                }
                return false;
            }
            i = i + 1;
        }
        proof {
            lemma_val_zero(self.limbs());
        }
        true
    }

    /// An independent copy with the same limbs.
    #[verifier::loop_isolation(false)]
    pub fn duplicate(&self) -> (r: BigUint)
        requires
            self.wf(),
        ensures
            r.wf(),
            r.limbs() == self.limbs(),
    {
        let mut data: Vec<u64> = Vec::new();
        let mut i: usize = 0;
        while i < LIMBS
            invariant
                self.wf(),
                i <= LIMBS,
                data@.len() == i,
                forall|j: int| 0 <= j < i ==> data@[j] == self.limbs()[j],
            decreases LIMBS - i,
        {
            data.push(self.data[i]);
            i = i + 1;
        }
        proof {
            assert(data@ =~= self.limbs());
        }
        BigUint { data }
    }

    /// How many limbs the value occupies, counting at least one.
    #[verifier::loop_isolation(false)]
    pub fn limbs_used(&self) -> (r: usize)
        requires
            self.wf(),
        ensures
            1 <= r <= LIMBS,
            self.val() < pow2(64 * r as nat),
            r > 1 ==> self.val() >= pow2(64 * (r - 1) as nat),
    {
        let mut i: usize = LIMBS;
        while i > 0
            invariant
                self.wf(),
                i <= LIMBS,
                forall|j: int| i <= j < LIMBS ==> self.limbs()[j] == 0,
            decreases i,
        {
            i = i - 1;
            if self.data[i] != 0 {
                proof {
                    lemma_val_split(self.limbs(), i + 1);
                    lemma_val_zero(self.limbs().skip(i + 1));
                    assert(forall|j: int| 0 <= j < self.limbs().skip(i + 1).len()
                        ==> #[trigger] self.limbs().skip(i + 1)[j] == 0);
                    assert(limbs_val(self.limbs().skip(i + 1)) == 0);
                    assert(pow2(64 * (i + 1) as nat) * limbs_val(self.limbs().skip(i + 1)) == 0)
                        by (nonlinear_arith)
                        requires limbs_val(self.limbs().skip(i + 1)) == 0;
                    lemma_val_bound(self.limbs().take(i + 1));
                    assert(self.limbs().take(i + 1).len() == i + 1);
                    assert(self.val() == limbs_val(self.limbs().take(i + 1)));
                    if i > 0 {
                        // the nonzero limb at index i puts the value at or above 2^(64 i)
                        lemma_val_split(self.limbs(), i as int);
                        lemma_val_bound(self.limbs().take(i as int));
                        assert(self.limbs().skip(i as int)[0] == self.limbs()[i as int]);
                        assert(limbs_val(self.limbs().skip(i as int)) >= 1);
                        lemma_pow2_pos(64 * i as nat);
                        assert(pow2(64 * i as nat) * limbs_val(self.limbs().skip(i as int)) >= pow2(64 * i as nat))
                            by (nonlinear_arith)
                            requires pow2(64 * i as nat) > 0, limbs_val(self.limbs().skip(i as int)) >= 1;
                    }
                }
                return i + 1;
            }
        }
        proof {
            lemma_val_zero(self.limbs());
            lemma_pow2_pos(64);
        }
        1
    }

    /// Whether `self >= other`, comparing limbs from the most significant end.
    #[verifier::loop_isolation(false)]
    pub fn ge(&self, other: &BigUint) -> (r: bool)
        requires
            self.wf(),
            other.wf(),
        ensures
            r == (self.val() >= other.val()),
    {
        let mut i: usize = LIMBS;
        while i > 0
            invariant
                self.wf(),
                other.wf(),
                i <= LIMBS,
                forall|j: int| i <= j < LIMBS ==> self.limbs()[j] == other.limbs()[j],
            decreases i,
        {
            i = i - 1;
            if self.data[i] > other.data[i] {
                proof {
                    lemma_val_lt_at(other.limbs(), self.limbs(), i as int);
                }
                return true;
            }
            if self.data[i] < other.data[i] {
                proof {
                    lemma_val_lt_at(self.limbs(), other.limbs(), i as int);
                }
                return false;
            }
        }
        proof {
            assert(self.limbs() =~= other.limbs());
        }
        true
    }

    /// Add `other` in place; the sum wraps at the full capacity.
    #[verifier::loop_isolation(false)]
    pub fn add_assign(&mut self, other: &BigUint)
        requires
            old(self).wf(),
            other.wf(),
        ensures
            final(self).wf(),
            final(self).val() == (old(self).val() + other.val()) % cap(),
    {
        let ghost a = old(self).limbs();
        let ghost b = other.limbs();
        let mut carry: u64 = 0;
        let mut i: usize = 0;
        while i < LIMBS
            invariant
                self.wf(),
                other.wf(),
                i <= LIMBS,
                carry <= 1,
                b == other.limbs(),
                forall|j: int| i <= j < LIMBS ==> self.limbs()[j] == a[j],
                limbs_val(self.limbs().take(i as int)) + carry * pow2(64 * i as nat)
                    == limbs_val(a.take(i as int)) + limbs_val(b.take(i as int)),
            decreases LIMBS - i,
        {
            let ghost pre = self.limbs();
            let s: u128 = (self.data[i] as u128) + (other.data[i] as u128) + (carry as u128);
            let lo: u64 = (s % 0x10000000000000000u128) as u64;
            let hi: u64 = (s / 0x10000000000000000u128) as u64;
            self.data.set(i, lo);
            proof {
                lemma2_to64();
                assert(s == lo + 0x10000000000000000u128 * hi);
                assert(hi <= 1);
                assert(self.limbs().take(i as int) =~= pre.take(i as int));
                assert(self.limbs().take(i + 1) =~= pre.take(i as int).push(lo));
                assert(a.take(i + 1) =~= a.take(i as int).push(a[i as int]));
                assert(b.take(i + 1) =~= b.take(i as int).push(b[i as int]));
                lemma_val_push(pre.take(i as int), lo);
                lemma_val_push(a.take(i as int), a[i as int]);
                lemma_val_push(b.take(i as int), b[i as int]);
                lemma_pow2_adds(64 * i as nat, 64);
                let p = pow2(64 * i as nat);
                let q = pow2(64 * (i + 1) as nat);
                assert(q == p * pow2(64));
                // lo + 2^64 hi == a[i] + b[i] + carry, so the weighted sums line up
                assert((lo + pow2(64) * hi) * p == (a[i as int] + b[i as int] + carry) * p)
                    by (nonlinear_arith)
                    requires lo + pow2(64) * hi == a[i as int] + b[i as int] + carry;
                assert((lo + pow2(64) * hi) * p == lo * p + hi * (pow2(64) * p)) by (nonlinear_arith);
                assert((a[i as int] + b[i as int] + carry) * p
                    == a[i as int] * p + b[i as int] * p + carry * p) by (nonlinear_arith);
            }
            carry = hi;
            i = i + 1;
        }
        proof {
            assert(self.limbs().take(LIMBS as int) =~= self.limbs());
            assert(a.take(LIMBS as int) =~= a);
            assert(b.take(LIMBS as int) =~= b);
            lemma_val_bound(self.limbs());
            let sum = limbs_val(a) + limbs_val(b);
            vstd::arithmetic::div_mod::lemma_fundamental_div_mod_converse_mod(
                sum as int, cap() as int, carry as int, limbs_val(self.limbs()) as int);
        }
    }

    /// Shift left by one bit; the top bit falls off the capacity.
    #[verifier::loop_isolation(false)]
    pub fn shl_1(&mut self)
        requires
            old(self).wf(),
        ensures
            final(self).wf(),
            final(self).val() == (2 * old(self).val()) % cap(),
    {
        let ghost a = old(self).limbs();
        let mut carry: u64 = 0;
        let mut i: usize = 0;
        while i < LIMBS
            invariant
                self.wf(),
                i <= LIMBS,
                carry <= 1,
                forall|j: int| i <= j < LIMBS ==> self.limbs()[j] == a[j],
                limbs_val(self.limbs().take(i as int)) + carry * pow2(64 * i as nat)
                    == 2 * limbs_val(a.take(i as int)),
            decreases LIMBS - i,
        {
            let ghost pre = self.limbs();
            let t: u128 = 2 * (self.data[i] as u128) + (carry as u128);
            let lo: u64 = (t % 0x10000000000000000u128) as u64;
            let hi: u64 = (t / 0x10000000000000000u128) as u64;
            self.data.set(i, lo);
            proof {
                lemma2_to64();
                assert(t == lo + 0x10000000000000000u128 * hi);
                assert(hi <= 1);
                assert(self.limbs().take(i as int) =~= pre.take(i as int));
                assert(self.limbs().take(i + 1) =~= pre.take(i as int).push(lo));
                assert(a.take(i + 1) =~= a.take(i as int).push(a[i as int]));
                lemma_val_push(pre.take(i as int), lo);
                lemma_val_push(a.take(i as int), a[i as int]);
                lemma_pow2_adds(64 * i as nat, 64);
                let p = pow2(64 * i as nat);
                assert((lo + pow2(64) * hi) * p == (2 * a[i as int] + carry) * p)
                    by (nonlinear_arith)
                    requires lo + pow2(64) * hi == 2 * a[i as int] + carry;
                assert((lo + pow2(64) * hi) * p == lo * p + hi * (pow2(64) * p)) by (nonlinear_arith);
                assert((2 * a[i as int] + carry) * p == 2 * (a[i as int] * p) + carry * p)
                    by (nonlinear_arith);
            }
            carry = hi;
            i = i + 1;
        }
        proof {
            assert(self.limbs().take(LIMBS as int) =~= self.limbs());
            assert(a.take(LIMBS as int) =~= a);
            lemma_val_bound(self.limbs());
            lemma_fundamental_div_mod_converse_mod(
                2 * limbs_val(a) as int, cap() as int, carry as int, limbs_val(self.limbs()) as int);
        }
    }

    /// Shift right by eight bits, that is divide by 256.
    #[verifier::loop_isolation(false)]
    pub fn shr_8(&mut self)
        requires
            old(self).wf(),
        ensures
            final(self).wf(),
            final(self).val() == old(self).val() / 256,
    {
        let ghost a = old(self).limbs();
        let mut i: usize = 0;
        proof {
            lemma2_to64();
            assert(self.limbs().take(0) =~= Seq::<u64>::empty());
            assert(a.take(0) =~= Seq::<u64>::empty());
            assert(((a[0] as nat) % 256) * pow2(0) == (a[0] as nat) % 256);
        }
        while i < LIMBS
            invariant
                self.wf(),
                i <= LIMBS,
                forall|j: int| i <= j < LIMBS ==> self.limbs()[j] == a[j],
                256 * limbs_val(self.limbs().take(i as int)) + (a[0] as nat) % 256
                    == limbs_val(a.take(i as int))
                       + (if i < LIMBS { ((a[i as int] as nat) % 256) * pow2(64 * i as nat) } else { 0 }),
            decreases LIMBS - i,
        {
            let ghost pre = self.limbs();
            let cur = self.data[i];
            let nxt: u64 = if i + 1 < LIMBS { self.data[i + 1] } else { 0 };
            let lo: u64 = cur / 256 + (nxt % 256) * 0x100000000000000u64;
            self.data.set(i, lo);
            proof {
                lemma_shr8_step(pre, self.limbs(), a, i as int, lo);
            }
            i = i + 1;
        }
        proof {
            assert(self.limbs().take(LIMBS as int) =~= self.limbs());
            assert(a.take(LIMBS as int) =~= a);
            lemma_val_mod_low(a, 8);
            lemma2_to64();
            assert(pow2(8) == 256);
            lemma_fundamental_div_mod_converse(
                limbs_val(a) as int, 256, limbs_val(self.limbs()) as int, (limbs_val(a) % 256) as int);
        }
    }

    /// Bit `i` of the value, counting from the least significant end.
    pub fn get_bit(&self, i: usize) -> (r: bool)
        requires
            self.wf(),
            i < 64 * LIMBS,
        ensures
            r == bit_of(self.val(), i as nat),
    {
        let w = i / 64;
        let b = i % 64;
        let m = pow2_u64(b);
        proof {
            lemma_pow2_pos(b as nat);
        }
        let r = (self.data[w] / m) % 2 == 1;
        proof {
            lemma_limb_extract(self.limbs(), w as int);
            lemma_pow2_window(self.val() / pow2(64 * w as nat), 64, b as nat, 1);
            lemma2_to64();
            assert(pow2(1) == 2);
            lemma_pow2_adds(64 * w as nat, b as nat);
            lemma_pow2_pos(64 * w as nat);
            lemma_pow2_pos(b as nat);
            lemma_div_denominator(self.val() as int, pow2(64 * w as nat) as int, pow2(b as nat) as int);
            assert(64 * w + b == i);
        }
        r
    }

    /// Set bit `i`; the caller guarantees the bit is currently clear.
    pub fn set_bit(&mut self, i: usize)
        requires
            old(self).wf(),
            i < 64 * LIMBS,
            !bit_of(old(self).val(), i as nat),
        ensures
            final(self).wf(),
            final(self).val() == old(self).val() + pow2(i as nat),
    {
        let w = i / 64;
        let b = i % 64;
        let m = pow2_u64(b);
        proof {
            lemma_limb_extract(self.limbs(), w as int);
            lemma_pow2_window(self.val() / pow2(64 * w as nat), 64, b as nat, 1);
            lemma2_to64();
            lemma_pow2_adds(64 * w as nat, b as nat);
            lemma_pow2_pos(64 * w as nat);
            lemma_pow2_pos(b as nat);
            lemma_div_denominator(self.val() as int, pow2(64 * w as nat) as int, pow2(b as nat) as int);
            assert(64 * w + b == i);
            let lv = self.limbs()[w as int] as nat;
            assert((lv / pow2(b as nat)) % 2 == 0);
            // with bit b clear, adding 2^b stays within the limb
            lemma_fundamental_div_mod(lv as int, pow2(b as nat) as int);
            lemma_pow2_adds(b as nat, 1);
            assert(pow2(b as nat + 1) == 2 * pow2(b as nat));
            lemma_fundamental_div_mod((lv / pow2(b as nat)) as int, 2);
            // lv = 2^(b+1) * q + r with r < 2^b
            let q = lv / pow2(b as nat) / 2;
            let r = lv % pow2(b as nat);
            assert(lv == pow2(b as nat + 1) * q + r) by (nonlinear_arith)
                requires
                    lv == pow2(b as nat) * (lv / pow2(b as nat)) + lv % pow2(b as nat),
                    lv / pow2(b as nat) == 2 * q,
                    pow2(b as nat + 1) == 2 * pow2(b as nat),
                    r == lv % pow2(b as nat);
            lemma_mod_bound(lv as int, pow2(b as nat) as int);
            lemma_u64_below_pow2_64(self.data[w as int]);
            lemma_pow2_adds(b as nat + 1, (63 - b) as nat);
            lemma2_to64();
            assert(pow2(64) == pow2(b as nat + 1) * pow2((63 - b) as nat));
            assert(q < pow2((63 - b) as nat)) by (nonlinear_arith)
                requires
                    pow2(b as nat + 1) * q + r < pow2(b as nat + 1) * pow2((63 - b) as nat),
                    r >= 0,
                    pow2(b as nat + 1) > 0,
                    lv == pow2(b as nat + 1) * q + r,
                    lv < pow2(64),
                    pow2(64) == pow2(b as nat + 1) * pow2((63 - b) as nat);
            assert(pow2(b as nat + 1) * q <= pow2(b as nat + 1) * (pow2((63 - b) as nat) - 1))
                by (nonlinear_arith)
                requires q <= pow2((63 - b) as nat) - 1, pow2(b as nat + 1) > 0;
            assert(pow2(b as nat + 1) * (pow2((63 - b) as nat) - 1)
                == pow2(b as nat + 1) * pow2((63 - b) as nat) - pow2(b as nat + 1))
                by (nonlinear_arith);
            assert(lv + pow2(b as nat) < pow2(64));
        }
        let ghost pre = self.limbs();
        let nv = self.data[w] + m;
        self.data.set(w, nv);
        proof {
            lemma_val_update(pre, w as int, nv);
            lemma_pow2_adds(b as nat, 64 * w as nat);
            let p = pow2(64 * w as nat);
            assert(nv * p == pre[w as int] * p + pow2(b as nat) * p)
                by (nonlinear_arith)
                requires nv == pre[w as int] + pow2(b as nat);
            assert(pow2(b as nat) * p == pow2((b + 64 * w) as nat));
            assert(pow2((b + 64 * w) as nat) == pow2(i as nat));
            assert(self.limbs() == pre.update(w as int, nv));
            assert(self.val() + pre[w as int] * p == limbs_val(pre) + nv * p);
            assert(self.val() == limbs_val(pre) + pow2(i as nat));
        }
    }

    /// Set the lowest bit; the caller guarantees the value is even.
    pub fn set_bit0(&mut self)
        requires
            old(self).wf(),
            old(self).val() % 2 == 0,
        ensures
            final(self).wf(),
            final(self).val() == old(self).val() + 1,
    {
        proof {
            lemma_val_mod_low(self.limbs(), 1);
            lemma2_to64();
            assert(pow2(1) == 2);
            assert(self.limbs()[0] % 2 == 0);
        }
        let ghost pre = self.limbs();
        let nv = self.data[0] + 1;
        self.data.set(0, nv);
        proof {
            lemma_val_update(pre, 0, nv);
            lemma2_to64();
            assert(nv * pow2(0) == nv) by (nonlinear_arith)
                requires pow2(0) == 1;
            assert(pre[0] * pow2(0) == pre[0]) by (nonlinear_arith)
                requires pow2(0) == 1;
        }
    }

    /// The position of the highest set bit, plus one; zero for the value zero.
    #[verifier::loop_isolation(false)]
    pub fn bit_len(&self) -> (r: usize)
        requires
            self.wf(),
        ensures
            r <= 64 * LIMBS,
            self.val() < pow2(r as nat),
            r > 0 ==> self.val() >= pow2((r - 1) as nat),
    {
        let mut i: usize = LIMBS;
        while i > 0
            invariant
                i <= LIMBS,
                forall|j: int| i <= j < LIMBS ==> self.limbs()[j] == 0,
            decreases i,
        {
            i = i - 1;
            if self.data[i] != 0 {
                let bl = u64_bit_len(self.data[i]);
                proof {
                    lemma_val_split(self.limbs(), i + 1);
                    lemma_val_zero(self.limbs().skip(i + 1));
                    assert(forall|j: int| 0 <= j < self.limbs().skip(i + 1).len()
                        ==> #[trigger] self.limbs().skip(i + 1)[j] == 0);
                    assert(limbs_val(self.limbs().skip(i + 1)) == 0);
                    lemma_val_split(self.limbs(), i as int);
                    lemma_val_bound(self.limbs().take(i as int));
                    assert(self.limbs().take(i as int).len() == i);
                    let p = pow2(64 * i as nat);
                    let tail = limbs_val(self.limbs().skip(i as int));
                    assert(self.limbs().skip(i as int)[0] == self.limbs()[i as int]);
                    assert(self.limbs().skip(i as int).skip(1) =~= self.limbs().skip(i + 1));
                    assert(pow2(64) * limbs_val(self.limbs().skip(i + 1)) == 0) by (nonlinear_arith)
                        requires limbs_val(self.limbs().skip(i + 1)) == 0;
                    assert(tail == self.limbs()[i as int] as nat);
                    lemma2_to64();
                    assert(bl >= 1);
                    // value sits between 2^(64 i) * 2^(bl-1) and 2^(64 i) * 2^bl
                    lemma_pow2_adds(64 * i as nat, bl as nat);
                    lemma_pow2_adds(64 * i as nat, (bl - 1) as nat);
                    lemma_pow2_pos(64 * i as nat);
                    assert(self.val() == limbs_val(self.limbs().take(i as int)) + p * tail);
                    assert(p * tail <= p * (pow2(bl as nat) - 1)) by (nonlinear_arith)
                        requires p > 0, tail <= pow2(bl as nat) - 1;
                    assert(p * (pow2(bl as nat) - 1) == p * pow2(bl as nat) - p) by (nonlinear_arith);
                    assert(self.val() < p * pow2(bl as nat));
                    assert(p * tail >= p * pow2((bl - 1) as nat)) by (nonlinear_arith)
                        requires p > 0, tail >= pow2((bl - 1) as nat);
                }
                return 64 * i + bl;
            }
        }
        proof {
            lemma_val_zero(self.limbs());
            lemma_pow2_pos(0);
        }
        0
    }

    /// Subtract `other` in place; the caller guarantees `other <= self`.
    #[verifier::loop_isolation(false)]
    pub fn sub_assign(&mut self, other: &BigUint)
        requires
            old(self).wf(),
            other.wf(),
            other.val() <= old(self).val(),
        ensures
            final(self).wf(),
            final(self).val() == old(self).val() - other.val(),
    {
        let ghost a = old(self).limbs();
        let ghost b = other.limbs();
        let mut borrow: u64 = 0;
        let mut i: usize = 0;
        while i < LIMBS
            invariant
                self.wf(),
                other.wf(),
                i <= LIMBS,
                borrow <= 1,
                b == other.limbs(),
                forall|j: int| i <= j < LIMBS ==> self.limbs()[j] == a[j],
                limbs_val(self.limbs().take(i as int)) ==
                    limbs_val(a.take(i as int)) - limbs_val(b.take(i as int))
                    + borrow * pow2(64 * i as nat),
            decreases LIMBS - i,
        {
            let ghost pre = self.limbs();
            let t: u128 = 0x10000000000000000u128 + (self.data[i] as u128)
                - (other.data[i] as u128) - (borrow as u128);
            let lo: u64 = (t % 0x10000000000000000u128) as u64;
            let nb: u64 = if t >= 0x10000000000000000u128 { 0 } else { 1 };
            self.data.set(i, lo);
            proof {
                lemma2_to64();
                assert(lo == t - 0x10000000000000000u128 * (1 - nb));
                assert(self.limbs().take(i as int) =~= pre.take(i as int));
                assert(self.limbs().take(i + 1) =~= pre.take(i as int).push(lo));
                assert(a.take(i + 1) =~= a.take(i as int).push(a[i as int]));
                assert(b.take(i + 1) =~= b.take(i as int).push(b[i as int]));
                lemma_val_push(pre.take(i as int), lo);
                lemma_val_push(a.take(i as int), a[i as int]);
                lemma_val_push(b.take(i as int), b[i as int]);
                lemma_pow2_adds(64 * i as nat, 64);
                let p = pow2(64 * i as nat);
                // lo == a[i] - b[i] - borrow + 2^64 nb, so the weighted sums line up
                assert(lo * p == (a[i as int] - b[i as int] - borrow + pow2(64) * nb) * p)
                    by (nonlinear_arith)
                    requires lo == a[i as int] - b[i as int] - borrow + pow2(64) * nb;
                assert((a[i as int] - b[i as int] - borrow + pow2(64) * nb) * p
                    == a[i as int] * p - b[i as int] * p - borrow * p + nb * (pow2(64) * p))
                    by (nonlinear_arith);
            }
            borrow = nb;
            i = i + 1;
        }
        proof {
            assert(self.limbs().take(LIMBS as int) =~= self.limbs());
            assert(a.take(LIMBS as int) =~= a);
            assert(b.take(LIMBS as int) =~= b);
            if borrow == 1 {
                lemma_val_bound(self.limbs());
                assert(false);
            }
        }
    }

    /// Add `m * other * 2^(64 sh)` in place; overflow past the capacity
    /// wraps, as in the final carry that a fixed-width product drops.
    #[verifier::loop_isolation(false)]
    pub fn add_mul_shifted(&mut self, m: u64, other: &BigUint, sh: usize)
        requires
            old(self).wf(),
            other.wf(),
            sh <= LIMBS,
        ensures
            final(self).wf(),
            final(self).val()
                == (old(self).val() + ((m as nat) * other.val()) * pow2(64 * sh as nat)) % cap(),
    {
        let ghost a = old(self).limbs();
        let ghost b = other.limbs();
        let ghost s_w = pow2(64 * sh as nat);
        let mut carry: u64 = 0;
        let mut j: usize = 0;
        proof {
            lemma2_to64();
            assert(a.take(sh as int) =~= self.limbs().take(sh as int));
            assert(b.take(0) =~= Seq::<u64>::empty());
            assert((m as nat) * limbs_val(b.take(0)) == 0) by (nonlinear_arith)
                requires limbs_val(b.take(0)) == 0;
            assert(((m as nat) * limbs_val(b.take(0))) * s_w == 0) by (nonlinear_arith)
                requires (m as nat) * limbs_val(b.take(0)) == 0;
            assert(carry * pow2(64 * sh as nat) == 0) by (nonlinear_arith)
                requires carry == 0;
        }
        while j < LIMBS - sh
            invariant
                self.wf(),
                j <= LIMBS - sh,
                forall|k: int| sh + j <= k < LIMBS ==> self.limbs()[k] == a[k],
                limbs_val(self.limbs().take((sh + j) as int)) + carry * pow2(64 * (sh + j) as nat)
                    == limbs_val(a.take((sh + j) as int)) + ((m as nat) * limbs_val(b.take(j as int))) * s_w,
            decreases LIMBS - sh - j,
        {
            let ghost pre = self.limbs();
            let p_idx = sh + j;
            let od = other.data[j];
            proof {
                assert((m as nat) * (od as nat) <= 0xffffffffffffffff * 0xffffffffffffffff)
                    by (nonlinear_arith)
                    requires (m as nat) <= 0xffffffffffffffff, (od as nat) <= 0xffffffffffffffff;
            }
            let t: u128 = (self.data[p_idx] as u128) + (m as u128) * (od as u128)
                + (carry as u128);
            let lo: u64 = (t % 0x10000000000000000u128) as u64;
            let hi: u64 = (t / 0x10000000000000000u128) as u64;
            self.data.set(p_idx, lo);
            proof {
                lemma2_to64();
                assert(t == lo + 0x10000000000000000u128 * hi);
                assert(self.limbs().take(p_idx as int) =~= pre.take(p_idx as int));
                assert(self.limbs().take(p_idx + 1) =~= pre.take(p_idx as int).push(lo));
                assert(a.take(p_idx + 1) =~= a.take(p_idx as int).push(a[p_idx as int]));
                assert(b.take(j + 1) =~= b.take(j as int).push(b[j as int]));
                lemma_val_push(pre.take(p_idx as int), lo);
                lemma_val_push(a.take(p_idx as int), a[p_idx as int]);
                lemma_val_push(b.take(j as int), b[j as int]);
                assert(pre.take(p_idx as int).len() == p_idx);
                assert(a.take(p_idx as int).len() == p_idx);
                assert(b.take(j as int).len() == j);
                lemma_pow2_adds(64 * p_idx as nat, 64);
                lemma_pow2_adds(64 * sh as nat, 64 * j as nat);
                lemma_pow2_adds(64 * sh as nat, 64 * (j + 1) as nat);
                lemma_pow2_adds(64 * j as nat, 64);
                let p = pow2(64 * p_idx as nat);
                let pj = pow2(64 * j as nat);
                assert(p == s_w * pj);
                // the written limb and the new carry absorb a[p], m b[j] and carry
                assert(lo * p + hi * (pow2(64) * p)
                    == a[p_idx as int] * p + ((m as nat) * (b[j as int] as nat)) * p + carry * p)
                    by (nonlinear_arith)
                    requires lo + pow2(64) * hi == a[p_idx as int] + (m as nat) * (b[j as int] as nat) + carry;
                assert(pow2(64) * p == pow2(64 * (p_idx + 1) as nat));
                // m b[j] at limb p equals m (b[j] at limb j) shifted by sh limbs
                assert(((m as nat) * (b[j as int] as nat)) * p == ((m as nat) * ((b[j as int] as nat) * pj)) * s_w)
                    by (nonlinear_arith)
                    requires p == s_w * pj;
                assert(((m as nat) * (limbs_val(b.take(j as int)) + (b[j as int] as nat) * pj)) * s_w
                    == ((m as nat) * limbs_val(b.take(j as int))) * s_w + ((m as nat) * ((b[j as int] as nat) * pj)) * s_w)
                    by (nonlinear_arith);
            }
            carry = hi;
            j = j + 1;
        }
        proof {
            let done = (LIMBS - sh) as int;
            assert(self.limbs().take(LIMBS as int) =~= self.limbs());
            assert(a.take(LIMBS as int) =~= a);
            lemma_val_bound(self.limbs());
            lemma_val_split(b, done);
            lemma_pow2_adds(64 * ((LIMBS - sh) as nat), 64 * sh as nat);
            let tail = limbs_val(b.skip(done));
            let pd = pow2(64 * ((LIMBS - sh) as nat));
            // the limbs of `other` beyond the window carry weight cap() and vanish
            assert(((m as nat) * limbs_val(b)) * s_w
                == ((m as nat) * limbs_val(b.take(done))) * s_w + ((m as nat) * tail) * (pd * s_w))
                by (nonlinear_arith)
                requires limbs_val(b) == limbs_val(b.take(done)) + pd * tail;
            assert(pd * s_w == cap());
            let k = carry as nat + (m as nat) * tail;
            assert(limbs_val(self.limbs()) + k * cap()
                == limbs_val(a) + ((m as nat) * limbs_val(b)) * s_w) by (nonlinear_arith)
                requires
                    limbs_val(self.limbs()) + carry * cap()
                        == limbs_val(a) + ((m as nat) * limbs_val(b.take(done))) * s_w,
                    ((m as nat) * limbs_val(b)) * s_w
                        == ((m as nat) * limbs_val(b.take(done))) * s_w + ((m as nat) * tail) * cap(),
                    k == carry as nat + (m as nat) * tail;
            lemma_fundamental_div_mod_converse_mod(
                (limbs_val(a) + ((m as nat) * limbs_val(b)) * s_w) as int,
                cap() as int, k as int, limbs_val(self.limbs()) as int);
        }
    }

    /// The full product, wrapped at the capacity; exact whenever the
    /// mathematical product fits.
    #[verifier::loop_isolation(false)]
    pub fn mul(&self, other: &BigUint) -> (r: BigUint)
        requires
            self.wf(),
            other.wf(),
        ensures
            r.wf(),
            r.val() == (self.val() * other.val()) % cap(),
    {
        let mut r = BigUint::new();
        let mut i: usize = 0;
        proof {
            lemma_pow2_pos(64 * LIMBS as nat);
            assert(self.limbs().take(0) =~= Seq::<u64>::empty());
            assert(limbs_val(self.limbs().take(0)) * other.val() == 0) by (nonlinear_arith)
                requires limbs_val(self.limbs().take(0)) == 0;
            lemma_small_mod(0, cap());
        }
        while i < LIMBS
            invariant
                r.wf(),
                i <= LIMBS,
                r.val() == (limbs_val(self.limbs().take(i as int)) * other.val()) % cap(),
            decreases LIMBS - i,
        {
            let ghost prod = limbs_val(self.limbs().take(i as int)) * other.val();
            let ghost step = ((self.limbs()[i as int] as nat) * other.val()) * pow2(64 * i as nat);
            proof {
                lemma_val_take_step(self.limbs(), i as int);
                assert(limbs_val(self.limbs().take(i + 1)) * other.val() == prod + step)
                    by (nonlinear_arith)
                    requires
                        limbs_val(self.limbs().take(i + 1))
                            == limbs_val(self.limbs().take(i as int))
                               + self.limbs()[i as int] * pow2(64 * i as nat),
                        prod == limbs_val(self.limbs().take(i as int)) * other.val(),
                        step == ((self.limbs()[i as int] as nat) * other.val()) * pow2(64 * i as nat);
            }
            if self.data[i] != 0 {
                r.add_mul_shifted(self.data[i], other, i);
                proof {
                    lemma_add_mod_noop_right(step as int, prod as int, cap() as int);
                    assert(step + prod % cap() >= 0);
                    assert(r.val() == (step + prod % cap()) % cap());
                    assert(r.val() == (prod + step) % cap());
                }
            } else {
                proof {
                    assert(step == 0) by (nonlinear_arith)
                        requires self.limbs()[i as int] == 0,
                            step == ((self.limbs()[i as int] as nat) * other.val()) * pow2(64 * i as nat);
                }
            }
            i = i + 1;
        }
        proof {
            assert(self.limbs().take(LIMBS as int) =~= self.limbs());
        }
        r
    }

    /// The value divided by `2^(64 k)`: the limbs moved down `k` places.
    #[verifier::loop_isolation(false)]
    pub(crate) fn shr_limbs(&self, k: usize) -> (r: BigUint)
        requires
            self.wf(),
            k <= LIMBS,
        ensures
            r.wf(),
            r.val() == self.val() / pow2(64 * k as nat),
    {
        let mut data: Vec<u64> = Vec::new();
        let mut i: usize = 0;
        proof {
            assert(self.limbs().subrange(k as int, k as int) =~= Seq::<u64>::empty());
        }
        while i < LIMBS
            invariant
                i <= LIMBS,
                data@.len() == i,
                limbs_val(data@) == limbs_val(
                    self.limbs().subrange(k as int, k as int + (if i <= LIMBS - k { i as int } else { (LIMBS - k) as int }))),
            decreases LIMBS - i,
        {
            let ghost pre = data@;
            if i + k < LIMBS {
                let v = self.data[i + k];
                data.push(v);
                proof {
                    lemma_val_push(pre, v);
                    lemma_val_push(self.limbs().subrange(k as int, k + i), v);
                    let hi = k as int + i + 1;
                    assert(self.limbs().subrange(k as int, hi)
                        =~= self.limbs().subrange(k as int, k + i).push(v));
                    assert(pre.len() == i);
                    assert(self.limbs().subrange(k as int, k + i).len() == i);
                }
            } else {
                data.push(0);
                proof {
                    lemma_val_push(pre, 0);
                    assert(0 * pow2(64 * pre.len()) == 0) by (nonlinear_arith);
                }
            }
            i = i + 1;
        }
        let r = BigUint { data };
        proof {
            assert(self.limbs().subrange(k as int, LIMBS as int) =~= self.limbs().skip(k as int));
            lemma_val_split(self.limbs(), k as int);
            lemma_val_bound(self.limbs().take(k as int));
            assert(self.limbs().take(k as int).len() == k);
            lemma_pow2_pos(64 * k as nat);
            assert(pow2(64 * k as nat) * limbs_val(self.limbs().skip(k as int))
                == limbs_val(self.limbs().skip(k as int)) * pow2(64 * k as nat)) by (nonlinear_arith);
            lemma_fundamental_div_mod_converse(
                self.val() as int,
                pow2(64 * k as nat) as int,
                limbs_val(self.limbs().skip(k as int)) as int,
                limbs_val(self.limbs().take(k as int)) as int);
        }
        r
    }

    /// Bit-serial restoring division: quotient and remainder at once.
    #[verifier::loop_isolation(false)]
    pub fn div_rem(&self, other: &BigUint) -> (qr: (BigUint, BigUint))
        requires
            self.wf(),
            other.wf(),
            other.val() > 0,
            2 * other.val() <= cap(),
        ensures
            qr.0.wf(),
            qr.1.wf(),
            self.val() == qr.0.val() * other.val() + qr.1.val(),
            qr.1.val() < other.val(),
    {
        let ghost v = self.val();
        let ghost bv = other.val();
        let mut quot = BigUint::new();
        let mut rem = BigUint::new();
        let bl = self.bit_len();
        let mut idx = bl;
        proof {
            lemma2_to64();
            lemma_pow2_pos(bl as nat);
            lemma_basic_div(v as int, pow2(bl as nat) as int);
            assert(v / pow2(bl as nat) == 0);
            lemma_small_mod(0, bv);
            assert(0nat / bv == 0) by (nonlinear_arith)
                requires bv > 0;
            assert((v / pow2(bl as nat)) / bv == 0);
            assert(((v / pow2(bl as nat)) / bv) * pow2(bl as nat) == 0) by (nonlinear_arith)
                requires (v / pow2(bl as nat)) / bv == 0;
        }
        while idx > 0
            invariant
                quot.wf(),
                rem.wf(),
                idx <= bl,
                rem.val() == (v / pow2(idx as nat)) % bv,
                quot.val() == ((v / pow2(idx as nat)) / bv) * pow2(idx as nat),
                rem.val() < bv,
            decreases idx,
        {
            idx = idx - 1;
            let ghost h = v / pow2((idx + 1) as nat);
            proof {
                lemma_pow2_adds(idx as nat, 1);
                lemma2_to64();
                lemma_pow2_pos(idx as nat);
                lemma_div_denominator(v as int, pow2(idx as nat) as int, 2);
                assert((v / pow2(idx as nat)) / 2 == h);
                lemma_fundamental_div_mod((v / pow2(idx as nat)) as int, 2);
                // doubling the remainder keeps it below the capacity
                lemma_mod_bound(h as int, bv as int);
                assert(2 * rem.val() < cap());
                lemma_small_mod(2 * rem.val(), cap());
            }
            rem.shl_1();
            let bit = self.get_bit(idx);
            let ghost bitv: nat = if bit { 1 } else { 0 };
            if bit {
                rem.set_bit0();
            }
            proof {
                assert(v / pow2(idx as nat) == 2 * h + bitv);
                assert(rem.val() == 2 * (h % bv) + bitv);
                lemma_div_bit_step(h, bv, bitv);
            }
            if rem.ge(other) {
                rem.sub_assign(other);
                proof {
                    // the quotient bit at idx is clear: the quotient so far is a
                    // multiple of 2^(idx+1)
                    let qh = h / bv;
                    assert(quot.val() == (2 * qh) * pow2(idx as nat)) by (nonlinear_arith)
                        requires quot.val() == qh * pow2((idx + 1) as nat),
                            pow2((idx + 1) as nat) == 2 * pow2(idx as nat);
                    lemma_pow2_pos(idx as nat);
                    lemma_div_multiples_vanish((2 * qh) as int, pow2(idx as nat) as int);
                    assert(pow2(idx as nat) * (2 * qh) == (2 * qh) * pow2(idx as nat)) by (nonlinear_arith);
                    assert(quot.val() / pow2(idx as nat) == 2 * qh);
                    lemma_mod_multiples_basic(qh as int, 2);
                    assert((2 * qh) % 2 == 0);
                    assert(!bit_of(quot.val(), idx as nat));
                }
                quot.set_bit(idx);
                proof {
                    let qh = h / bv;
                    assert(quot.val() == (2 * qh + 1) * pow2(idx as nat)) by (nonlinear_arith)
                        requires quot.val() == (2 * qh) * pow2(idx as nat) + pow2(idx as nat);
                }
            } else {
                proof {
                    let qh = h / bv;
                    assert(quot.val() == (2 * qh) * pow2(idx as nat)) by (nonlinear_arith)
                        requires quot.val() == qh * pow2((idx + 1) as nat),
                            pow2((idx + 1) as nat) == 2 * pow2(idx as nat);
                }
            }
        }
        proof {
            lemma2_to64();
            assert(v / pow2(0) == v) by (nonlinear_arith)
                requires pow2(0) == 1;
            assert((v / pow2(0)) % bv == v % bv);
            assert(rem.val() == v % bv);
            assert((v / pow2(0)) / bv == v / bv);
            assert(quot.val() == (v / bv) * pow2(0));
            lemma_mul_basics((v / bv) as int);
            assert((v / bv) * 1 == v / bv);
            assert(quot.val() == v / bv);
            lemma_fundamental_div_mod(v as int, bv as int);
            assert(bv * (v / bv) == (v / bv) * bv) by (nonlinear_arith);
            lemma_mod_bound(v as int, bv as int);
        }
        (quot, rem)
    }

    /// The remainder after division.
    pub fn rem(&self, modulus: &BigUint) -> (r: BigUint)
        requires
            self.wf(),
            modulus.wf(),
            modulus.val() > 0,
            2 * modulus.val() <= cap(),
        ensures
            r.wf(),
            r.val() == self.val() % modulus.val(),
    {
        let (q, r) = self.div_rem(modulus);
        proof {
            lemma_fundamental_div_mod_converse_mod(
                self.val() as int, modulus.val() as int, q.val() as int, r.val() as int);
        }
        r
    }

    /// Multiply then reduce; the caller keeps the product inside the capacity.
    pub fn mul_mod(&self, other: &BigUint, modulus: &BigUint) -> (r: BigUint)
        requires
            self.wf(),
            other.wf(),
            modulus.wf(),
            self.val() * other.val() < cap(),
            modulus.val() > 0,
            2 * modulus.val() <= cap(),
        ensures
            r.wf(),
            r.val() == (self.val() * other.val()) % modulus.val(),
    {
        let product = self.mul(other);
        proof {
            lemma_small_mod(self.val() * other.val(), cap());
        }
        product.rem(modulus)
    }

}

/// Updating one limb changes the value by the difference at that position.
pub proof fn lemma_val_update(s: Seq<u64>, i: int, x: u64)
    requires
        0 <= i < s.len(),
    ensures
        limbs_val(s.update(i, x)) + s[i] * pow2(64 * i as nat)
            == limbs_val(s) + x * pow2(64 * i as nat),
    decreases i,
{
    if i == 0 {
        assert(s.update(0, x).skip(1) =~= s.skip(1));
        lemma2_to64();
    } else {
        lemma_val_update(s.skip(1), i - 1, x);
        assert(s.update(i, x).skip(1) =~= s.skip(1).update(i - 1, x));
        assert(s.update(i, x)[0] == s[0]);
        lemma_pow2_adds(64, 64 * (i - 1) as nat);
        let a = limbs_val(s.skip(1).update(i - 1, x));
        let b = limbs_val(s.skip(1));
        let p = pow2(64 * (i - 1) as nat);
        assert(a + s.skip(1)[i - 1] * p == b + x * p);
        assert(s.skip(1)[i - 1] == s[i]);
        assert(pow2(64) * (a + s[i] * p) == pow2(64) * a + s[i] * (pow2(64) * p)) by (nonlinear_arith);
        assert(pow2(64) * (b + x * p) == pow2(64) * b + x * (pow2(64) * p)) by (nonlinear_arith);
    }
}

/// The lowest limb is the value modulo 2^64.
pub proof fn lemma_val_low_limb(s: Seq<u64>)
    requires
        s.len() > 0,
    ensures
        limbs_val(s) % pow2(64) == s[0],
{
    lemma_u64_below_pow2_64(s[0]);
    lemma_pow2_pos(64);
    assert(limbs_val(s) == s[0] as nat + pow2(64) * limbs_val(s.skip(1)));
    assert((s[0] as nat + pow2(64) * limbs_val(s.skip(1))) % pow2(64) == s[0] as nat) by (nonlinear_arith)
        requires pow2(64) > 0, (s[0] as nat) < pow2(64);
}

} // verus!
