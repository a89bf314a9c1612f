//! SHA-256.
//!
//! The digest is specified by spec functions that follow the standard's
//! description — padding, message schedule, sixty-four compression
//! rounds — and the streaming implementation is proved to compute it.

use vstd::prelude::*;
use vstd::arithmetic::div_mod::{lemma_fundamental_div_mod, lemma_fundamental_div_mod_converse, lemma_small_mod};
use vstd::arithmetic::power2::{pow2, lemma2_to64, lemma2_to64_rest, lemma_pow2_pos, lemma_pow2_adds, lemma_pow2_strictly_increases};

verus! {

/// Addition of 32-bit words, wrapping.
pub open spec fn s_wadd(a: u32, b: u32) -> u32 {
    ((a + b) % 0x100000000) as u32
}

/// Right rotation of a 32-bit word.
pub open spec fn s_rotr(x: u32, n: u32) -> u32
    recommends
        0 < n < 32,
{
    (x >> n) | (x << ((32 - n) as u32))
}

/// The choice function of the compression rounds.
pub open spec fn s_ch(e: u32, f: u32, g: u32) -> u32 {
    (e & f) ^ ((!e) & g)
}

/// The majority function of the compression rounds.
pub open spec fn s_maj(a: u32, b: u32, c: u32) -> u32 {
    (a & b) ^ (a & c) ^ (b & c)
}

/// The big sigma-0 round function.
pub open spec fn s_bsig0(a: u32) -> u32 {
    s_rotr(a, 2) ^ s_rotr(a, 13) ^ s_rotr(a, 22)
}

/// The big sigma-1 round function.
pub open spec fn s_bsig1(e: u32) -> u32 {
    s_rotr(e, 6) ^ s_rotr(e, 11) ^ s_rotr(e, 25)
}

/// The small sigma-0 schedule function.
pub open spec fn s_ssig0(x: u32) -> u32 {
    s_rotr(x, 7) ^ s_rotr(x, 18) ^ (x >> 3u32)
}

/// The small sigma-1 schedule function.
pub open spec fn s_ssig1(x: u32) -> u32 {
    s_rotr(x, 17) ^ s_rotr(x, 19) ^ (x >> 10u32)
}

/// The round constants.
pub open spec fn k_seq() -> Seq<u32> {
    seq![
        0x428a2f98u32, 0x71374491u32, 0xb5c0fbcfu32, 0xe9b5dba5u32,
        0x3956c25bu32, 0x59f111f1u32, 0x923f82a4u32, 0xab1c5ed5u32,
        0xd807aa98u32, 0x12835b01u32, 0x243185beu32, 0x550c7dc3u32,
        0x72be5d74u32, 0x80deb1feu32, 0x9bdc06a7u32, 0xc19bf174u32,
        0xe49b69c1u32, 0xefbe4786u32, 0x0fc19dc6u32, 0x240ca1ccu32,
        0x2de92c6fu32, 0x4a7484aau32, 0x5cb0a9dcu32, 0x76f988dau32,
        0x983e5152u32, 0xa831c66du32, 0xb00327c8u32, 0xbf597fc7u32,
        0xc6e00bf3u32, 0xd5a79147u32, 0x06ca6351u32, 0x14292967u32,
        0x27b70a85u32, 0x2e1b2138u32, 0x4d2c6dfcu32, 0x53380d13u32,
        0x650a7354u32, 0x766a0abbu32, 0x81c2c92eu32, 0x92722c85u32,
        0xa2bfe8a1u32, 0xa81a664bu32, 0xc24b8b70u32, 0xc76c51a3u32,
        0xd192e819u32, 0xd6990624u32, 0xf40e3585u32, 0x106aa070u32,
        0x19a4c116u32, 0x1e376c08u32, 0x2748774cu32, 0x34b0bcb5u32,
        0x391c0cb3u32, 0x4ed8aa4au32, 0x5b9cca4fu32, 0x682e6ff3u32,
        0x748f82eeu32, 0x78a5636fu32, 0x84c87814u32, 0x8cc70208u32,
        0x90befffau32, 0xa4506cebu32, 0xbef9a3f7u32, 0xc67178f2u32,
    ]
}

/// The initial hash state.
pub open spec fn iv_seq() -> Seq<u32> {
    seq![
        0x6a09e667u32, 0xbb67ae85u32, 0x3c6ef372u32, 0xa54ff53au32,
        0x510e527fu32, 0x9b05688cu32, 0x1f83d9abu32, 0x5be0cd19u32,
    ]
}

/// Word `i` of a 64-byte block, big endian.
pub open spec fn s_be_word(b: Seq<u8>, i: int) -> u32
    recommends
        0 <= i < 16,
        b.len() == 64,
{
    ((b[4 * i] as nat) * 0x1000000 + (b[4 * i + 1] as nat) * 0x10000
        + (b[4 * i + 2] as nat) * 0x100 + (b[4 * i + 3] as nat)) as u32
}

/// The sixteen words of a 64-byte block.
pub open spec fn block_words(b: Seq<u8>) -> Seq<u32> {
    Seq::new(16, |i: int| s_be_word(b, i))
}

/// Word `t` of the message schedule.
pub open spec fn sched(blk: Seq<u32>, t: nat) -> u32
    decreases t,
{
    if t < 16 {
        if t < blk.len() {
            blk[t as int]
        } else {
            0
        }
    } else {
        s_wadd(
            s_wadd(
                s_wadd(s_ssig1(sched(blk, (t - 2) as nat)), sched(blk, (t - 7) as nat)),
                s_ssig0(sched(blk, (t - 15) as nat)),
            ),
            sched(blk, (t - 16) as nat),
        )
    }
}

/// One compression round applied to the eight working registers.
pub open spec fn s_round(h: Seq<u32>, kt: u32, wt: u32) -> Seq<u32>
    recommends
        h.len() == 8,
{
    let t1 = s_wadd(s_wadd(s_wadd(s_wadd(h[7], s_bsig1(h[4])), s_ch(h[4], h[5], h[6])), kt), wt);
    let t2 = s_wadd(s_bsig0(h[0]), s_maj(h[0], h[1], h[2]));
    seq![s_wadd(t1, t2), h[0], h[1], h[2], s_wadd(h[3], t1), h[4], h[5], h[6]]
}

/// The working registers after `t` rounds.
pub open spec fn s_rounds(h: Seq<u32>, blk: Seq<u32>, t: nat) -> Seq<u32>
    decreases t,
{
    if t == 0 {
        h
    } else {
        s_round(s_rounds(h, blk, (t - 1) as nat), k_seq()[t - 1], sched(blk, (t - 1) as nat))
    }
}

/// One 64-byte block folded into the state.
#[verifier::opaque]
pub open spec fn s_compress(state: Seq<u32>, block: Seq<u8>) -> Seq<u32>
    recommends
        state.len() == 8,
        block.len() == 64,
{
    let f = s_rounds(state, block_words(block), 64);
    Seq::new(8, |i: int| s_wadd(state[i], f[i]))
}

/// Every full 64-byte block of `bytes` folded into the state in order.
pub open spec fn s_chunks(state: Seq<u32>, bytes: Seq<u8>) -> Seq<u32>
    decreases bytes.len(),
{
    if bytes.len() < 64 {
        state
    } else {
        s_chunks(s_compress(state, bytes.take(64)), bytes.skip(64))
    }
}

/// How many zero bytes the padding inserts for a message of `l` bytes.
pub open spec fn pad_zero_count(l: nat) -> nat {
    ((64 - ((l + 9) % 64)) % 64) as nat
}

/// The eight big-endian bytes of the message bit length.
pub open spec fn len_bytes(l: nat) -> Seq<u8> {
    let bits = 8 * l;
    seq![
        ((bits / 0x100000000000000) % 0x100) as u8,
        ((bits / 0x1000000000000) % 0x100) as u8,
        ((bits / 0x10000000000) % 0x100) as u8,
        ((bits / 0x100000000) % 0x100) as u8,
        ((bits / 0x1000000) % 0x100) as u8,
        ((bits / 0x10000) % 0x100) as u8,
        ((bits / 0x100) % 0x100) as u8,
        (bits % 0x100) as u8,
    ]
}

/// The padding appended to a message of `l` bytes.
pub open spec fn s_pad(l: nat) -> Seq<u8> {
    seq![0x80u8] + Seq::new(pad_zero_count(l), |i: int| 0u8) + len_bytes(l)
}

/// Byte `j` of a state word, big endian.
pub open spec fn word_byte(w: u32, j: int) -> u8
    recommends
        0 <= j < 4,
{
    let d: nat = if j == 0 { 0x1000000 } else if j == 1 { 0x10000 } else if j == 2 { 0x100 } else { 1 };
    (((w as nat) / d) % 0x100) as u8
}

/// The 32 bytes of a final state.
pub open spec fn state_bytes(st: Seq<u32>) -> Seq<u8> {
    Seq::new(32, |i: int| word_byte(st[i / 4], i % 4))
}

/// The SHA-256 digest of a byte string.
#[verifier::opaque]
pub open spec fn sha256_spec(msg: Seq<u8>) -> Seq<u8> {
    state_bytes(s_chunks(iv_seq(), msg + s_pad(msg.len())))
}

/// A digest is always 32 bytes.
pub proof fn lemma_sha256_len(msg: Seq<u8>)
    ensures
        sha256_spec(msg).len() == 32,
{
    reveal(sha256_spec);
}

/// Addition of 32-bit words, wrapping.
fn wadd(a: u32, b: u32) -> (r: u32)
    ensures
        r == s_wadd(a, b),
{
    (((a as u64) + (b as u64)) % 0x100000000u64) as u32
}

/// Right rotation.
fn rotr(x: u32, n: u32) -> (r: u32)
    requires
        0 < n < 32,
    ensures
        r == s_rotr(x, n),
{
    (x >> n) | (x << (32 - n))
}

/// The choice function.
fn choice(e: u32, f: u32, g: u32) -> (r: u32)
    ensures
        r == s_ch(e, f, g),
{
    (e & f) ^ ((!e) & g)
}

/// The majority function.
fn majority(a: u32, b: u32, c: u32) -> (r: u32)
    ensures
        r == s_maj(a, b, c),
{
    (a & b) ^ (a & c) ^ (b & c)
}

/// The big sigma-0 round function.
fn big_sigma0(a: u32) -> (r: u32)
    ensures
        r == s_bsig0(a),
{
    rotr(a, 2) ^ rotr(a, 13) ^ rotr(a, 22)
}

/// The big sigma-1 round function.
fn big_sigma1(e: u32) -> (r: u32)
    ensures
        r == s_bsig1(e),
{
    rotr(e, 6) ^ rotr(e, 11) ^ rotr(e, 25)
}

/// The small sigma-0 schedule function.
fn small_sigma0(x: u32) -> (r: u32)
    ensures
        r == s_ssig0(x),
{
    rotr(x, 7) ^ rotr(x, 18) ^ (x >> 3)
}

/// The small sigma-1 schedule function.
fn small_sigma1(x: u32) -> (r: u32)
    ensures
        r == s_ssig1(x),
{
    rotr(x, 17) ^ rotr(x, 19) ^ (x >> 10)
}

/// The round constant table.
#[verifier::loop_isolation(false)]
fn k_table() -> (v: Vec<u32>)
    ensures
        v@ == k_seq(),
{
    let v: Vec<u32> = vec![
        0x428a2f98, 0x71374491, 0xb5c0fbcf, 0xe9b5dba5,
        0x3956c25b, 0x59f111f1, 0x923f82a4, 0xab1c5ed5,
        0xd807aa98, 0x12835b01, 0x243185be, 0x550c7dc3,
        0x72be5d74, 0x80deb1fe, 0x9bdc06a7, 0xc19bf174,
        0xe49b69c1, 0xefbe4786, 0x0fc19dc6, 0x240ca1cc,
        0x2de92c6f, 0x4a7484aa, 0x5cb0a9dc, 0x76f988da,
        0x983e5152, 0xa831c66d, 0xb00327c8, 0xbf597fc7,
        0xc6e00bf3, 0xd5a79147, 0x06ca6351, 0x14292967,
        0x27b70a85, 0x2e1b2138, 0x4d2c6dfc, 0x53380d13,
        0x650a7354, 0x766a0abb, 0x81c2c92e, 0x92722c85,
        0xa2bfe8a1, 0xa81a664b, 0xc24b8b70, 0xc76c51a3,
        0xd192e819, 0xd6990624, 0xf40e3585, 0x106aa070,
        0x19a4c116, 0x1e376c08, 0x2748774c, 0x34b0bcb5,
        0x391c0cb3, 0x4ed8aa4a, 0x5b9cca4f, 0x682e6ff3,
        0x748f82ee, 0x78a5636f, 0x84c87814, 0x8cc70208,
        0x90befffa, 0xa4506ceb, 0xbef9a3f7, 0xc67178f2,
    ];
    proof {
        assert(v@ =~= k_seq());
    }
    v
}

/// Folding one whole block after a block-aligned prefix is one more
/// compression.
#[verifier::rlimit(100)]
proof fn lemma_chunks_snoc(s: Seq<u32>, p: Seq<u8>, b: Seq<u8>)
    requires
        p.len() % 64 == 0,
        b.len() == 64,
    ensures
        s_chunks(s, p + b) == s_compress(s_chunks(s, p), b),
    decreases p.len(),
{
    if p.len() == 0 {
        assert(p + b =~= b);
        assert(b.take(64) =~= b);
        assert(b.skip(64) =~= Seq::<u8>::empty());
        assert(s_chunks(s, b) == s_chunks(s_compress(s, b.take(64)), b.skip(64)));
        assert(s_compress(s, b.take(64)) == s_compress(s, b));
        assert(s_chunks(s_compress(s, b), Seq::<u8>::empty()) == s_compress(s, b));
        assert(s_chunks(s, p) == s);
    } else {
        assert(p.len() >= 64) by {
            if p.len() < 64 {
                vstd::arithmetic::div_mod::lemma_small_mod(p.len(), 64);
            }
        }
        assert((p + b).take(64) =~= p.take(64));
        assert((p + b).skip(64) =~= p.skip(64) + b);
        assert(p.skip(64).len() % 64 == 0) by {
            vstd::arithmetic::div_mod::lemma_fundamental_div_mod(p.len() as int, 64);
            vstd::arithmetic::div_mod::lemma_fundamental_div_mod_converse(
                p.len() - 64, 64, p.len() as int / 64 - 1, 0);
        }
        lemma_chunks_snoc(s_compress(s, p.take(64)), p.skip(64), b);
        assert(s_compress(s, (p + b).take(64)) == s_compress(s, p.take(64)));
        assert(s_chunks(s, p + b)
            == s_chunks(s_compress(s, (p + b).take(64)), (p + b).skip(64)));
        assert(s_chunks(s, p + b) == s_chunks(s_compress(s, p.take(64)), p.skip(64) + b));
        assert(s_chunks(s, p) == s_chunks(s_compress(s, p.take(64)), p.skip(64)));
        assert(s_compress(s_chunks(s, p), b)
            == s_compress(s_chunks(s_compress(s, p.take(64)), p.skip(64)), b));
    }
}

/// The eight state words as 32 big-endian bytes.
#[verifier::loop_isolation(false)]
fn state_out(state: &Vec<u32>) -> (r: Vec<u8>)
    requires
        state@.len() == 8,
    ensures
        r@.len() == 32,
        r@ == state_bytes(state@),
{
    let ghost stf = state@;
    let mut out: Vec<u8> = Vec::new();
    let mut i: usize = 0;
    while i < 8
        invariant
            out@.len() == 4 * i,
            i <= 8,
            forall|q: int| 0 <= q < 4 * i ==> out@[q] == state_bytes(stf)[q],
        decreases 8 - i,
    {
        let w = state[i];
        out.push(((w / 0x1000000) % 0x100) as u8);
        out.push(((w / 0x10000) % 0x100) as u8);
        out.push(((w / 0x100) % 0x100) as u8);
        out.push((w % 0x100) as u8);
        proof {
            assert forall|q: int| 4 * i <= q < 4 * i + 4
                implies #[trigger] out@[q] == state_bytes(stf)[q] by {
                lemma_fundamental_div_mod_converse(q, 4, i as int, q - 4 * i);
            }
        }
        i = i + 1;
    }
    proof {
        assert(out@ =~= state_bytes(stf));
    }
    out
}

/// Streaming SHA-256: bytes go in through [`Sha256::update`], the 32-byte
/// digest comes out of [`Sha256::finalize`].
pub struct Sha256 {
    state: Vec<u32>,
    buf: Vec<u8>,
    buf_len: usize,
    bit_len: u64,
    msg: Ghost<Seq<u8>>,
}

impl Sha256 {
    /// The bytes absorbed so far.
    pub closed spec fn msg(&self) -> Seq<u8> {
        self.msg@
    }

    /// Internal invariant: the state holds the fold of all full blocks,
    /// the buffer the remaining tail, and the counter the bit length.
    pub closed spec fn wf(&self) -> bool {
        &&& self.state@.len() == 8
        &&& self.buf@.len() == 64
        &&& self.buf_len < 64
        &&& self.msg@.len() < pow2(61)
        &&& self.bit_len == 8 * self.msg@.len()
        &&& self.msg@.len() % 64 == self.buf_len
        &&& self.buf@.take(self.buf_len as int)
            == self.msg@.skip(self.msg@.len() - self.buf_len)
        &&& self.state@ == s_chunks(iv_seq(), self.msg@.take(self.msg@.len() - self.buf_len))
    }

    /// A fresh hash state.
    #[verifier::loop_isolation(false)]
    pub fn new() -> (r: Sha256)
        ensures
            r.wf(),
            r.msg() == Seq::<u8>::empty(),
    {
        let state: Vec<u32> = vec![
            0x6a09e667, 0xbb67ae85, 0x3c6ef372, 0xa54ff53a,
            0x510e527f, 0x9b05688c, 0x1f83d9ab, 0x5be0cd19,
        ];
        let mut buf: Vec<u8> = Vec::new();
        let mut i: usize = 0;
        while i < 64
            invariant
                buf@.len() == i,
                i <= 64,
            decreases 64 - i,
        {
            buf.push(0);
            i = i + 1;
        }
        let r = Sha256 { state, buf, buf_len: 0, bit_len: 0, msg: Ghost(Seq::empty()) };
        proof {
            lemma_pow2_pos(61);
            assert(r.state@ =~= iv_seq());
            assert(r.buf@.take(0) =~= Seq::<u8>::empty());
            assert(r.msg@.skip(0) =~= Seq::<u8>::empty());
            assert(r.msg@.take(0) =~= Seq::<u8>::empty());
        }
        r
    }

    /// One compression of the 64-byte buffer into the state.
    #[verifier::loop_isolation(false)]
    fn transform(&mut self)
        requires
            old(self).state@.len() == 8,
            old(self).buf@.len() == 64,
        ensures
            final(self).state@.len() == 8,
            final(self).state@ == s_compress(old(self).state@, old(self).buf@),
            final(self).buf@ == old(self).buf@,
            final(self).buf_len == old(self).buf_len,
            final(self).bit_len == old(self).bit_len,
            final(self).msg@ == old(self).msg@,
    {
        let ghost st0 = self.state@;
        let ghost blk = block_words(self.buf@);

        // message schedule
        let mut m: Vec<u32> = Vec::new();
        let mut t: usize = 0;
        while t < 16
            invariant
                m@.len() == t,
                t <= 16,
                forall|j: int| 0 <= j < t ==> m@[j] == sched(blk, j as nat),
            decreases 16 - t,
        {
            let w = (self.buf[4 * t] as u32) * 0x1000000
                + (self.buf[4 * t + 1] as u32) * 0x10000
                + (self.buf[4 * t + 2] as u32) * 0x100
                + (self.buf[4 * t + 3] as u32);
            proof {
                assert(blk[t as int] == s_be_word(self.buf@, t as int));
                assert(w == sched(blk, t as nat));
            }
            m.push(w);
            t = t + 1;
        }
        while t < 64
            invariant
                m@.len() == t,
                16 <= t <= 64,
                forall|j: int| 0 <= j < t ==> m@[j] == sched(blk, j as nat),
            decreases 64 - t,
        {
            let w = wadd(
                wadd(wadd(small_sigma1(m[t - 2]), m[t - 7]), small_sigma0(m[t - 15])),
                m[t - 16],
            );
            proof {
                assert(w == sched(blk, t as nat));
            }
            m.push(w);
            t = t + 1;
        }

        // sixty-four rounds over the working registers
        let kt = k_table();
        let mut regs: Vec<u32> = Vec::new();
        let mut r: usize = 0;
        while r < 8
            invariant
                regs@.len() == r,
                r <= 8,
                forall|j: int| 0 <= j < r ==> regs@[j] == st0[j],
            decreases 8 - r,
        {
            regs.push(self.state[r]);
            r = r + 1;
        }
        proof {
            assert(regs@ =~= s_rounds(st0, blk, 0));
        }
        let mut t2i: usize = 0;
        while t2i < 64
            invariant
                regs@.len() == 8,
                t2i <= 64,
                regs@ == s_rounds(st0, blk, t2i as nat),
            decreases 64 - t2i,
        {
            let ghost pre = regs@;
            let a = regs[0];
            let b = regs[1];
            let c = regs[2];
            let d = regs[3];
            let e = regs[4];
            let f = regs[5];
            let g = regs[6];
            let hh = regs[7];
            let t1 = wadd(wadd(wadd(wadd(hh, big_sigma1(e)), choice(e, f, g)), kt[t2i]), m[t2i]);
            let t2 = wadd(big_sigma0(a), majority(a, b, c));
            regs.set(7, g);
            regs.set(6, f);
            regs.set(5, e);
            regs.set(4, wadd(d, t1));
            regs.set(3, c);
            regs.set(2, b);
            regs.set(1, a);
            regs.set(0, wadd(t1, t2));
            proof {
                assert(regs@ =~= s_round(pre, k_seq()[t2i as int], sched(blk, t2i as nat)));
            }
            t2i = t2i + 1;
        }

        // fold the registers back into the state
        let mut i: usize = 0;
        while i < 8
            invariant
                self.state@.len() == 8,
                i <= 8,
                regs@.len() == 8,
                self.buf@ == old(self).buf@,
                self.buf_len == old(self).buf_len,
                self.bit_len == old(self).bit_len,
                self.msg@ == old(self).msg@,
                forall|j: int| 0 <= j < i ==> self.state@[j] == s_wadd(st0[j], regs@[j]),
                forall|j: int| i <= j < 8 ==> self.state@[j] == st0[j],
            decreases 8 - i,
        {
            let nv = wadd(self.state[i], regs[i]);
            self.state.set(i, nv);
            i = i + 1;
        }
        proof {
            reveal(s_compress);
            assert(self.state@ =~= s_compress(st0, self.buf@));
        }
    }

    /// Absorb more bytes; any chunking gives the same digest.
    #[verifier::loop_isolation(false)]
    pub fn update(&mut self, input: &[u8])
        requires
            old(self).wf(),
            old(self).msg().len() + input@.len() < pow2(61),
        ensures
            final(self).wf(),
            final(self).msg() == old(self).msg() + input@,
    {
        let n = input.len();
        let mut j: usize = 0;
        proof {
            assert(old(self).msg@ + input@.take(0) =~= old(self).msg@);
        }
        while j < n
            invariant
                self.wf(),
                j <= n,
                self.msg@ == old(self).msg@ + input@.take(j as int),
            decreases n - j,
        {
            let b = input[j];
            let ghost msg0 = self.msg@;
            let ghost len0 = msg0.len() as int;
            let ghost bl0 = self.buf_len as int;
            proof {
                lemma2_to64();
                lemma2_to64_rest();
                assert(len0 + 1 < pow2(61));
            }
            let bl = self.buf_len;
            let ghost buf0 = self.buf@;
            self.buf.set(bl, b);
            self.buf_len = bl + 1;
            self.bit_len = self.bit_len + 8;
            self.msg = Ghost(self.msg@.push(b));
            let ghost len1 = len0 + 1;
            proof {
                lemma_fundamental_div_mod(len0, 64);
                if bl0 + 1 == 64 {
                    lemma_fundamental_div_mod_converse(len1, 64, len0 / 64 + 1, 0);
                } else {
                    lemma_fundamental_div_mod_converse(len1, 64, len0 / 64, bl0 + 1);
                }
                assert(self.msg@.take(len1 - (bl0 + 1)) =~= msg0.take(len0 - bl0));
                assert(self.buf@.take(bl0 + 1) =~= buf0.take(bl0).push(b));
                assert(self.msg@.skip(len1 - (bl0 + 1)) =~= msg0.skip(len0 - bl0).push(b));
            }
            if self.buf_len == 64 {
                proof {
                    assert(self.buf@.take(64) =~= self.buf@);
                }
                let ghost stp = self.state@;
                self.transform();
                self.buf_len = 0;
                proof {
                    lemma_fundamental_div_mod_converse(len1 - 64, 64, len1 / 64 - 1, 0);
                    lemma_chunks_snoc(iv_seq(), self.msg@.take(len1 - 64), self.buf@);
                    assert(self.msg@.take(len1 - 64) + self.buf@ =~= self.msg@);
                    assert(self.msg@.take(len1) =~= self.msg@);
                    assert(self.msg@.skip(len1) =~= Seq::<u8>::empty());
                    assert(self.buf@.take(0) =~= Seq::<u8>::empty());
                }
            }
            proof {
                assert(self.msg@ =~= old(self).msg@ + input@.take(j + 1));
            }
            j = j + 1;
        }
        proof {
            assert(input@.take(n as int) =~= input@);
        }
    }

    /// Fold in the padding when it fits the current block.
    #[verifier::loop_isolation(false)]
    #[verifier::rlimit(100)]
    fn finish_short(&mut self)
        requires
            old(self).wf(),
            old(self).buf_len <= 55,
        ensures
            final(self).state@.len() == 8,
            final(self).state@
                == s_chunks(iv_seq(), old(self).msg@ + s_pad(old(self).msg@.len())),
    {
        let ghost msgv = self.msg@;
        let ghost l = msgv.len();
        let ghost bl0 = self.buf_len as int;
        let ghost processed = l - bl0;
        let ghost padded = msgv + s_pad(l);
        proof {
            lemma_fundamental_div_mod(l as int, 64);
            if bl0 + 9 < 64 {
                lemma_fundamental_div_mod_converse((l + 9) as int, 64, l as int / 64, bl0 + 9);
            } else {
                lemma_fundamental_div_mod_converse((l + 9) as int, 64, l as int / 64 + 1, 0);
            }
            assert(pad_zero_count(l) == 55 - bl0);
            lemma_fundamental_div_mod_converse(processed, 64, l as int / 64, 0);
            assert(processed % 64 == 0);
        }
        let bl = self.buf_len;
        let ghost bufq = self.buf@;
        self.buf.set(bl, 0x80);
        let mut p = bl + 1;
        proof {
            assert(self.buf@.take(bl0) =~= bufq.take(bl0));
        }
        while p < 56
            invariant
                self.buf@.len() == 64,
                bl0 + 1 <= p <= 56,
                self.buf@.take(bl0) == msgv.skip(processed),
                self.buf@[bl0] == 0x80,
                forall|q: int| bl0 + 1 <= q < p ==> self.buf@[q] == 0,
                self.state@ == s_chunks(iv_seq(), msgv.take(processed)),
                self.state@.len() == 8,
                self.bit_len == 8 * l,
            decreases 56 - p,
        {
            self.buf.set(p, 0);
            p = p + 1;
        }
        let ghost bufz = self.buf@;
        let bits = self.bit_len;
        self.buf.set(56, ((bits / 0x100000000000000u64) % 0x100) as u8);
        self.buf.set(57, ((bits / 0x1000000000000u64) % 0x100) as u8);
        self.buf.set(58, ((bits / 0x10000000000u64) % 0x100) as u8);
        self.buf.set(59, ((bits / 0x100000000u64) % 0x100) as u8);
        self.buf.set(60, ((bits / 0x1000000u64) % 0x100) as u8);
        self.buf.set(61, ((bits / 0x10000u64) % 0x100) as u8);
        self.buf.set(62, ((bits / 0x100u64) % 0x100) as u8);
        self.buf.set(63, (bits % 0x100u64) as u8);
        proof {
            assert(self.buf@.take(56) =~= bufz.take(56));
            assert forall|q: int| 0 <= q < 64
                implies self.buf@[q] == padded.skip(processed)[q] by {
                assert(padded.skip(processed)[q] == padded[processed + q]);
                if q < bl0 {
                    assert(self.buf@[q] == bufz.take(56)[q]);
                    assert(bufz[q] == bufz.take(bl0)[q]);
                    assert(msgv.skip(processed)[q] == msgv[processed + q]);
                } else if q == bl0 {
                    assert(padded[processed + q] == s_pad(l)[0]);
                } else if q < 56 {
                    assert(padded[processed + q] == s_pad(l)[q - bl0]);
                    assert(s_pad(l)[q - bl0] == 0);
                } else {
                    assert(padded[processed + q] == s_pad(l)[q - bl0]);
                    assert(s_pad(l)[q - bl0] == len_bytes(l)[q - 56]);
                }
            }
            assert(self.buf@ =~= padded.skip(processed));
        }
        self.transform();
        proof {
            lemma_chunks_snoc(iv_seq(), msgv.take(processed), self.buf@);
            assert(padded.take(processed) =~= msgv.take(processed));
            assert(msgv.take(processed) + self.buf@ =~= padded);
        }
    }

    /// Fold in the padding when it spills into a second block.
    #[verifier::loop_isolation(false)]
    #[verifier::rlimit(100)]
    fn finish_long(&mut self)
        requires
            old(self).wf(),
            old(self).buf_len >= 56,
        ensures
            final(self).state@.len() == 8,
            final(self).state@
                == s_chunks(iv_seq(), old(self).msg@ + s_pad(old(self).msg@.len())),
    {
        let ghost msgv = self.msg@;
        let ghost l = msgv.len();
        let ghost bl0 = self.buf_len as int;
        let ghost processed = l - bl0;
        let ghost padded = msgv + s_pad(l);
        proof {
            lemma_fundamental_div_mod(l as int, 64);
            lemma_fundamental_div_mod_converse((l + 9) as int, 64, l as int / 64 + 1, bl0 + 9 - 64);
            assert(pad_zero_count(l) == 119 - bl0);
            lemma_fundamental_div_mod_converse(processed, 64, l as int / 64, 0);
            assert(processed % 64 == 0);
        }
        let bl = self.buf_len;
        let ghost bufq = self.buf@;
        self.buf.set(bl, 0x80);
        let mut p = bl + 1;
        proof {
            assert(self.buf@.take(bl0) =~= bufq.take(bl0));
        }
        while p < 64
            invariant
                self.buf@.len() == 64,
                bl0 + 1 <= p <= 64,
                self.buf@.take(bl0) == msgv.skip(processed),
                self.buf@[bl0] == 0x80,
                forall|q: int| bl0 + 1 <= q < p ==> self.buf@[q] == 0,
                self.state@ == s_chunks(iv_seq(), msgv.take(processed)),
                self.state@.len() == 8,
                self.bit_len == 8 * l,
            decreases 64 - p,
        {
            self.buf.set(p, 0);
            p = p + 1;
        }
        proof {
            assert forall|q: int| 0 <= q < 64
                implies self.buf@[q] == padded.subrange(processed, processed + 64)[q] by {
                assert(padded.subrange(processed, processed + 64)[q] == padded[processed + q]);
                if q < bl0 {
                    assert(self.buf@[q] == self.buf@.take(bl0)[q]);
                    assert(msgv.skip(processed)[q] == msgv[processed + q]);
                } else if q == bl0 {
                    assert(padded[processed + q] == s_pad(l)[0]);
                } else {
                    assert(padded[processed + q] == s_pad(l)[q - bl0]);
                    assert(s_pad(l)[q - bl0] == 0);
                }
            }
            assert(self.buf@ =~= padded.subrange(processed, processed + 64));
        }
        self.transform();
        proof {
            lemma_chunks_snoc(iv_seq(), msgv.take(processed), self.buf@);
            assert(padded.take(processed) =~= msgv.take(processed));
            assert(msgv.take(processed) + self.buf@ =~= padded.take(processed + 64));
            assert(self.state@ == s_chunks(iv_seq(), padded.take(processed + 64)));
        }
        let mut p2: usize = 0;
        while p2 < 56
            invariant
                self.buf@.len() == 64,
                p2 <= 56,
                forall|q: int| 0 <= q < p2 ==> self.buf@[q] == 0,
                self.state@ == s_chunks(iv_seq(), padded.take(processed + 64)),
                self.state@.len() == 8,
                self.bit_len == 8 * l,
            decreases 56 - p2,
        {
            self.buf.set(p2, 0);
            p2 = p2 + 1;
        }
        let ghost bufz = self.buf@;
        let bits = self.bit_len;
        self.buf.set(56, ((bits / 0x100000000000000u64) % 0x100) as u8);
        self.buf.set(57, ((bits / 0x1000000000000u64) % 0x100) as u8);
        self.buf.set(58, ((bits / 0x10000000000u64) % 0x100) as u8);
        self.buf.set(59, ((bits / 0x100000000u64) % 0x100) as u8);
        self.buf.set(60, ((bits / 0x1000000u64) % 0x100) as u8);
        self.buf.set(61, ((bits / 0x10000u64) % 0x100) as u8);
        self.buf.set(62, ((bits / 0x100u64) % 0x100) as u8);
        self.buf.set(63, (bits % 0x100u64) as u8);
        proof {
            assert(self.buf@.take(56) =~= bufz.take(56));
            assert forall|q: int| 0 <= q < 64
                implies self.buf@[q] == padded.skip(processed + 64)[q] by {
                assert(padded.skip(processed + 64)[q] == padded[processed + 64 + q]);
                assert(padded[processed + 64 + q] == s_pad(l)[64 - bl0 + q]);
                if q < 56 {
                    assert(self.buf@[q] == bufz.take(56)[q]);
                    assert(s_pad(l)[64 - bl0 + q] == 0);
                } else {
                    assert(s_pad(l)[64 - bl0 + q] == len_bytes(l)[q - 56]);
                }
            }
            assert(self.buf@ =~= padded.skip(processed + 64));
        }
        self.transform();
        proof {
            lemma_fundamental_div_mod_converse(processed + 64, 64, l as int / 64 + 1, 0);
            lemma_chunks_snoc(iv_seq(), padded.take(processed + 64), self.buf@);
            assert(padded.take(processed + 64) + self.buf@ =~= padded);
        }
    }

    /// Pad, fold the final block or blocks, and hand out the digest.
    pub fn finalize(self) -> (r: Vec<u8>)
        requires
            self.wf(),
        ensures
            r@.len() == 32,
            r@ == sha256_spec(self.msg()),
    {
        let mut h = self;
        if h.buf_len <= 55 {
            h.finish_short();
        } else {
            h.finish_long();
        }
        proof {
            reveal(sha256_spec);
        }
        state_out(&h.state)
    }

    /// The digest of a byte string in one call.
    pub fn digest(input: &[u8]) -> (r: Vec<u8>)
        requires
            input@.len() < pow2(61),
        ensures
            r@.len() == 32,
            r@ == sha256_spec(input@),
    {
        let mut h = Sha256::new();
        h.update(input);
        proof {
            assert(Seq::<u8>::empty() + input@ =~= input@);
        }
        h.finalize()
    }
}

} // verus!
