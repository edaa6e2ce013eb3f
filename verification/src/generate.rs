//! The four-lane core: PCG64, TinyMT64 and a 128-bit multiply-with-carry generator in
//! each lane, a scalar xoshiro256** generator, and the mix that turns one step of all
//! of them into a block of output.
use vstd::prelude::*;
use core::marker::PhantomData;
use crate::reproducibility::Reproducibility;
use crate::simd::{
    Simd64, add128_lane, carry_bit, mul128x64_lane, mulsmall_lane, pow64, pow128, u128_of, wmul,
};
use vstd::arithmetic::div_mod::{lemma_fundamental_div_mod_converse, lemma_mod_bound};

verus! {

/// Number of `u64` words in one block of output: the three four-lane vectors that one
/// step's mix produces, 96 bytes.
pub const BLOCK_SIZE: usize = 12;

/// Mask applied to the first TinyMT64 word, which holds 63 bits of state.
pub const TINYMT64_LANE_MASK: u64 = 0x7fff_ffff_ffff_ffff;

/// TinyMT64 parameter `mat1`.
pub const TINYMT_MAT1: u64 = 0xdaa51b54;

/// TinyMT64 parameter `mat2`, shifted into the high word.
pub const TINYMT_MAT2: u64 = 0xfed47fb5_0000_0000;

/// TinyMT64 tempering parameter.
pub const TINYMT_TMAT: u64 = 0xa853e7ffeffefffe;

/// The state of the generator: four lanes of PCG64, TinyMT64 and multiply-with-carry,
/// one xoshiro256** and a Weyl counter.
#[derive(Debug)]
pub struct TripleMixSimdCore<R: Reproducibility> {
    pub(crate) pcg_state_lo: Simd64,
    pub(crate) pcg_state_hi: Simd64,
    pub(crate) pcg_inc_lo: Simd64,
    pub(crate) pcg_inc_hi: Simd64,
    pub(crate) tm0: Simd64,
    pub(crate) tm1: Simd64,
    pub(crate) mwc_state: Simd64,
    pub(crate) mwc_carry: Simd64,
    pub(crate) xoshiro256: [u64; 4],
    pub(crate) scalar_weyl: u64,
    pub(crate) reproducibility: PhantomData<R>,
}

impl<R: Reproducibility> Clone for TripleMixSimdCore<R> {
    fn clone(&self) -> (r: Self)
        ensures
            r == *self,
    {
        TripleMixSimdCore {
            pcg_state_lo: self.pcg_state_lo,
            pcg_state_hi: self.pcg_state_hi,
            pcg_inc_lo: self.pcg_inc_lo,
            pcg_inc_hi: self.pcg_inc_hi,
            tm0: self.tm0,
            tm1: self.tm1,
            mwc_state: self.mwc_state,
            mwc_carry: self.mwc_carry,
            xoshiro256: self.xoshiro256,
            scalar_weyl: self.scalar_weyl,
            reproducibility: PhantomData,
        }
    }
}

/// Multiply-with-carry multiplier complements: lane `i` multiplies by
/// `2^64 - MWC_MULTIPLIER_COMPLEMENTS[i]`.
pub const MWC_MULTIPLIER_COMPLEMENTS: Simd64 = [742, 5572, 1432, 1108];

/// The multiply-with-carry multipliers, `2^64` minus the complements.
pub const MCG_MULTIPLIERS: Simd64 = [
    0xffff_ffff_ffff_fd1a,
    0xffff_ffff_ffff_ea3c,
    0xffff_ffff_ffff_fa68,
    0xffff_ffff_ffff_fbac,
];

/// Low 32-bit halves of the PCG multipliers.
pub const PCG_MULT_LO: Simd64 = [0x1FC6_5DA5, 0x4C95_7F2D, 0xE5A7_4D29, 0x9B3C_D8F1];

/// High 32-bit halves of the PCG multipliers.
pub const PCG_MULT_HI: Simd64 = [0x2360_ED05, 0x8F1C_5E95, 0xA3E7_9B3D, 0x2360_ED05];

/// The PCG multipliers of the four lanes.
pub const PCG_MULTIPLIERS: Simd64 = [
    0x2360_ED05_1FC6_5DA5,
    0x8F1C_5E95_4C95_7F2D,
    0xA3E7_9B3D_E5A7_4D29,
    0x2360_ED05_9B3C_D8F1,
];

/// Multipliers of the PCG output permutation.
pub const PCG_OUTPUT_MULTIPLIERS: Simd64 = [
    0xd6e8feb86659fd93,
    0x881cf9e71fbdd5b9,
    0xbf58476d1ce4e5b9,
    0x94d049bb133111eb,
];

/// Modulus of the scalar Weyl counter, `2^64 - 59`.
pub const SCALAR_WEYL_MODULUS: u64 = 0xffff_ffff_ffff_ffc5;

/// The Weyl counter after one step: one more, modulo `2^64 - 59`.
pub open spec fn weyl_next(w: u64) -> u64 {
    ((w + 1) % (SCALAR_WEYL_MODULUS as int)) as u64
}

/// A word rotated left by `k` bits, `0 < k < 64`.
pub open spec fn rotl64(x: u64, k: u64) -> u64 {
    (x << k) | (x >> ((64 - k) as u64))
}

/// A word rotated right by `k` bits, `k < 64`.
pub open spec fn rotr64(x: u64, k: u64) -> u64 {
    if k == 0 {
        x
    } else {
        (x >> k) | (x << ((64 - k) as u64))
    }
}

/// The low word of a number below 2^128.
pub open spec fn lo_word(v: int) -> u64 {
    (v % pow64()) as u64
}

/// The high word of a number below 2^128.
pub open spec fn hi_word(v: int) -> u64 {
    (v / pow64()) as u64
}

/// One PCG step on a 128-bit state: `state * mult + inc` modulo 2^128.
pub open spec fn pcg_next(state: int, inc: int, mult: u64) -> int {
    (state * mult + inc) % pow128()
}

/// The PCG output of a (new) state.
pub open spec fn pcg_output(lo: u64, hi: u64, out_mult: u64) -> u64 {
    let x = hi ^ lo;
    rotr64(wmul(x ^ (x >> 31u64), out_mult), x >> 59u64)
}

/// `a * w + c` for the multiply-with-carry multiplier `a = 2^64 - comp`.
pub open spec fn mwc_value(w: u64, c: u64, comp: u64) -> int {
    (pow64() - comp) * w + c
}

/// All ones when bit 0 of `x` is set, zero otherwise.
pub open spec fn low_bit_mask(x: u64) -> u64 {
    if x & 1 == 0 {
        0
    } else {
        u64::MAX
    }
}

/// The shifted and xored TinyMT word from which the new state is built.
pub open spec fn tinymt_x(tm0: u64, tm1: u64) -> u64 {
    let x0 = (tm0 & TINYMT64_LANE_MASK) ^ tm1;
    let x1 = x0 ^ (x0 << 12u64);
    let x2 = x1 ^ (x1 >> 32u64);
    let x3 = x2 ^ (x2 << 32u64);
    x3 ^ (x3 << 11u64)
}

/// First TinyMT word after one step.
pub open spec fn tinymt_next0(tm0: u64, tm1: u64) -> u64 {
    tm1 ^ (low_bit_mask(tinymt_x(tm0, tm1)) & TINYMT_MAT1)
}

/// Second TinyMT word after one step.
pub open spec fn tinymt_next1(tm0: u64, tm1: u64) -> u64 {
    tinymt_x(tm0, tm1) ^ (low_bit_mask(tinymt_x(tm0, tm1)) & TINYMT_MAT2)
}

/// The tempered TinyMT output of a state.
pub open spec fn tinymt_out(tm0: u64, tm1: u64) -> u64 {
    let y = (((tm0 & TINYMT64_LANE_MASK) + tm1) % pow64()) as u64;
    y ^ (low_bit_mask(y) & TINYMT_TMAT)
}

/// The xoshiro256** output of a state.
pub open spec fn xoshiro_out(s: [u64; 4]) -> u64 {
    wmul(rotl64(wmul(s[1], 5), 7), 9)
}

/// One xoshiro256 step.
pub open spec fn xoshiro_next(s: [u64; 4]) -> [u64; 4] {
    [
        s[0] ^ (s[3] ^ s[1]),
        s[1] ^ (s[2] ^ s[0]),
        (s[2] ^ s[0]) ^ (s[1] << 17u64),
        rotl64(s[3] ^ s[1], 45),
    ]
}

/// Four lanes given by a function of the lane index.
pub open spec fn lanes4(f: spec_fn(int) -> u64) -> [u64; 4] {
    [f(0), f(1), f(2), f(3)]
}

pub proof fn lemma_lanes4(f: spec_fn(int) -> u64)
    ensures
        forall|i: int| 0 <= i < 4 ==> #[trigger] lanes4(f)[i] == f(i),
{
    assert(lanes4(f)[0] == f(0));
    assert(lanes4(f)[1] == f(1));
    assert(lanes4(f)[2] == f(2));
    assert(lanes4(f)[3] == f(3));
}

/// The words of a 128-bit number are its low and high words.
pub proof fn lemma_words_of(lo: u64, hi: u64)
    ensures
        lo_word(u128_of(lo, hi)) == lo,
        hi_word(u128_of(lo, hi)) == hi,
        0 <= u128_of(lo, hi) < pow128(),
{
    lemma_fundamental_div_mod_converse(u128_of(lo, hi), pow64(), hi as int, lo as int);
    assert(u128_of(lo, hi) < pow128()) by (nonlinear_arith)
        requires
            lo < pow64(),
            hi < pow64(),
            u128_of(lo, hi) == hi * pow64() + lo,
            pow128() == pow64() * pow64(),
    ;
}

/// A wrapping sum or difference of words, as a residue modulo 2^64.
proof fn lemma_wrap(v: int, r: u64, q: int)
    requires
        v == q * pow64() + r,
    ensures
        r == v % pow64(),
{
    lemma_fundamental_div_mod_converse(v, pow64(), q, r as int);
}

/// One PCG lane step: `state * mult + inc` modulo 2^128, as `(low, high)` words.
fn pcg_lane(lo: u64, hi: u64, inc_lo: u64, inc_hi: u64, mult: u64) -> (r: (u64, u64))
    ensures
        u128_of(r.0, r.1) == pcg_next(u128_of(lo, hi), u128_of(inc_lo, inc_hi), mult),
{
    let (prod_hi, prod_lo) = mul128x64_lane(hi, lo, mult);
    let (next_lo, carry) = add128_lane(prod_lo, inc_lo, 0);
    let (next_hi, carry_out) = add128_lane(prod_hi, inc_hi, carry);
    proof {
        let p = (u128_of(lo, hi) * mult) % pow128();
        let inc = u128_of(inc_lo, inc_hi);
        assert(u128_of(next_lo, next_hi) == p + inc - carry_bit(carry_out) * pow128());
        lemma_mod_bound(u128_of(lo, hi) * mult, pow128());
        lemma_words_of(next_lo, next_hi);
        lemma_fundamental_div_mod_converse(
            p + inc, pow128(), carry_bit(carry_out), u128_of(next_lo, next_hi));
        vstd::arithmetic::div_mod::lemma_add_mod_noop(u128_of(lo, hi) * mult, inc, pow128());
        lemma_words_of(inc_lo, inc_hi);
        vstd::arithmetic::div_mod::lemma_small_mod(inc as nat, pow128() as nat);
    }
    (next_lo, next_hi)
}

/// The output permutation of one PCG lane.
fn pcg_output_lane(lo: u64, hi: u64, out_mult: u64) -> (r: u64)
    ensures
        r == pcg_output(lo, hi, out_mult),
{
    let x = hi ^ lo;
    let m = (x ^ (x >> 31)).wrapping_mul(out_mult);
    let rot = x >> 59;
    assert(x >> 59u64 < 64) by (bit_vector);
    if rot == 0 {
        m
    } else {
        (m >> rot) | (m << (64 - rot))
    }
}

/// One multiply-with-carry lane step: with `t = (2^64 - comp) * w + c`, the new word
/// is `t mod 2^64` and the new carry `t / 2^64`.
fn mwc_lane(w: u64, c: u64, comp: u64) -> (r: (u64, u64))
    requires
        comp < 0x1_0000_0000,
    ensures
        r.0 == lo_word(mwc_value(w, c, comp)),
        r.1 == hi_word(mwc_value(w, c, comp)),
{
    let (kx_lo, kx_hi) = mulsmall_lane(w, comp);
    let borrow: u64 = if c < kx_lo { u64::MAX } else { 0 };
    let next_state = c.wrapping_sub(kx_lo);
    let next_carry = w.wrapping_sub(kx_hi).wrapping_add(borrow);
    proof {
        let t = mwc_value(w, c, comp);
        assert(t == (w - kx_hi) * pow64() + (c - kx_lo)) by (nonlinear_arith)
            requires
                t == (pow64() - comp) * w + c,
                kx_lo + kx_hi * pow64() == w * comp,
        ;
        assert(kx_hi <= w) by (nonlinear_arith)
            requires
                kx_lo + kx_hi * pow64() == w * comp,
                comp < pow64(),
                0 <= kx_lo,
        ;
        if c < kx_lo {
            assert(w - kx_hi >= 1) by (nonlinear_arith)
                requires
                    t == (w - kx_hi) * pow64() + (c - kx_lo),
                    c < kx_lo,
                    kx_lo < pow64(),
                    t >= 0,
            ;
            assert(next_carry == w - kx_hi - 1);
            lemma_fundamental_div_mod_converse(
                t, pow64(), w - kx_hi - 1, c - kx_lo + pow64());
        } else {
            assert(next_carry == w - kx_hi);
            lemma_fundamental_div_mod_converse(t, pow64(), w - kx_hi, c - kx_lo);
        }
    }
    (next_state, next_carry)
}

/// `0` or `1` as a single low bit.
proof fn lemma_low_bit(x: u64)
    ensures
        (x & 1 == 0) || (x & 1 == 1),
{
    assert((x & 1 == 0) || (x & 1 == 1)) by (bit_vector);
}

/// One TinyMT64 lane step: `(new tm0, new tm1, output, secondary output)`.
fn tinymt_lane(tm0: u64, tm1: u64) -> (r: (u64, u64, u64, u64))
    ensures
        r.0 == tinymt_next0(tm0, tm1),
        r.1 == tinymt_next1(tm0, tm1),
        r.2 == tinymt_out(tm0, tm1),
        r.3 == ((r.0 - r.1) % pow64()) as u64,
{
    let tm0_masked = tm0 & TINYMT64_LANE_MASK;
    let mut tm_x = tm0_masked ^ tm1;
    let tm_y = tm0_masked.wrapping_add(tm1);
    tm_x ^= tm_x << 12;
    tm_x ^= tm_x >> 32;
    tm_x ^= tm_x << 32;
    tm_x ^= tm_x << 11;
    proof {
        lemma_low_bit(tm_y);
        lemma_low_bit(tm_x);
        if tm0_masked + tm1 >= pow64() {
            lemma_wrap(tm0_masked + tm1, tm_y, 1);
        } else {
            lemma_wrap(tm0_masked + tm1, tm_y, 0);
        }
    }
    let tm_out = tm_y ^ (0u64.wrapping_sub(tm_y & 1) & TINYMT_TMAT);
    let tm_mask = 0u64.wrapping_sub(tm_x & 1);
    let new0 = tm1 ^ (tm_mask & TINYMT_MAT1);
    let new1 = tm_x ^ (tm_mask & TINYMT_MAT2);
    let secondary = new0.wrapping_sub(new1);
    proof {
        if new0 < new1 {
            lemma_wrap(new0 - new1, secondary, -1);
        } else {
            lemma_wrap(new0 - new1, secondary, 0);
        }
    }
    (new0, new1, tm_out, secondary)
}

/// The PCG step of all four lanes.
fn pcg_step(lo: &Simd64, hi: &Simd64, inc_lo: &Simd64, inc_hi: &Simd64) -> (r: (Simd64, Simd64))
    ensures
        forall|i: int|
            0 <= i < 4 ==> u128_of(#[trigger] r.0[i], r.1[i]) == pcg_next(
                u128_of(lo[i], hi[i]),
                u128_of(inc_lo[i], inc_hi[i]),
                PCG_MULTIPLIERS[i],
            ),
{
    let mut new_lo = [0u64; 4];
    let mut new_hi = [0u64; 4];
    for i in 0..4
        invariant
            forall|j: int|
                0 <= j < i ==> u128_of(#[trigger] new_lo[j], new_hi[j]) == pcg_next(
                    u128_of(lo[j], hi[j]),
                    u128_of(inc_lo[j], inc_hi[j]),
                    PCG_MULTIPLIERS[j],
                ),
    {
        let (l, h) = pcg_lane(lo[i], hi[i], inc_lo[i], inc_hi[i], PCG_MULTIPLIERS[i]);
        new_lo[i] = l;
        new_hi[i] = h;
    }
    (new_lo, new_hi)
}

/// The PCG outputs of all four lanes.
fn pcg_outputs(lo: &Simd64, hi: &Simd64) -> (r: Simd64)
    ensures
        forall|i: int|
            0 <= i < 4 ==> #[trigger] r[i] == pcg_output(lo[i], hi[i], PCG_OUTPUT_MULTIPLIERS[i]),
{
    let mut out = [0u64; 4];
    for i in 0..4
        invariant
            forall|j: int|
                0 <= j < i ==> #[trigger] out[j] == pcg_output(
                    lo[j],
                    hi[j],
                    PCG_OUTPUT_MULTIPLIERS[j],
                ),
    {
        out[i] = pcg_output_lane(lo[i], hi[i], PCG_OUTPUT_MULTIPLIERS[i]);
    }
    out
}

/// The multiply-with-carry step of all four lanes.
fn mwc_step(w: &Simd64, c: &Simd64) -> (r: (Simd64, Simd64))
    ensures
        forall|i: int|
            0 <= i < 4 ==> #[trigger] r.0[i] == lo_word(
                mwc_value(w[i], c[i], MWC_MULTIPLIER_COMPLEMENTS[i]),
            ) && r.1[i] == hi_word(mwc_value(w[i], c[i], MWC_MULTIPLIER_COMPLEMENTS[i])),
{
    let mut new_w = [0u64; 4];
    let mut new_c = [0u64; 4];
    for i in 0..4
        invariant
            forall|j: int|
                0 <= j < i ==> #[trigger] new_w[j] == lo_word(
                    mwc_value(w[j], c[j], MWC_MULTIPLIER_COMPLEMENTS[j]),
                ) && new_c[j] == hi_word(mwc_value(w[j], c[j], MWC_MULTIPLIER_COMPLEMENTS[j])),
    {
        let (nw, nc) = mwc_lane(w[i], c[i], MWC_MULTIPLIER_COMPLEMENTS[i]);
        new_w[i] = nw;
        new_c[i] = nc;
    }
    (new_w, new_c)
}

/// The TinyMT64 step of all four lanes: `(new tm0, new tm1, outputs, secondary outputs)`.
fn tinymt_step(tm0: &Simd64, tm1: &Simd64) -> (r: (Simd64, Simd64, Simd64, Simd64))
    ensures
        forall|i: int| 0 <= i < 4 ==> #[trigger] r.0[i] == tinymt_next0(tm0[i], tm1[i]),
        forall|i: int| 0 <= i < 4 ==> #[trigger] r.1[i] == tinymt_next1(tm0[i], tm1[i]),
        forall|i: int| 0 <= i < 4 ==> #[trigger] r.2[i] == tinymt_out(tm0[i], tm1[i]),
        forall|i: int| 0 <= i < 4 ==> #[trigger] r.3[i] == ((r.0[i] - r.1[i]) % pow64()) as u64,
{
    let mut n0 = [0u64; 4];
    let mut n1 = [0u64; 4];
    let mut out = [0u64; 4];
    let mut sec = [0u64; 4];
    for i in 0..4
        invariant
            forall|j: int| 0 <= j < i ==> #[trigger] n0[j] == tinymt_next0(tm0[j], tm1[j]),
            forall|j: int| 0 <= j < i ==> #[trigger] n1[j] == tinymt_next1(tm0[j], tm1[j]),
            forall|j: int| 0 <= j < i ==> #[trigger] out[j] == tinymt_out(tm0[j], tm1[j]),
            forall|j: int| 0 <= j < i ==> #[trigger] sec[j] == ((n0[j] - n1[j]) % pow64()) as u64,
    {
        let (a, b, o, d) = tinymt_lane(tm0[i], tm1[i]);
        n0[i] = a;
        n1[i] = b;
        out[i] = o;
        sec[i] = d;
    }
    (n0, n1, out, sec)
}

/// Lane-wise sums modulo 2^64.
fn simd_wrapping_add(a: &Simd64, b: &Simd64) -> (r: Simd64)
    ensures
        forall|i: int| 0 <= i < 4 ==> #[trigger] r[i] == ((a[i] + b[i]) % pow64()) as u64,
{
    let mut out = [0u64; 4];
    for i in 0..4
        invariant
            forall|j: int| 0 <= j < i ==> #[trigger] out[j] == ((a[j] + b[j]) % pow64()) as u64,
    {
        out[i] = a[i].wrapping_add(b[i]);
        proof {
            if a[i as int] + b[i as int] >= pow64() {
                lemma_wrap(a[i as int] + b[i as int], out[i as int], 1);
            } else {
                lemma_wrap(a[i as int] + b[i as int], out[i as int], 0);
            }
        }
    }
    out
}

impl<R: Reproducibility> TripleMixSimdCore<R> {
    /// The 128-bit PCG state of lane `i`.
    pub(crate) open spec fn pcg_state(self, i: int) -> int {
        u128_of(self.pcg_state_lo[i], self.pcg_state_hi[i])
    }

    /// The 128-bit PCG increment of lane `i`.
    pub(crate) open spec fn pcg_inc(self, i: int) -> int {
        u128_of(self.pcg_inc_lo[i], self.pcg_inc_hi[i])
    }

    /// The PCG state of lane `i` after one step.
    pub(crate) open spec fn pcg_stepped(self, i: int) -> int {
        pcg_next(self.pcg_state(i), self.pcg_inc(i), PCG_MULTIPLIERS[i])
    }

    /// The multiply-with-carry value `a * w + c` of lane `i` before one step.
    pub(crate) open spec fn mwc_stepped(self, i: int) -> int {
        mwc_value(self.mwc_state[i], self.mwc_carry[i], MWC_MULTIPLIER_COMPLEMENTS[i])
    }

    /// The state after one step of every sub-generator, the Weyl counter included.
    #[verifier::opaque]
    pub(crate) open spec fn step(self) -> Self {
        TripleMixSimdCore {
            pcg_state_lo: lanes4(|i: int| lo_word(self.pcg_stepped(i))),
            pcg_state_hi: lanes4(|i: int| hi_word(self.pcg_stepped(i))),
            pcg_inc_lo: self.pcg_inc_lo,
            pcg_inc_hi: self.pcg_inc_hi,
            tm0: lanes4(|i: int| tinymt_next0(self.tm0[i], self.tm1[i])),
            tm1: lanes4(|i: int| tinymt_next1(self.tm0[i], self.tm1[i])),
            mwc_state: lanes4(|i: int| lo_word(self.mwc_stepped(i))),
            mwc_carry: lanes4(|i: int| hi_word(self.mwc_stepped(i))),
            xoshiro256: xoshiro_next(self.xoshiro256),
            scalar_weyl: weyl_next(self.scalar_weyl),
            reproducibility: self.reproducibility,
        }
    }

    /// The state after `n` steps.
    pub(crate) open spec fn iterate(self, n: nat) -> Self
        decreases n,
    {
        if n == 0 {
            self
        } else {
            self.iterate((n - 1) as nat).step()
        }
    }

    /// The block of output produced by one step from this state: the three four-lane
    /// vectors of the mix, one after another, `BLOCK_SIZE` words.
    #[verifier::opaque]
    pub(crate) open spec fn block(self) -> Seq<u64> {
        let next = self.step();
        let pcg_out = lanes4(
            |i: int| pcg_output(next.pcg_state_lo[i], next.pcg_state_hi[i], PCG_OUTPUT_MULTIPLIERS[i]),
        );
        let tm_out = lanes4(|i: int| tinymt_out(self.tm0[i], self.tm1[i]));
        let tm_secondary = lanes4(|i: int| ((next.tm0[i] - next.tm1[i]) % pow64()) as u64);
        let i_mixed = lanes4(|i: int| ((self.pcg_inc_hi[i] + self.pcg_inc_lo[i]) % pow64()) as u64);
        let m = crate::mix::mix_spec(
            seq![
                next.mwc_state@,
                pcg_out@,
                tm_out@,
                next.mwc_carry@,
                i_mixed@,
                next.pcg_state_lo@,
                tm_secondary@,
            ],
            xoshiro_out(self.xoshiro256),
        );
        m.0 + m.1 + m.2
    }

    /// The state after `n` steps.
    pub closed spec fn stepped(self, n: nat) -> Self {
        self.iterate(n)
    }

    /// The block of output of the next step.
    pub closed spec fn output_block(self) -> Seq<u64> {
        self.block()
    }

    /// The all-but-zero state (see `almost_all_zeroes_core`).
    pub closed spec fn almost_all_zeroes() -> Self {
        TripleMixSimdCore {
            pcg_state_lo: [0u64, 0, 0, 0],
            pcg_state_hi: [0u64, 0, 0, 0],
            pcg_inc_lo: [3u64, 5, 7, 9],
            pcg_inc_hi: [0u64, 0, 0, 0],
            tm0: [0u64, 0, 0, 0],
            tm1: [3u64, 5, 7, 9],
            mwc_state: [3u64, 5, 7, 9],
            mwc_carry: [0u64, 0, 0, 0],
            xoshiro256: [0u64, 0, 0, 1],
            scalar_weyl: 0,
            reproducibility: PhantomData,
        }
    }

    /// The state with every field zero.
    pub closed spec fn zeroed() -> Self {
        TripleMixSimdCore {
            pcg_state_lo: [0u64, 0, 0, 0],
            pcg_state_hi: [0u64, 0, 0, 0],
            pcg_inc_lo: [0u64, 0, 0, 0],
            pcg_inc_hi: [0u64, 0, 0, 0],
            tm0: [0u64, 0, 0, 0],
            tm1: [0u64, 0, 0, 0],
            mwc_state: [0u64, 0, 0, 0],
            mwc_carry: [0u64, 0, 0, 0],
            xoshiro256: [0u64, 0, 0, 0],
            scalar_weyl: 0,
            reproducibility: PhantomData,
        }
    }

    /// Overwrites every field with zero.
    pub(crate) fn zeroize(&mut self)
        ensures
            *final(self) == Self::zeroed(),
    {
        self.pcg_state_lo = [0; 4];
        self.pcg_state_hi = [0; 4];
        self.pcg_inc_lo = [0; 4];
        self.pcg_inc_hi = [0; 4];
        self.tm0 = [0; 4];
        self.tm1 = [0; 4];
        self.mwc_state = [0; 4];
        self.mwc_carry = [0; 4];
        self.xoshiro256 = [0; 4];
        self.scalar_weyl = 0;
        assert(self.pcg_state_lo =~= [0u64, 0, 0, 0]);
        assert(self.xoshiro256 =~= [0u64, 0, 0, 0]);
    }

    /// A block of output has `BLOCK_SIZE` words.
    pub(crate) proof fn lemma_block_len(self)
        ensures
            self.block().len() == BLOCK_SIZE,
    {
        reveal(TripleMixSimdCore::block);
        let next = self.step();
        let pcg_out = lanes4(
            |i: int| pcg_output(next.pcg_state_lo[i], next.pcg_state_hi[i], PCG_OUTPUT_MULTIPLIERS[i]),
        );
        let tm_out = lanes4(|i: int| tinymt_out(self.tm0[i], self.tm1[i]));
        let tm_secondary = lanes4(|i: int| ((next.tm0[i] - next.tm1[i]) % pow64()) as u64);
        let i_mixed = lanes4(|i: int| ((self.pcg_inc_hi[i] + self.pcg_inc_lo[i]) % pow64()) as u64);
        crate::mix::lemma_mix_len(
            seq![
                next.mwc_state@,
                pcg_out@,
                tm_out@,
                next.mwc_carry@,
                i_mixed@,
                next.pcg_state_lo@,
                tm_secondary@,
            ],
            xoshiro_out(self.xoshiro256),
        );
    }

    /// The state as nine four-lane words (PCG state low and high words, PCG increment
    /// low and high words, the two TinyMT64 words, multiply-with-carry words and carries,
    /// and the xoshiro256 state) and the Weyl counter.
    pub closed spec fn state_words(self) -> ([[u64; 4]; 9], u64) {
        (
            [
                self.pcg_state_lo,
                self.pcg_state_hi,
                self.pcg_inc_lo,
                self.pcg_inc_hi,
                self.tm0,
                self.tm1,
                self.mwc_state,
                self.mwc_carry,
                self.xoshiro256,
            ],
            self.scalar_weyl,
        )
    }

    /// The state as words, as `state_words` lays them out (for serialization).
    pub fn to_state_words(&self) -> (r: ([[u64; 4]; 9], u64))
        ensures
            r == self.state_words(),
    {
        let words = [
            self.pcg_state_lo,
            self.pcg_state_hi,
            self.pcg_inc_lo,
            self.pcg_inc_hi,
            self.tm0,
            self.tm1,
            self.mwc_state,
            self.mwc_carry,
            self.xoshiro256,
        ];
        (words, self.scalar_weyl)
    }

    /// The state with the given words, laid out as `state_words` lays them out.
    pub fn from_state_words(words: [[u64; 4]; 9], scalar_weyl: u64) -> (r: Self)
        ensures
            r.state_words() == (words, scalar_weyl),
    {
        let r = TripleMixSimdCore {
            pcg_state_lo: words[0],
            pcg_state_hi: words[1],
            pcg_inc_lo: words[2],
            pcg_inc_hi: words[3],
            tm0: words[4],
            tm1: words[5],
            mwc_state: words[6],
            mwc_carry: words[7],
            xoshiro256: words[8],
            scalar_weyl,
            reproducibility: PhantomData,
        };
        assert(r.state_words().0 =~= words);
        r
    }

    /// The state words determine the state: `from_state_words` rebuilds exactly the
    /// state that `to_state_words` took apart.
    pub proof fn lemma_state_words_determine(self, other: Self)
        requires
            self.state_words() == other.state_words(),
        ensures
            self == other,
    {
        assert(self.state_words().0[0] == other.state_words().0[0]);
        assert(self.state_words().0[1] == other.state_words().0[1]);
        assert(self.state_words().0[2] == other.state_words().0[2]);
        assert(self.state_words().0[3] == other.state_words().0[3]);
        assert(self.state_words().0[4] == other.state_words().0[4]);
        assert(self.state_words().0[5] == other.state_words().0[5]);
        assert(self.state_words().0[6] == other.state_words().0[6]);
        assert(self.state_words().0[7] == other.state_words().0[7]);
        assert(self.state_words().0[8] == other.state_words().0[8]);
    }

    /// The words of the all-but-zero state.
    pub proof fn lemma_almost_all_zeroes_words()
        ensures
            Self::almost_all_zeroes().state_words() == (
                [
                    [0u64, 0, 0, 0],
                    [0u64, 0, 0, 0],
                    [3u64, 5, 7, 9],
                    [0u64, 0, 0, 0],
                    [0u64, 0, 0, 0],
                    [3u64, 5, 7, 9],
                    [3u64, 5, 7, 9],
                    [0u64, 0, 0, 0],
                    [0u64, 0, 0, 1],
                ],
                0u64,
            ),
    {
        assert(Self::almost_all_zeroes().state_words().0 =~= [
            [0u64, 0, 0, 0],
            [0u64, 0, 0, 0],
            [3u64, 5, 7, 9],
            [0u64, 0, 0, 0],
            [0u64, 0, 0, 0],
            [3u64, 5, 7, 9],
            [3u64, 5, 7, 9],
            [0u64, 0, 0, 0],
            [0u64, 0, 0, 1],
        ]);
    }

    /// No steps leave the state as it is.
    pub proof fn lemma_stepped_zero(self)
        ensures
            self.stepped(0) == self,
    {
    }

    /// `a` steps and then `b` more are `a + b` steps.
    pub proof fn lemma_stepped_add(self, a: nat, b: nat)
        ensures
            self.stepped(a).stepped(b) == self.stepped(a + b),
    {
        self.lemma_iterate_add(a, b);
    }

    /// The Weyl counter.
    pub closed spec fn weyl(self) -> u64 {
        self.scalar_weyl
    }

    /// `stepped` and `output_block` are `iterate` and `block`.
    pub(crate) proof fn lemma_stepped_unfold(self, n: nat)
        ensures
            self.stepped(n) == self.iterate(n),
            self.output_block() == self.block(),
            self.weyl() == self.scalar_weyl,
            self.state_words() == (
                [
                    self.pcg_state_lo,
                    self.pcg_state_hi,
                    self.pcg_inc_lo,
                    self.pcg_inc_hi,
                    self.tm0,
                    self.tm1,
                    self.mwc_state,
                    self.mwc_carry,
                    self.xoshiro256,
                ],
                self.scalar_weyl,
            ),
            Self::almost_all_zeroes().mwc_state == [3u64, 5, 7, 9],
            Self::almost_all_zeroes().mwc_carry == [0u64, 0, 0, 0],
    {
    }

    /// `stepped` and `output_block` are `iterate` and `block`, for every state.
    pub(crate) proof fn lemma_stepped_is_iterate()
        ensures
            forall|s: Self, n: nat| #[trigger] s.stepped(n) == s.iterate(n),
            forall|s: Self| #[trigger] s.output_block() == s.block(),
    {
    }

    /// Stepping once and then `n` times is stepping `n + 1` times.
    pub(crate) proof fn lemma_step_iterate(self, n: nat)
        ensures
            self.step().iterate(n) == self.iterate(n + 1),
        decreases n,
    {
        if n > 0 {
            self.lemma_step_iterate((n - 1) as nat);
            assert(self.step().iterate(n) == self.step().iterate((n - 1) as nat).step());
            assert(self.iterate(n + 1) == self.iterate(n).step());
        } else {
            assert(self.iterate(0) == self);
            assert(self.iterate(1) == self.iterate(0).step());
        }
    }

    /// `p` steps and then `q` more are `p + q` steps.
    pub(crate) proof fn lemma_iterate_add(self, p: nat, q: nat)
        ensures
            self.iterate(p).iterate(q) == self.iterate(p + q),
        decreases q,
    {
        if q > 0 {
            self.lemma_iterate_add(p, (q - 1) as nat);
        }
    }

    /// The all-but-zero state: every field is zero except the PCG increments, the
    /// second TinyMT words and the multiply-with-carry words, which are the smallest
    /// numbers with two bits set (3, 5, 7, 9), and the last xoshiro256 word, which is 1.
    pub fn almost_all_zeroes_core() -> (r: TripleMixSimdCore<R>)
        ensures
            r == Self::almost_all_zeroes(),
    {
        let r = TripleMixSimdCore {
            pcg_state_lo: [0; 4],
            pcg_state_hi: [0; 4],
            pcg_inc_lo: [3, 5, 7, 9],
            pcg_inc_hi: [0; 4],
            tm0: [0; 4],
            tm1: [3, 5, 7, 9],
            mwc_state: [3, 5, 7, 9],
            mwc_carry: [0; 4],
            xoshiro256: [0, 0, 0, 1],
            scalar_weyl: 0,
            reproducibility: PhantomData,
        };
        assert(r.pcg_state_lo =~= [0u64, 0, 0, 0]);
        assert(r.pcg_state_hi =~= [0u64, 0, 0, 0]);
        assert(r.pcg_inc_hi =~= [0u64, 0, 0, 0]);
        assert(r.tm0 =~= [0u64, 0, 0, 0]);
        assert(r.mwc_carry =~= [0u64, 0, 0, 0]);
        r
    }

    /// One xoshiro256 step.
    pub(crate) fn advance_xoshiro(xoshiro256: &mut [u64; 4])
        ensures
            *final(xoshiro256) == xoshiro_next(*old(xoshiro256)),
    {
        let t = xoshiro256[1] << 17;
        xoshiro256[2] = xoshiro256[2] ^ xoshiro256[0];
        xoshiro256[3] = xoshiro256[3] ^ xoshiro256[1];
        xoshiro256[1] = xoshiro256[1] ^ xoshiro256[2];
        xoshiro256[0] = xoshiro256[0] ^ xoshiro256[3];
        xoshiro256[2] = xoshiro256[2] ^ t;
        xoshiro256[3] = (xoshiro256[3] << 45) | (xoshiro256[3] >> 19);
        assert(*xoshiro256 =~= xoshiro_next(*old(xoshiro256)));
    }

    /// Steps every sub-generator once and returns the block of output of that step.
    pub(crate) fn step_block(&mut self) -> (out: [u64; BLOCK_SIZE])
        ensures
            *final(self) == old(self).step(),
            out@ == old(self).block(),
    {
        reveal(TripleMixSimdCore::step);
        reveal(TripleMixSimdCore::block);
        let ghost start = *self;
        let ghost next = start.step();
        let i_mixed = simd_wrapping_add(&self.pcg_inc_hi, &self.pcg_inc_lo);
        let (pcg_lo, pcg_hi) = pcg_step(
            &self.pcg_state_lo,
            &self.pcg_state_hi,
            &self.pcg_inc_lo,
            &self.pcg_inc_hi,
        );
        let pcg_out = pcg_outputs(&pcg_lo, &pcg_hi);
        let (mwc_state, mwc_carry) = mwc_step(&self.mwc_state, &self.mwc_carry);
        let (tm0, tm1, tm_out, tm_secondary) = tinymt_step(&self.tm0, &self.tm1);
        let x1 = self.xoshiro256[1].wrapping_mul(5);
        let xoshiro_out = ((x1 << 7) | (x1 >> 57)).wrapping_mul(9);
        Self::advance_xoshiro(&mut self.xoshiro256);
        proof {
            lemma_lanes4(|i: int| lo_word(start.pcg_stepped(i)));
            lemma_lanes4(|i: int| hi_word(start.pcg_stepped(i)));
            lemma_lanes4(|i: int| tinymt_next0(start.tm0[i], start.tm1[i]));
            lemma_lanes4(|i: int| tinymt_next1(start.tm0[i], start.tm1[i]));
            lemma_lanes4(|i: int| lo_word(start.mwc_stepped(i)));
            lemma_lanes4(|i: int| hi_word(start.mwc_stepped(i)));
            assert forall|i: int| 0 <= i < 4 implies pcg_lo[i] == next.pcg_state_lo[i]
                && pcg_hi[i] == next.pcg_state_hi[i] by {
                lemma_words_of(pcg_lo[i], pcg_hi[i]);
            }
            assert(pcg_lo =~= next.pcg_state_lo);
            assert(pcg_hi =~= next.pcg_state_hi);
            assert(tm0 =~= next.tm0);
            assert(tm1 =~= next.tm1);
            assert(mwc_state =~= next.mwc_state);
            assert(mwc_carry =~= next.mwc_carry);
            lemma_lanes4(
                |i: int|
                    pcg_output(next.pcg_state_lo[i], next.pcg_state_hi[i], PCG_OUTPUT_MULTIPLIERS[i]),
            );
            lemma_lanes4(|i: int| tinymt_out(start.tm0[i], start.tm1[i]));
            lemma_lanes4(|i: int| ((next.tm0[i] - next.tm1[i]) % pow64()) as u64);
            lemma_lanes4(|i: int| ((start.pcg_inc_hi[i] + start.pcg_inc_lo[i]) % pow64()) as u64);
        }
        let (x, y, z) = Self::mix(
            mwc_state,
            pcg_out,
            tm_out,
            mwc_carry,
            i_mixed,
            pcg_lo,
            tm_secondary,
            xoshiro_out,
        );
        self.pcg_state_lo = pcg_lo;
        self.pcg_state_hi = pcg_hi;
        self.tm0 = tm0;
        self.tm1 = tm1;
        self.mwc_state = mwc_state;
        self.mwc_carry = mwc_carry;
        self.scalar_weyl = ((self.scalar_weyl as u128 + 1) % (SCALAR_WEYL_MODULUS as u128)) as u64;
        let out = [x[0], x[1], x[2], x[3], y[0], y[1], y[2], y[3], z[0], z[1], z[2], z[3]];
        proof {
            assert(pcg_out@ =~= lanes4(
                |i: int|
                    pcg_output(next.pcg_state_lo[i], next.pcg_state_hi[i], PCG_OUTPUT_MULTIPLIERS[i]),
            )@);
            assert(tm_out@ =~= lanes4(|i: int| tinymt_out(start.tm0[i], start.tm1[i]))@);
            assert(tm_secondary@ =~= lanes4(
                |i: int| ((next.tm0[i] - next.tm1[i]) % pow64()) as u64,
            )@);
            assert(i_mixed@ =~= lanes4(
                |i: int| ((start.pcg_inc_hi[i] + start.pcg_inc_lo[i]) % pow64()) as u64,
            )@);
            assert(xoshiro_out == crate::generate::xoshiro_out(start.xoshiro256));
            assert(out@ =~= x@ + y@ + z@);
        }
        out
    }

    /// Fills `blocks` with consecutive blocks of output, stepping every sub-generator
    /// once per block.
    pub fn fill_blocks(&mut self, blocks: &mut [[u64; BLOCK_SIZE]])
        ensures
            *final(self) == old(self).stepped(old(blocks)@.len()),
            final(blocks)@.len() == old(blocks)@.len(),
            forall|k: int|
                0 <= k < old(blocks)@.len() ==> (#[trigger] final(blocks)@[k])@ == old(
                    self,
                ).stepped(k as nat).output_block(),
    {
        let ghost start = *self;
        let n = blocks.len();
        for k in 0..n
            invariant
                n == blocks@.len(),
                *self == start.iterate(k as nat),
                forall|j: int|
                    0 <= j < k ==> (#[trigger] blocks@[j])@ == start.iterate(j as nat).block(),
        {
            let out = self.step_block();
            blocks[k] = out;
        }
    }
}

/// Clearing the top bit of a word twice is clearing it once.
proof fn lemma_lane_mask_twice(t: u64)
    ensures
        (t & TINYMT64_LANE_MASK) & TINYMT64_LANE_MASK == t & TINYMT64_LANE_MASK,
{
    assert((t & 0x7fff_ffff_ffff_ffffu64) & 0x7fff_ffff_ffff_ffffu64 == t & 0x7fff_ffff_ffff_ffffu64)
        by (bit_vector);
}

/// The TinyMT64 step and its tempered output read only the 127 state bits: the top bit
/// of the first word changes neither.
pub proof fn lemma_tinymt_ignores_top_bit(tm0: u64, tm1: u64)
    ensures
        tinymt_out(tm0 & TINYMT64_LANE_MASK, tm1) == tinymt_out(tm0, tm1),
        tinymt_next0(tm0 & TINYMT64_LANE_MASK, tm1) == tinymt_next0(tm0, tm1),
        tinymt_next1(tm0 & TINYMT64_LANE_MASK, tm1) == tinymt_next1(tm0, tm1),
{
    lemma_lane_mask_twice(tm0);
}

impl<R: Reproducibility> TripleMixSimdCore<R> {
    /// The block of a step, in terms of the state after the step (`stepped(1)`): it
    /// mixes that state's multiply-with-carry words, the PCG output permutation of its
    /// PCG state, the tempered TinyMT64 output of the state before the step, the
    /// multiply-with-carry carries, the sums of the PCG increment words, the low words
    /// of the new PCG state and the differences of the new TinyMT64 words, with the
    /// xoshiro256** output of the state before the step as scalar: its word 1 times 5,
    /// rotated left by 7 bits, times 9.
    pub proof fn lemma_block_from_next_state(self)
        ensures
            self.output_block() == ({
                let w = self.state_words().0;
                let n = self.stepped(1).state_words().0;
                let m = crate::mix::mix_spec(
                    seq![
                        n[6]@,
                        lanes4(|i: int| pcg_output(n[0][i], n[1][i], PCG_OUTPUT_MULTIPLIERS[i]))@,
                        lanes4(|i: int| tinymt_out(w[4][i], w[5][i]))@,
                        n[7]@,
                        lanes4(|i: int| ((w[3][i] + w[2][i]) % pow64()) as u64)@,
                        n[0]@,
                        lanes4(|i: int| ((n[4][i] - n[5][i]) % pow64()) as u64)@,
                    ],
                    wmul(rotl64(wmul(w[8][1], 5), 7), 9),
                );
                m.0 + m.1 + m.2
            }),
    {
        reveal(TripleMixSimdCore::block);
        self.lemma_stepped_unfold(1);
        self.lemma_stepped_unfold(0);
        assert(self.iterate(1) == self.iterate(0).step());
        let next = self.step();
        next.lemma_stepped_unfold(0);
        let w = self.state_words().0;
        let n = next.state_words().0;
        assert(lanes4(|i: int| pcg_output(n[0][i], n[1][i], PCG_OUTPUT_MULTIPLIERS[i])) == lanes4(
            |i: int| pcg_output(next.pcg_state_lo[i], next.pcg_state_hi[i], PCG_OUTPUT_MULTIPLIERS[i]),
        ));
        assert(lanes4(|i: int| tinymt_out(w[4][i], w[5][i])) == lanes4(
            |i: int| tinymt_out(self.tm0[i], self.tm1[i]),
        ));
        assert(lanes4(|i: int| ((w[3][i] + w[2][i]) % pow64()) as u64) == lanes4(
            |i: int| ((self.pcg_inc_hi[i] + self.pcg_inc_lo[i]) % pow64()) as u64,
        ));
        assert(lanes4(|i: int| ((n[4][i] - n[5][i]) % pow64()) as u64) == lanes4(
            |i: int| ((next.tm0[i] - next.tm1[i]) % pow64()) as u64,
        ));
    }

    /// The top bits of the first TinyMT64 words are not state: two states that agree on
    /// every word except those bits step to the same state and give the same block.
    pub proof fn lemma_top_tinymt_bits_unused(self, other: Self)
        requires
            self.state_words().1 == other.state_words().1,
            forall|w: int| 0 <= w < 9 && w != 4 ==> #[trigger] self.state_words().0[w] == other.state_words().0[w],
            forall|i: int|
                0 <= i < 4 ==> (#[trigger] self.state_words().0[4][i] & TINYMT64_LANE_MASK) == (
                other.state_words().0[4][i] & TINYMT64_LANE_MASK),
        ensures
            self.stepped(1) == other.stepped(1),
            self.output_block() == other.output_block(),
    {
        reveal(TripleMixSimdCore::step);
        reveal(TripleMixSimdCore::block);
        self.lemma_stepped_unfold(1);
        other.lemma_stepped_unfold(1);
        assert(self.iterate(1) == self.iterate(0).step());
        assert(other.iterate(1) == other.iterate(0).step());
        assert(self.state_words().0[0] == other.state_words().0[0]);
        assert(self.state_words().0[1] == other.state_words().0[1]);
        assert(self.state_words().0[2] == other.state_words().0[2]);
        assert(self.state_words().0[3] == other.state_words().0[3]);
        assert(self.state_words().0[5] == other.state_words().0[5]);
        assert(self.state_words().0[6] == other.state_words().0[6]);
        assert(self.state_words().0[7] == other.state_words().0[7]);
        assert(self.state_words().0[8] == other.state_words().0[8]);
        assert forall|i: int| 0 <= i < 4 implies #[trigger] tinymt_out(self.tm0[i], self.tm1[i])
            == tinymt_out(other.tm0[i], other.tm1[i]) && tinymt_next0(self.tm0[i], self.tm1[i])
            == tinymt_next0(other.tm0[i], other.tm1[i]) && tinymt_next1(self.tm0[i], self.tm1[i])
            == tinymt_next1(other.tm0[i], other.tm1[i]) by {
            assert((self.state_words().0[4][i] & TINYMT64_LANE_MASK) == (other.state_words().0[4][i]
                & TINYMT64_LANE_MASK));
            lemma_tinymt_ignores_top_bit(self.tm0[i], self.tm1[i]);
            lemma_tinymt_ignores_top_bit(other.tm0[i], other.tm1[i]);
        }
        assert(self.step() == other.step());
        assert(lanes4(|i: int| tinymt_out(self.tm0[i], self.tm1[i])) == lanes4(
            |i: int| tinymt_out(other.tm0[i], other.tm1[i]),
        ));
    }
}

} // verus!
