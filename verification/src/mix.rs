//! The output mixing function: seven four-lane inputs and one scalar are folded
//! into three four-lane outputs, working on eight 32-bit lanes that start from
//! lane-specific constants.
use vstd::prelude::*;
use crate::generate::TripleMixSimdCore;
use crate::reproducibility::Reproducibility;
use crate::simd::Simd64;

verus! {

/// Eight lanes of 32-bit words.
pub type Simd32 = [u32; 8];

/// 2^32 as a mathematical integer.
pub open spec fn pow32() -> int {
    0x1_0000_0000int
}

/// Sum of two 32-bit words modulo 2^32.
pub open spec fn wadd32(a: u32, b: u32) -> u32 {
    ((a + b) % pow32()) as u32
}

/// Lane-wise sum modulo 2^32.
#[verifier::opaque]
pub open spec fn vadd(a: Seq<u32>, b: Seq<u32>) -> Seq<u32> {
    Seq::new(8, |i: int| wadd32(a[i], b[i]))
}

/// Lane-wise exclusive or.
#[verifier::opaque]
pub open spec fn vxor(a: Seq<u32>, b: Seq<u32>) -> Seq<u32> {
    Seq::new(8, |i: int| a[i] ^ b[i])
}

/// Lane `i` of the result is lane `i + k` of `a` (lanes move towards lane 0).
#[verifier::opaque]
pub open spec fn lanes_left(a: Seq<u32>, k: int) -> Seq<u32> {
    Seq::new(8, |i: int| a[(i + k) % 8])
}

/// Lane `i` of the result is lane `i - k` of `a` (lanes move away from lane 0).
#[verifier::opaque]
pub open spec fn lanes_right(a: Seq<u32>, k: int) -> Seq<u32> {
    Seq::new(8, |i: int| a[(i + 8 - k) % 8])
}

/// A 32-bit word rotated left by `k` bits, `0 < k < 32`.
pub open spec fn rotl32_word(x: u32, k: u32) -> u32 {
    ((x << k) | (x >> ((32 - k) as u32))) as u32
}

/// Every lane rotated left by `k` bits.
#[verifier::opaque]
pub open spec fn vrotl(a: Seq<u32>, k: u32) -> Seq<u32> {
    Seq::new(8, |i: int| rotl32_word(a[i], k))
}

/// Low words of the lane-wise 64-bit products.
#[verifier::opaque]
pub open spec fn vmul_lo(a: Seq<u32>, b: Seq<u32>) -> Seq<u32> {
    Seq::new(8, |i: int| ((a[i] * b[i]) % pow32()) as u32)
}

/// High words of the lane-wise 64-bit products.
#[verifier::opaque]
pub open spec fn vmul_hi(a: Seq<u32>, b: Seq<u32>) -> Seq<u32> {
    Seq::new(8, |i: int| ((a[i] * b[i]) / pow32()) as u32)
}

/// Splits each 64-bit lane into its low word and then its high word.
#[verifier::opaque]
pub open spec fn split_lanes(x: Seq<u64>) -> Seq<u32> {
    Seq::new(
        8,
        |i: int|
            if i % 2 == 0 {
                (x[i / 2] as int % pow32()) as u32
            } else {
                (x[i / 2] as int / pow32()) as u32
            },
    )
}

/// Joins pairs of 32-bit lanes (low word first) into 64-bit lanes.
#[verifier::opaque]
pub open spec fn join_lanes(x: Seq<u32>) -> Seq<u64> {
    Seq::new(4, |i: int| (x[2 * i] + x[2 * i + 1] * pow32()) as u64)
}

/// One round of the mix over the state `(a, b, c)` and the seven inputs `x`.
#[verifier::opaque]
pub open spec fn round3_spec(
    a: Seq<u32>,
    b: Seq<u32>,
    c: Seq<u32>,
    x: Seq<Seq<u32>>,
    shift1: u32,
    shift2: u32,
    shift3: u32,
) -> (Seq<u32>, Seq<u32>, Seq<u32>) {
    let m0_lo = vmul_lo(a, b);
    let m0_hi = vmul_hi(a, b);
    let m1_lo = vmul_lo(b, c);
    let m1_hi = vmul_hi(b, c);
    let a1 = vxor(a, lanes_left(b, 1));
    let b1 = vadd(b, lanes_right(c, 2));
    let c1 = vxor(c, lanes_left(a1, 3));
    let a2 = vadd(a1, x[0]);
    let b2 = vxor(b1, x[1]);
    let c2 = vadd(c1, x[2]);
    let a3 = vxor(a2, vadd(m1_hi, lanes_right(b2, 2)));
    let b3 = vxor(b2, vxor(m0_lo, lanes_left(c2, 3)));
    let c3 = vxor(c2, vadd(m0_hi, lanes_right(a3, 1)));
    let a4 = vxor(a3, x[3]);
    let b4 = vadd(b3, x[4]);
    let c4 = vxor(c3, x[5]);
    let a5 = vrotl(a4, shift1);
    let b5 = vxor(b4, x[6]);
    let c5 = vxor(c4, vrotl(b5, shift3));
    let b6 = vadd(b5, vadd(m1_lo, lanes_right(a5, 4)));
    let a6 = vadd(a5, vrotl(c5, shift2));
    (a6, b6, c5)
}

/// The seven inputs in the order the second round reads them.
pub open spec fn second_order(x: Seq<Seq<u32>>) -> Seq<Seq<u32>> {
    seq![x[3], x[4], x[5], x[6], x[0], x[1], x[2]]
}

/// The seven inputs in the order the third round reads them.
pub open spec fn third_order(x: Seq<Seq<u32>>) -> Seq<Seq<u32>> {
    seq![x[5], x[2], x[6], x[1], x[4], x[0], x[3]]
}

/// Starting words of the first mixing vector, one per 32-bit lane: the first eight
/// 32-bit words of the fractional part of pi.
pub const MIX_SEED_A: Simd32 = [
    0x243f6a88, 0x85a308d3, 0x13198a2e, 0x03707344, 0xa4093822, 0x299f31d0, 0x082efa98, 0xec4e6c89,
];

/// Starting words of the second mixing vector: the first eight 32-bit words of the
/// fractional part of the golden ratio.
pub const MIX_SEED_B: Simd32 = [
    0x9e3779b9, 0x7f4a7c15, 0xf39cc060, 0x5cedc834, 0x1082276b, 0xf3a27251, 0xf86c6a11, 0xd0c18e95,
];

/// Starting words of the third mixing vector: the first eight 32-bit words of the
/// fractional part of e.
pub const MIX_SEED_C: Simd32 = [
    0xb7e15162, 0x8aed2a6a, 0xbf715880, 0x9cf4f3c7, 0x62e7160f, 0x38b4da56, 0xa784d904, 0x5190cfef,
];

/// No two 32-bit lanes of a mixing vector start from the same word, so lanes that
/// receive the same inputs still start from different states.
pub proof fn lemma_mix_seeds_lane_specific()
    ensures
        forall|i: int, j: int|
            0 <= i < j < 8 ==> MIX_SEED_A[i] != MIX_SEED_A[j] && MIX_SEED_B[i] != MIX_SEED_B[j]
                && MIX_SEED_C[i] != MIX_SEED_C[j],
{
}

/// Each input split into 32-bit lanes.
pub open spec fn split_inputs(x: Seq<Seq<u64>>) -> Seq<Seq<u32>> {
    Seq::new(7, |j: int| split_lanes(x[j]))
}

/// The three starting vectors of the mix: the lane-specific seeds with the scalar's
/// low half and high half folded into chosen lanes.
pub open spec fn mix_start(scalar_lo: u32, scalar_hi: u32) -> (Seq<u32>, Seq<u32>, Seq<u32>) {
    let mix1 = seq![0u32, scalar_lo, scalar_hi, 0, scalar_hi, 0, scalar_lo, 0];
    let mix2 = seq![scalar_hi, 0u32, 0, scalar_hi, 0, scalar_lo, 0, scalar_lo];
    (vxor(MIX_SEED_A@, mix1), vadd(MIX_SEED_B@, mix2), vadd(MIX_SEED_C@, mix1))
}

/// The mix state `(a, b, c)` after its three rounds, before the final cross-lane step.
pub open spec fn mix_rounds(x: Seq<Seq<u32>>, scalar_lo: u32, scalar_hi: u32) -> (
    Seq<u32>,
    Seq<u32>,
    Seq<u32>,
) {
    let (a0, b0, c0) = mix_start(scalar_lo, scalar_hi);
    let r1 = round3_spec(a0, b0, c0, x, 7, 25, 11);
    let r2 = round3_spec(r1.1, r1.2, r1.0, second_order(x), 5, 17, 9);
    // r2 = (b, c, a)
    let r3 = round3_spec(r2.1, r2.2, r2.0, third_order(x), 3, 13, 23);
    // r3 = (c, a, b)
    (r3.1, r3.2, r3.0)
}

/// The whole mix, over the inputs split into 32-bit lanes and the two halves of the
/// scalar input.
#[verifier::opaque]
pub open spec fn mix_lanes(x: Seq<Seq<u32>>, scalar_lo: u32, scalar_hi: u32) -> (
    Seq<u32>,
    Seq<u32>,
    Seq<u32>,
) {
    let r = mix_rounds(x, scalar_lo, scalar_hi);
    let a = r.0;
    let b = r.1;
    let c = r.2;
    let a7 = vxor(a, lanes_right(b, 2));
    let b7 = vadd(b, lanes_left(c, 3));
    let c7 = vadd(c, lanes_right(a7, 1));
    (a7, b7, c7)
}

/// The mix over 64-bit lanes.
#[verifier::opaque]
pub open spec fn mix_spec(x: Seq<Seq<u64>>, scalar: u64) -> (Seq<u64>, Seq<u64>, Seq<u64>) {
    let r = mix_lanes(split_inputs(x), (scalar as int % pow32()) as u32, (scalar as int / pow32()) as u32);
    (join_lanes(r.0), join_lanes(r.1), join_lanes(r.2))
}

/// The mix reads all 64 bits of its scalar: the scalar's low half and high half, taken
/// as a truncating cast and a 32-bit shift and together giving back the scalar, are the
/// two halves that enter the 32-bit mix.
pub proof fn lemma_mix_reads_whole_scalar(x: Seq<Seq<u64>>, scalar: u64)
    ensures
        (scalar as u32) as int + ((scalar >> 32u64) as u32) as int * pow32() == scalar as int,
        mix_spec(x, scalar) == ({
            let r = mix_lanes(split_inputs(x), scalar as u32, (scalar >> 32u64) as u32);
            (join_lanes(r.0), join_lanes(r.1), join_lanes(r.2))
        }),
{
    reveal(mix_spec);
    lemma_word_halves(scalar);
    vstd::arithmetic::div_mod::lemma_fundamental_div_mod(scalar as int, pow32());
}

/// Two different scalars give the mix different starting vectors: the starting state
/// holds both halves of the scalar.
pub proof fn lemma_mix_start_injective(lo1: u32, hi1: u32, lo2: u32, hi2: u32)
    requires
        mix_start(lo1, hi1) == mix_start(lo2, hi2),
    ensures
        lo1 == lo2,
        hi1 == hi2,
{
    reveal(vadd);
    let seed = MIX_SEED_C@;
    let m1 = seq![0u32, lo1, hi1, 0, hi1, 0, lo1, 0];
    let m2 = seq![0u32, lo2, hi2, 0, hi2, 0, lo2, 0];
    let c1 = vadd(seed, m1);
    let c2 = vadd(seed, m2);
    assert(c1 == mix_start(lo1, hi1).2);
    assert(c2 == mix_start(lo2, hi2).2);
    assert(c1[1] == wadd32(seed[1], lo1));
    assert(c2[1] == wadd32(seed[1], lo2));
    assert(c1[2] == wadd32(seed[2], hi1));
    assert(c2[2] == wadd32(seed[2], hi2));
    lemma_wadd_cancel(seed[1], lo1, lo2);
    lemma_wadd_cancel(seed[2], hi1, hi2);
}

/// Adding the same word modulo 2^32 is one to one.
proof fn lemma_wadd_cancel(k: u32, u: u32, v: u32)
    requires
        wadd32(k, u) == wadd32(k, v),
    ensures
        u == v,
{
    let p = pow32();
    if k + u >= p {
        vstd::arithmetic::div_mod::lemma_fundamental_div_mod_converse(k + u, p, 1, k + u - p);
    } else {
        vstd::arithmetic::div_mod::lemma_small_mod((k + u) as nat, p as nat);
    }
    if k + v >= p {
        vstd::arithmetic::div_mod::lemma_fundamental_div_mod_converse(k + v, p, 1, k + v - p);
    } else {
        vstd::arithmetic::div_mod::lemma_small_mod((k + v) as nat, p as nat);
    }
}

/// The final cross-lane step of the mix, as relations between the three outputs and
/// the state `(a, b, c)` after the rounds: the first output is `a` xored with `b`
/// moved two lanes, the second is `b` plus `c` moved three lanes back, and the third
/// is `c` plus the first output (not `a`) moved one lane.
pub proof fn lemma_mix_final_step(x: Seq<Seq<u32>>, scalar_lo: u32, scalar_hi: u32)
    ensures
        ({
            let r = mix_rounds(x, scalar_lo, scalar_hi);
            let out = mix_lanes(x, scalar_lo, scalar_hi);
            &&& out.0 == vxor(r.0, lanes_right(r.1, 2))
            &&& out.1 == vadd(r.1, lanes_left(r.2, 3))
            &&& out.2 == vadd(r.2, lanes_right(out.0, 1))
        }),
{
    reveal(mix_lanes);
}

/// Each output of the mix has four lanes.
pub proof fn lemma_mix_len(x: Seq<Seq<u64>>, scalar: u64)
    ensures
        mix_spec(x, scalar).0.len() == 4,
        mix_spec(x, scalar).1.len() == 4,
        mix_spec(x, scalar).2.len() == 4,
{
    reveal(mix_spec);
    reveal(join_lanes);
}

pub(crate) fn v_add(a: &Simd32, b: &Simd32) -> (r: Simd32)
    ensures
        r@ == vadd(a@, b@),
{
    let mut r = [0u32; 8];
    for i in 0..8
        invariant
            forall|j: int| 0 <= j < i ==> r[j] == wadd32(a[j], b[j]),
    {
        r[i] = a[i].wrapping_add(b[i]);
        proof {
            if a[i as int] + b[i as int] >= pow32() {
                vstd::arithmetic::div_mod::lemma_fundamental_div_mod_converse(
                    a[i as int] + b[i as int], pow32(), 1, r[i as int] as int);
            } else {
                vstd::arithmetic::div_mod::lemma_fundamental_div_mod_converse(
                    a[i as int] + b[i as int], pow32(), 0, r[i as int] as int);
            }
        }
    }
    reveal(vadd);
    assert(r@ =~= vadd(a@, b@));
    r
}

pub(crate) fn v_xor(a: &Simd32, b: &Simd32) -> (r: Simd32)
    ensures
        r@ == vxor(a@, b@),
{
    let mut r = [0u32; 8];
    for i in 0..8
        invariant
            forall|j: int| 0 <= j < i ==> r[j] == a[j] ^ b[j],
    {
        r[i] = a[i] ^ b[i];
    }
    reveal(vxor);
    assert(r@ =~= vxor(a@, b@));
    r
}

fn v_lanes_left(a: &Simd32, k: usize) -> (r: Simd32)
    requires
        k < 8,
    ensures
        r@ == lanes_left(a@, k as int),
{
    let mut r = [0u32; 8];
    for i in 0..8
        invariant
            k < 8,
            forall|j: int| 0 <= j < i ==> r[j] == a[(j + k) % 8],
    {
        r[i] = a[(i + k) % 8];
    }
    reveal(lanes_left);
    assert(r@ =~= lanes_left(a@, k as int));
    r
}

fn v_lanes_right(a: &Simd32, k: usize) -> (r: Simd32)
    requires
        k < 8,
    ensures
        r@ == lanes_right(a@, k as int),
{
    let mut r = [0u32; 8];
    for i in 0..8
        invariant
            k < 8,
            forall|j: int| 0 <= j < i ==> r[j] == a[(j + 8 - k) % 8],
    {
        r[i] = a[(i + 8 - k) % 8];
    }
    reveal(lanes_right);
    assert(r@ =~= lanes_right(a@, k as int));
    r
}

pub(crate) fn rotl32(x: &Simd32, k: u32) -> (r: Simd32)
    requires
        0 < k < 32,
    ensures
        r@ == vrotl(x@, k),
{
    let mut r = [0u32; 8];
    for i in 0..8
        invariant
            0 < k < 32,
            forall|j: int| 0 <= j < i ==> r[j] == rotl32_word(x[j], k),
    {
        r[i] = (x[i] << k) | (x[i] >> (32 - k));
    }
    reveal(vrotl);
    assert(r@ =~= vrotl(x@, k));
    r
}

/// Lane-wise 32x32-bit products of `(a, b)` and of `(b, c)`, each split into its low
/// and high words: `(low(a*b), high(a*b), low(b*c), high(b*c))`.
fn mul_lo_hi_triad(a: &Simd32, b: &Simd32, c: &Simd32) -> (r: (Simd32, Simd32, Simd32, Simd32))
    ensures
        r.0@ == vmul_lo(a@, b@),
        r.1@ == vmul_hi(a@, b@),
        r.2@ == vmul_lo(b@, c@),
        r.3@ == vmul_hi(b@, c@),
{
    let mut m0_lo = [0u32; 8];
    let mut m0_hi = [0u32; 8];
    let mut m1_lo = [0u32; 8];
    let mut m1_hi = [0u32; 8];
    for i in 0..8
        invariant
            forall|j: int|
                0 <= j < i ==> m0_lo[j] == ((a[j] * b[j]) % pow32()) as u32 && m0_hi[j] == ((
                a[j] * b[j]) / pow32()) as u32 && m1_lo[j] == ((b[j] * c[j]) % pow32()) as u32
                    && m1_hi[j] == ((b[j] * c[j]) / pow32()) as u32,
    {
        let ai = a[i] as u64;
        let bi = b[i] as u64;
        let ci = c[i] as u64;
        proof {
            assert(ai * bi < 0x1_0000_0000_0000_0000 && bi * ci < 0x1_0000_0000_0000_0000)
                by (nonlinear_arith)
                requires
                    ai < 0x1_0000_0000,
                    bi < 0x1_0000_0000,
                    ci < 0x1_0000_0000,
            ;
        }
        let p0 = ai * bi;
        let p1 = bi * ci;
        proof {
            lemma_word_halves(p0);
            lemma_word_halves(p1);
        }
        m0_lo[i] = #[verifier::truncate] (p0 as u32);
        m0_hi[i] = (p0 >> 32) as u32;
        m1_lo[i] = #[verifier::truncate] (p1 as u32);
        m1_hi[i] = (p1 >> 32) as u32;
    }
    reveal(vmul_lo);
    reveal(vmul_hi);
    assert(m0_lo@ =~= vmul_lo(a@, b@));
    assert(m0_hi@ =~= vmul_hi(a@, b@));
    assert(m1_lo@ =~= vmul_lo(b@, c@));
    assert(m1_hi@ =~= vmul_hi(b@, c@));
    (m0_lo, m0_hi, m1_lo, m1_hi)
}

/// The low and high 32-bit halves of a word, as truncating casts and shifts give them.
proof fn lemma_word_halves(p: u64)
    ensures
        p as u32 == (p as int % pow32()) as u32,
        (p >> 32u64) as u32 == (p as int / pow32()) as u32,
        p as int % pow32() < pow32(),
        p as int / pow32() < pow32(),
{
    assert(p as u32 == (p % 0x1_0000_0000) as u32 && (p >> 32u64) as u32 == (p / 0x1_0000_0000) as u32
        && p / 0x1_0000_0000 < 0x1_0000_0000) by (bit_vector);
}

/// The seven inputs of a round as a sequence of lane sequences.
pub open spec fn inputs_view(x: [Simd32; 7]) -> Seq<Seq<u32>> {
    Seq::new(7, |j: int| x[j]@)
}

fn round3(
    a: Simd32,
    b: Simd32,
    c: Simd32,
    x: &[Simd32; 7],
    shift1: u32,
    shift2: u32,
    shift3: u32,
) -> (r: (Simd32, Simd32, Simd32))
    requires
        0 < shift1 < 32,
        0 < shift2 < 32,
        0 < shift3 < 32,
    ensures
        (r.0@, r.1@, r.2@) == round3_spec(a@, b@, c@, inputs_view(*x), shift1, shift2, shift3),
{
    reveal(round3_spec);
    // --- First nonlinear layer ---
    let (m0_lo, m0_hi, m1_lo, m1_hi) = mul_lo_hi_triad(&a, &b, &c);
    let a = v_xor(&a, &v_lanes_left(&b, 1));
    let b = v_add(&b, &v_lanes_right(&c, 2));
    let c = v_xor(&c, &v_lanes_left(&a, 3));
    // --- Input injection ---
    let a = v_add(&a, &x[0]);
    let b = v_xor(&b, &x[1]);
    let c = v_add(&c, &x[2]);
    let a = v_xor(&a, &v_add(&m1_hi, &v_lanes_right(&b, 2)));
    let b = v_xor(&b, &v_xor(&m0_lo, &v_lanes_left(&c, 3)));
    let c = v_xor(&c, &v_add(&m0_hi, &v_lanes_right(&a, 1)));
    let a = v_xor(&a, &x[3]);
    let b = v_add(&b, &x[4]);
    let c = v_xor(&c, &x[5]);
    // --- Rotate ---
    let a = rotl32(&a, shift1);
    let b = v_xor(&b, &x[6]);
    let c = v_xor(&c, &rotl32(&b, shift3));
    let b = v_add(&b, &v_add(&m1_lo, &v_lanes_right(&a, 4)));
    let a = v_add(&a, &rotl32(&c, shift2));
    (a, b, c)
}

/// `lo | hi << 32` for 32-bit `lo` and `hi`.
proof fn lemma_join_words(lo: u32, hi: u32)
    ensures
        (lo as u64) | ((hi as u64) << 32u64) == lo + hi * pow32(),
{
    assert((lo as u64) | ((hi as u64) << 32u64) == lo + hi * 0x1_0000_0000) by (bit_vector);
}

/// Splits each 64-bit lane into its low and high 32-bit words.
fn simd64_as_simd32(x: Simd64) -> (r: Simd32)
    ensures
        r@ == split_lanes(x@),
{
    let mut r = [0u32; 8];
    for i in 0..4
        invariant
            forall|j: int|
                0 <= j < 2 * i ==> r[j] == (if j % 2 == 0 {
                    (x[j / 2] as int % pow32()) as u32
                } else {
                    (x[j / 2] as int / pow32()) as u32
                }),
    {
        proof {
            lemma_word_halves(x[i as int]);
        }
        r[2 * i] = #[verifier::truncate] (x[i] as u32);
        r[2 * i + 1] = (x[i] >> 32) as u32;
    }
    reveal(split_lanes);
    assert(r@ =~= split_lanes(x@));
    r
}

/// Joins pairs of 32-bit lanes, low word first, into 64-bit lanes.
fn simd32_as_simd64(x: Simd32) -> (r: Simd64)
    ensures
        r@ == join_lanes(x@),
{
    let mut r = [0u64; 4];
    for i in 0..4
        invariant
            forall|j: int| 0 <= j < i ==> r[j] == (x[2 * j] + x[2 * j + 1] * pow32()) as u64,
    {
        proof {
            lemma_join_words(x[2 * i as int], x[2 * i as int + 1]);
        }
        r[i] = (x[2 * i] as u64) | ((x[2 * i + 1] as u64) << 32);
    }
    reveal(join_lanes);
    assert(r@ =~= join_lanes(x@));
    r
}

impl<R: Reproducibility> TripleMixSimdCore<R> {
    /// Mixes seven four-lane inputs and one scalar into three four-lane outputs,
    /// starting from the lane-specific words `MIX_SEED_A`, `MIX_SEED_B` and `MIX_SEED_C`.
    #[allow(clippy::too_many_arguments)]
    pub fn mix(
        x0: Simd64,
        x1: Simd64,
        x2: Simd64,
        x3: Simd64,
        x4: Simd64,
        x5: Simd64,
        x6: Simd64,
        scalar1: u64,
    ) -> (r: (Simd64, Simd64, Simd64))
        ensures
            (r.0@, r.1@, r.2@) == mix_spec(seq![x0@, x1@, x2@, x3@, x4@, x5@, x6@], scalar1),
    {
        reveal(mix_spec);
        reveal(mix_lanes);
        let xi = [
            simd64_as_simd32(x0),
            simd64_as_simd32(x1),
            simd64_as_simd32(x2),
            simd64_as_simd32(x3),
            simd64_as_simd32(x4),
            simd64_as_simd32(x5),
            simd64_as_simd32(x6),
        ];
        let ghost xs = seq![x0@, x1@, x2@, x3@, x4@, x5@, x6@];
        assert(inputs_view(xi) =~= split_inputs(xs));
        proof {
            lemma_word_halves(scalar1);
        }
        let scalar_hi = #[verifier::truncate] ((scalar1 >> 32) as u32);
        let scalar_lo = #[verifier::truncate] (scalar1 as u32);
        let a = MIX_SEED_A;
        let scalar_mix_1 = [0, scalar_lo, scalar_hi, 0, scalar_hi, 0, scalar_lo, 0];
        let b = MIX_SEED_B;
        let scalar_mix_2 = [scalar_hi, 0, 0, scalar_hi, 0, scalar_lo, 0, scalar_lo];
        let ghost mix1 = seq![0u32, scalar_lo, scalar_hi, 0, scalar_hi, 0, scalar_lo, 0];
        let ghost mix2 = seq![scalar_hi, 0u32, 0, scalar_hi, 0, scalar_lo, 0, scalar_lo];
        assert(scalar_mix_1@ =~= mix1);
        assert(scalar_mix_2@ =~= mix2);
        let a = v_xor(&a, &scalar_mix_1);
        let c = MIX_SEED_C;
        let b = v_add(&b, &scalar_mix_2);
        let c = v_add(&c, &scalar_mix_1);
        let ghost sl = (scalar1 as int % pow32()) as u32;
        let ghost sh = (scalar1 as int / pow32()) as u32;
        assert(scalar_lo == sl && scalar_hi == sh);
        let ghost xv = inputs_view(xi);
        let (a, b, c) = round3(a, b, c, &xi, 7, 25, 11);
        let x2nd = [xi[3], xi[4], xi[5], xi[6], xi[0], xi[1], xi[2]];
        assert(inputs_view(x2nd) =~= second_order(inputs_view(xi)));
        let (b, c, a) = round3(b, c, a, &x2nd, 5, 17, 9);
        let x3rd = [xi[5], xi[2], xi[6], xi[1], xi[4], xi[0], xi[3]];
        assert(inputs_view(x3rd) =~= third_order(inputs_view(xi)));
        let (c, a, b) = round3(c, a, b, &x3rd, 3, 13, 23);
        // --- Strong final cross-lane avalanche ---
        let a = v_xor(&a, &v_lanes_right(&b, 2));
        let b = v_add(&b, &v_lanes_left(&c, 3));
        let c = v_add(&c, &v_lanes_right(&a, 1));
        assert(mix_lanes(xv, sl, sh) == (a@, b@, c@));
        let r = (simd32_as_simd64(a), simd32_as_simd64(b), simd32_as_simd64(c));
        assert(mix_spec(xs, scalar1) == (r.0@, r.1@, r.2@));
        r
    }
}

} // verus!
