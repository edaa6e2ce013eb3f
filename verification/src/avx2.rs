//! The mixing function of the AVX2 path and its 32x32-bit multiplies, written on
//! eight 32-bit lanes with the lane movements of the AVX2 instructions
//! (`mul_epu32`, `shuffle_epi32`, `slli_si256`, `blend_epi32`, `permute4x64_epi64`).
//! The generator itself mixes with `TripleMixSimdCore::mix`.
use vstd::prelude::*;
use crate::mix::{Simd32, pow32, rotl32, v_add, v_xor, vadd, vrotl, vxor};

verus! {

/// The low 32-bit word of a product below 2^64.
pub open spec fn low32(p: int) -> u32 {
    (p % pow32()) as u32
}

/// The high 32-bit word of a product below 2^64.
pub open spec fn high32(p: int) -> u32 {
    (p / pow32()) as u32
}

/// The product of the even 32-bit lanes of 64-bit lane `k`: what `mul_epu32` computes.
pub open spec fn even_product(a: Seq<u32>, b: Seq<u32>, k: int) -> int {
    a[2 * k] * b[2 * k]
}

/// The product of the odd 32-bit lanes of 64-bit lane `k`.
pub open spec fn odd_product(a: Seq<u32>, b: Seq<u32>, k: int) -> int {
    a[2 * k + 1] * b[2 * k + 1]
}

/// The four products of one parity, each split into words and shuffled within each
/// 128-bit half as `[low, low, high, high]` of the half's two products.
pub open spec fn shuffled_words(p: spec_fn(int) -> int) -> Seq<u32> {
    Seq::new(
        8,
        |i: int|
            if i % 4 < 2 {
                low32(p(2 * (i / 4) + i % 2))
            } else {
                high32(p(2 * (i / 4) + i % 2))
            },
    )
}

/// The products of the even lanes and of the odd lanes, each laid out by
/// `shuffled_words`.
pub open spec fn epu32_lo_hi(a: Seq<u32>, b: Seq<u32>) -> (Seq<u32>, Seq<u32>) {
    (
        shuffled_words(|k: int| even_product(a, b, k)),
        shuffled_words(|k: int| odd_product(a, b, k)),
    )
}

/// What `mul_lo_hi_interleaved_avx2` returns: in each 128-bit half, zero, the low
/// word of the half's second even product, the low word of its second odd product and
/// the high word of its second even product; and the high words of the four even
/// products, each followed by zero.
pub open spec fn interleaved_lo_hi(a: Seq<u32>, b: Seq<u32>) -> (Seq<u32>, Seq<u32>) {
    (
        Seq::new(
            8,
            |i: int|
                if i % 4 == 0 {
                    0u32
                } else if i % 4 == 1 {
                    low32(even_product(a, b, 2 * (i / 4) + 1))
                } else if i % 4 == 2 {
                    low32(odd_product(a, b, 2 * (i / 4) + 1))
                } else {
                    high32(even_product(a, b, 2 * (i / 4) + 1))
                },
        ),
        Seq::new(8, |i: int| if i % 2 == 0 { high32(even_product(a, b, i / 2)) } else { 0u32 }),
    )
}

/// The two 128-bit halves swapped (`permute4x64_epi64` with `0b01001110`).
pub open spec fn swap_halves(a: Seq<u32>) -> Seq<u32> {
    Seq::new(8, |i: int| a[(i + 4) % 8])
}

/// The 64-bit lanes swapped within each half (`permute4x64_epi64` with `0b10110001`).
pub open spec fn swap_pairs(a: Seq<u32>) -> Seq<u32> {
    Seq::new(8, |i: int| if (i / 2) % 2 == 0 { a[i + 2] } else { a[i - 2] })
}

/// One round of the AVX2 mix over the state `(a, b, c)` and seven inputs.
pub open spec fn round_avx2_spec(a: Seq<u32>, b: Seq<u32>, c: Seq<u32>, x: Seq<Seq<u32>>) -> (
    Seq<u32>,
    Seq<u32>,
    Seq<u32>,
) {
    let a2 = vxor(vadd(a, x[0]), x[3]);
    let b2 = vadd(vxor(b, x[1]), x[4]);
    let c2 = vxor(vadd(c, x[2]), x[5]);
    let m0 = epu32_lo_hi(a2, b2);
    let m1 = epu32_lo_hi(b2, c2);
    let a4 = vrotl(vxor(a2, m1.1), 11);
    let b4 = vrotl(vxor(b2, m0.0), 17);
    let c4 = vrotl(vxor(c2, m0.1), 23);
    let m2 = epu32_lo_hi(a4, c4);
    let a6 = vadd(vadd(a4, m2.1), x[6]);
    let b6 = vxor(vadd(b4, m1.0), x[0]);
    let c6 = vadd(vadd(c4, m2.0), x[1]);
    (vrotl(a6, 19), vrotl(b6, 29), vrotl(c6, 13))
}

/// Eight lanes holding the same word.
pub open spec fn splat32(v: u32) -> Seq<u32> {
    Seq::new(8, |i: int| v)
}

/// The AVX2 mix of seven inputs into three outputs: three rounds over the inputs in
/// three rotations, then a cross-lane finish.
pub open spec fn mix7x3_spec(x: Seq<Seq<u32>>) -> (Seq<u32>, Seq<u32>, Seq<u32>) {
    let r1 = round_avx2_spec(splat32(0x243f6a88), splat32(0x9e3779b9), splat32(0xb7e15162), x);
    let r2 = round_avx2_spec(r1.0, r1.1, r1.2, seq![x[3], x[4], x[5], x[6], x[0], x[1], x[2]]);
    let r3 = round_avx2_spec(r2.0, r2.1, r2.2, seq![x[6], x[0], x[1], x[2], x[3], x[4], x[5]]);
    let a = vxor(r3.0, swap_halves(r3.1));
    let b = vadd(r3.1, swap_pairs(r3.2));
    let c = vxor(r3.2, a);
    let m = epu32_lo_hi(a, b);
    (vrotl(vxor(a, m.1), 15), vrotl(vxor(b, m.0), 21), vrotl(vadd(c, m.1), 27))
}

/// The product of two 32-bit words, with its low and high words.
fn mul_words(x: u32, y: u32) -> (r: (u32, u32))
    ensures
        r.0 == low32(x * y),
        r.1 == high32(x * y),
{
    proof {
        assert(x * y < 0x1_0000_0000_0000_0000) by (nonlinear_arith)
            requires
                x < 0x1_0000_0000,
                y < 0x1_0000_0000,
        ;
    }
    let p = (x as u64) * (y as u64);
    assert(p / 0x1_0000_0000 < 0x1_0000_0000);
    ((p % 0x1_0000_0000) as u32, (p / 0x1_0000_0000) as u32)
}

/// The products of the even lanes and of the odd lanes of `a` and `b`, split into
/// words and shuffled within each 128-bit half.
fn mul_lo_hi_epu32(a: &Simd32, b: &Simd32) -> (r: (Simd32, Simd32))
    ensures
        (r.0@, r.1@) == epu32_lo_hi(a@, b@),
{
    let (e0l, e0h) = mul_words(a[0], b[0]);
    let (e1l, e1h) = mul_words(a[2], b[2]);
    let (e2l, e2h) = mul_words(a[4], b[4]);
    let (e3l, e3h) = mul_words(a[6], b[6]);
    let (o0l, o0h) = mul_words(a[1], b[1]);
    let (o1l, o1h) = mul_words(a[3], b[3]);
    let (o2l, o2h) = mul_words(a[5], b[5]);
    let (o3l, o3h) = mul_words(a[7], b[7]);
    let lo = [e0l, e1l, e0h, e1h, e2l, e3l, e2h, e3h];
    let hi = [o0l, o1l, o0h, o1h, o2l, o3l, o2h, o3h];
    assert(lo@ =~= shuffled_words(|k: int| even_product(a@, b@, k)));
    assert(hi@ =~= shuffled_words(|k: int| odd_product(a@, b@, k)));
    (lo, hi)
}

/// Multiplies the even 32-bit lanes and the odd 32-bit lanes of `a` and `b` and lays
/// the words of the products out as the AVX2 shuffles and blends do (see
/// `interleaved_lo_hi`).
pub fn mul_lo_hi_interleaved_avx2(a: Simd32, b: Simd32) -> (r: (Simd32, Simd32))
    ensures
        (r.0@, r.1@) == interleaved_lo_hi(a@, b@),
{
    let (_e0l, e0h) = mul_words(a[0], b[0]);
    let (e1l, e1h) = mul_words(a[2], b[2]);
    let (_e2l, e2h) = mul_words(a[4], b[4]);
    let (e3l, e3h) = mul_words(a[6], b[6]);
    let (o1l, _o1h) = mul_words(a[3], b[3]);
    let (o3l, _o3h) = mul_words(a[7], b[7]);
    let lo = [0, e1l, o1l, e1h, 0, e3l, o3l, e3h];
    let hi = [e0h, 0, e1h, 0, e2h, 0, e3h, 0];
    assert(lo@ =~= interleaved_lo_hi(a@, b@).0);
    assert(hi@ =~= interleaved_lo_hi(a@, b@).1);
    (lo, hi)
}

/// The two 128-bit halves swapped.
fn v_swap_halves(a: &Simd32) -> (r: Simd32)
    ensures
        r@ == swap_halves(a@),
{
    let r = [a[4], a[5], a[6], a[7], a[0], a[1], a[2], a[3]];
    assert(r@ =~= swap_halves(a@));
    r
}

/// The 64-bit lanes swapped within each half.
fn v_swap_pairs(a: &Simd32) -> (r: Simd32)
    ensures
        r@ == swap_pairs(a@),
{
    let r = [a[2], a[3], a[0], a[1], a[6], a[7], a[4], a[5]];
    assert(r@ =~= swap_pairs(a@));
    r
}

/// One round of the AVX2 mix.
fn round_avx2(a: Simd32, b: Simd32, c: Simd32, x: [Simd32; 7]) -> (r: (Simd32, Simd32, Simd32))
    ensures
        (r.0@, r.1@, r.2@) == round_avx2_spec(a@, b@, c@, Seq::new(7, |j: int| x[j]@)),
{
    let ghost xs = Seq::new(7, |j: int| x[j]@);
    let a = v_xor(&v_add(&a, &x[0]), &x[3]);
    let b = v_add(&v_xor(&b, &x[1]), &x[4]);
    let c = v_xor(&v_add(&c, &x[2]), &x[5]);
    let (m0_lo, m0_hi) = mul_lo_hi_epu32(&a, &b);
    let (m1_lo, m1_hi) = mul_lo_hi_epu32(&b, &c);
    let a = rotl32(&v_xor(&a, &m1_hi), 11);
    let b = rotl32(&v_xor(&b, &m0_lo), 17);
    let c = rotl32(&v_xor(&c, &m0_hi), 23);
    let (m2_lo, m2_hi) = mul_lo_hi_epu32(&a, &c);
    let a = v_add(&v_add(&a, &m2_hi), &x[6]);
    let b = v_xor(&v_add(&b, &m1_lo), &x[0]);
    let c = v_add(&v_add(&c, &m2_lo), &x[1]);
    (rotl32(&a, 19), rotl32(&b, 29), rotl32(&c, 13))
}

/// The mixing function of the AVX2 path: seven eight-lane inputs into three
/// eight-lane outputs (see `mix7x3_spec`).
pub fn mix7x3_avx2(
    x0: Simd32,
    x1: Simd32,
    x2: Simd32,
    x3: Simd32,
    x4: Simd32,
    x5: Simd32,
    x6: Simd32,
) -> (r: (Simd32, Simd32, Simd32))
    ensures
        (r.0@, r.1@, r.2@) == mix7x3_spec(seq![x0@, x1@, x2@, x3@, x4@, x5@, x6@]),
{
    let ghost xs = seq![x0@, x1@, x2@, x3@, x4@, x5@, x6@];
    let a = [0x243f6a88u32; 8];
    let b = [0x9e3779b9u32; 8];
    let c = [0xb7e15162u32; 8];
    assert(a@ =~= splat32(0x243f6a88));
    assert(b@ =~= splat32(0x9e3779b9));
    assert(c@ =~= splat32(0xb7e15162));
    let first = [x0, x1, x2, x3, x4, x5, x6];
    assert(Seq::new(7, |j: int| first[j]@) =~= xs);
    let (a, b, c) = round_avx2(a, b, c, first);
    let second = [x3, x4, x5, x6, x0, x1, x2];
    assert(Seq::new(7, |j: int| second[j]@) =~= seq![xs[3], xs[4], xs[5], xs[6], xs[0], xs[1], xs[2]]);
    let (a, b, c) = round_avx2(a, b, c, second);
    let third = [x6, x0, x1, x2, x3, x4, x5];
    assert(Seq::new(7, |j: int| third[j]@) =~= seq![xs[6], xs[0], xs[1], xs[2], xs[3], xs[4], xs[5]]);
    let (a, b, c) = round_avx2(a, b, c, third);
    let a = v_xor(&a, &v_swap_halves(&b));
    let b = v_add(&b, &v_swap_pairs(&c));
    let c = v_xor(&c, &a);
    let (m_lo, m_hi) = mul_lo_hi_epu32(&a, &b);
    (rotl32(&v_xor(&a, &m_hi), 15), rotl32(&v_xor(&b, &m_lo), 21), rotl32(&v_add(&c, &m_hi), 27))
}

} // verus!
