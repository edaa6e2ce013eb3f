//! Linear maps over GF(2) on 128-bit vectors (packed TinyMT64 lane states): 128x128
//! bit matrices stored by columns, applied to vectors, composed and raised to powers.
//! They carry the TinyMT64 sub-generators far ahead in one step.
use vstd::prelude::*;
use crate::generate::{
    TINYMT64_LANE_MASK, TINYMT_MAT1, TINYMT_MAT2, low_bit_mask, rotl64, tinymt_next0, tinymt_next1,
    tinymt_x, xoshiro_next,
};

verus! {

/// Bit `i` of `v`.
pub open spec fn bit128(v: u128, i: int) -> bool {
    (v >> (i as u128)) & 1 == 1
}

/// The exclusive or of the columns `mat[j]`, `j < n`, for which bit `j` of `v` is set.
pub open spec fn apply_upto(mat: Seq<u128>, v: u128, n: nat) -> u128
    decreases n,
{
    if n == 0 {
        0
    } else {
        apply_upto(mat, v, (n - 1) as nat) ^ (if bit128(v, n - 1) {
            mat[n - 1]
        } else {
            0
        })
    }
}

/// The matrix with columns `mat` applied to the vector `v`.
pub open spec fn apply128(mat: Seq<u128>, v: u128) -> u128 {
    apply_upto(mat, v, 128)
}

/// `v` carried `k` times through the matrix with columns `mat`.
pub open spec fn iter128(mat: Seq<u128>, v: u128, k: nat) -> u128
    decreases k,
{
    if k == 0 {
        v
    } else {
        apply128(mat, iter128(mat, v, (k - 1) as nat))
    }
}

proof fn lemma_shift_step(v: u128, i: u128)
    by (bit_vector)
    requires
        i < 128,
    ensures
        (v >> i) >> 1u128 == v >> (i + 1) as u128,
        (v >> i) & 1 == 1 || (v >> i) & 1 == 0,
{
}

proof fn lemma_xor_facts(a: u128, b: u128, c: u128, d: u128)
    by (bit_vector)
    ensures
        (a ^ b) ^ (c ^ d) == (a ^ c) ^ (b ^ d),
        a ^ 0 == a,
        0 ^ a == a,
        a ^ a == 0,
{
}

proof fn lemma_bit_xor(x: u128, y: u128, i: int)
    requires
        0 <= i < 128,
    ensures
        bit128(x ^ y, i) == (bit128(x, i) != bit128(y, i)),
        !bit128(0, i),
{
    let s = i as u128;
    assert((((x ^ y) >> s) & 1 == 1) == (((x >> s) & 1 == 1) != ((y >> s) & 1 == 1)) && !((0u128
        >> s) & 1 == 1)) by (bit_vector);
}

/// The zero vector is carried to zero.
pub proof fn lemma_apply_zero(mat: Seq<u128>, n: nat)
    requires
        n <= 128,
    ensures
        apply_upto(mat, 0, n) == 0,
    decreases n,
{
    if n > 0 {
        lemma_apply_zero(mat, (n - 1) as nat);
        lemma_bit_xor(0, 0, n - 1);
        lemma_xor_facts(0, 0, 0, 0);
    }
}

/// Applying a matrix is linear: it carries `x ^ y` to the exclusive or of the images.
pub proof fn lemma_apply_xor(mat: Seq<u128>, x: u128, y: u128, n: nat)
    requires
        n <= 128,
    ensures
        apply_upto(mat, x ^ y, n) == apply_upto(mat, x, n) ^ apply_upto(mat, y, n),
    decreases n,
{
    if n > 0 {
        let k = n - 1;
        lemma_apply_xor(mat, x, y, k as nat);
        lemma_bit_xor(x, y, k);
        let ux = apply_upto(mat, x, k as nat);
        let uy = apply_upto(mat, y, k as nat);
        let tx: u128 = if bit128(x, k) { mat[k] } else { 0 };
        let ty: u128 = if bit128(y, k) { mat[k] } else { 0 };
        let txy: u128 = if bit128(x ^ y, k) { mat[k] } else { 0 };
        lemma_xor_facts(ux, uy, tx, ty);
        lemma_xor_facts(mat[k], mat[k], 0, 0);
        lemma_xor_facts(0, 0, 0, 0);
        assert(txy == tx ^ ty);
        assert(apply_upto(mat, x ^ y, n) == (ux ^ uy) ^ txy);
        assert(apply_upto(mat, x, n) == ux ^ tx);
        assert(apply_upto(mat, y, n) == uy ^ ty);
        assert((ux ^ uy) ^ (tx ^ ty) == (ux ^ tx) ^ (uy ^ ty));
    } else {
        lemma_xor_facts(0, 0, 0, 0);
    }
}

/// Applies the 128x128 matrix with columns `mat` to `vec`.
pub fn apply_mat(mat: &[u128; 128], vec: u128) -> (r: u128)
    ensures
        r == apply128(mat@, vec),
{
    let mut res: u128 = 0;
    let mut v = vec;
    let mut i: usize = 0;
    assert(vec >> 0u128 == vec) by (bit_vector);
    while i < 128
        invariant
            i <= 128,
            v == vec >> (i as u128),
            res == apply_upto(mat@, vec, i as nat),
        decreases 128 - i,
    {
        proof {
            lemma_shift_step(vec, i as u128);
        }
        let ghost old_res = res;
        if v & 1 != 0 {
            res = res ^ mat[i];
        }
        assert(res == old_res ^ (if bit128(vec, i as int) { mat@[i as int] } else { 0 })) by {
            if !bit128(vec, i as int) {
                assert(old_res ^ 0 == old_res) by (bit_vector);
            }
        }
        v = v >> 1;
        i += 1;
    }
    res
}

/// The product `a * b` of two 128x128 matrices: column `i` is `a` applied to column
/// `i` of `b`.
pub fn mul_mat(a: &[u128; 128], b: &[u128; 128]) -> (r: [u128; 128])
    ensures
        forall|i: int| 0 <= i < 128 ==> #[trigger] r[i] == apply128(a@, b[i]),
{
    let mut res = [0u128; 128];
    let mut i: usize = 0;
    while i < 128
        invariant
            i <= 128,
            forall|j: int| 0 <= j < i ==> #[trigger] res[j] == apply128(a@, b[j]),
        decreases 128 - i,
    {
        res[i] = apply_mat(a, b[i]);
        i += 1;
    }
    res
}

/// The columns `r[i] = a(b[i])` describe the composition of `a` after `b`.
pub proof fn lemma_mul_mat(a: Seq<u128>, b: Seq<u128>, r: Seq<u128>, v: u128, n: nat)
    requires
        n <= 128,
        r.len() >= 128,
        forall|i: int| 0 <= i < 128 ==> #[trigger] r[i] == apply128(a, b[i]),
    ensures
        apply_upto(r, v, n) == apply128(a, apply_upto(b, v, n)),
    decreases n,
{
    if n == 0 {
        lemma_apply_zero(a, 128);
    } else {
        let k = n - 1;
        lemma_mul_mat(a, b, r, v, k as nat);
        let prev = apply_upto(b, v, k as nat);
        if bit128(v, k) {
            lemma_apply_xor(a, prev, b[k], 128);
        } else {
            lemma_xor_facts(prev, 0, 0, 0);
            lemma_xor_facts(apply128(a, prev), 0, 0, 0);
        }
    }
}

/// The columns `r[i] = a(b[i])` describe the composition of `a` after `b`.
pub proof fn lemma_mul_mat_full(a: Seq<u128>, b: Seq<u128>, r: Seq<u128>, v: u128)
    requires
        r.len() >= 128,
        forall|i: int| 0 <= i < 128 ==> #[trigger] r[i] == apply128(a, b[i]),
    ensures
        apply128(r, v) == apply128(a, apply128(b, v)),
{
    lemma_mul_mat(a, b, r, v, 128);
}

/// The identity columns `1 << i`, `i < n`, applied to `v` keep the low `n` bits of `v`.
pub open spec fn low_bits128(v: u128, n: nat) -> u128 {
    if n >= 128 {
        v
    } else {
        v & (((1u128 << (n as u128)) - 1) as u128)
    }
}

/// The identity matrix.
pub open spec fn is_identity128(mat: Seq<u128>) -> bool {
    &&& mat.len() == 128
    &&& forall|i: int| 0 <= i < 128 ==> #[trigger] mat[i] == 1u128 << (i as u128)
}

proof fn lemma_low_bits_step(v: u128, n: nat)
    requires
        n < 128,
    ensures
        low_bits128(v, n + 1) == low_bits128(v, n) ^ (if bit128(v, n as int) {
            1u128 << (n as u128)
        } else {
            0
        }),
        low_bits128(v, 0) == 0,
{
    let s = n as u128;
    if n + 1 == 128 {
        assert(v & (((1u128 << 0u128) - 1) as u128) == 0 && v == (v & (((1u128 << s) - 1) as u128))
            ^ (if (v >> s) & 1 == 1 {
            1u128 << s
        } else {
            0
        })) by (bit_vector)
            requires
                s == 127,
        ;
    } else {
        assert(v & (((1u128 << 0u128) - 1) as u128) == 0 && v & (((1u128 << ((s + 1) as u128)) - 1)
            as u128) == (v & (((1u128 << s) - 1) as u128)) ^ (if (v >> s) & 1 == 1 {
            1u128 << s
        } else {
            0
        })) by (bit_vector)
            requires
                s < 127,
        ;
    }
}

/// The identity matrix keeps every vector.
pub proof fn lemma_identity128(mat: Seq<u128>, v: u128, n: nat)
    requires
        is_identity128(mat),
        n <= 128,
    ensures
        apply_upto(mat, v, n) == low_bits128(v, n),
    decreases n,
{
    if n == 0 {
        lemma_low_bits_step(v, 0);
    } else {
        lemma_identity128(mat, v, (n - 1) as nat);
        lemma_low_bits_step(v, (n - 1) as nat);
    }
}

/// `v` carried `p` times and then `q` times is `v` carried `p + q` times.
pub proof fn lemma_iter128_add(mat: Seq<u128>, v: u128, p: nat, q: nat)
    ensures
        iter128(mat, iter128(mat, v, p), q) == iter128(mat, v, p + q),
    decreases q,
{
    if q > 0 {
        lemma_iter128_add(mat, v, p, (q - 1) as nat);
    }
}

/// The identity matrix.
fn identity_mat() -> (r: [u128; 128])
    ensures
        is_identity128(r@),
{
    let mut res = [0u128; 128];
    let mut i: usize = 0;
    while i < 128
        invariant
            i <= 128,
            forall|j: int| 0 <= j < i ==> #[trigger] res[j] == 1u128 << (j as u128),
        decreases 128 - i,
    {
        res[i] = 1u128 << (i as u128);
        i += 1;
    }
    res
}

/// `a` raised to the power `n`: `a` applied `n` times.
pub fn pow_mat(a: [u128; 128], n: u128) -> (r: [u128; 128])
    ensures
        forall|v: u128| #[trigger] apply128(r@, v) == iter128(a@, v, n as nat),
{
    let ghost a0 = a;
    let mut base = a;
    let mut res = identity_mat();
    let mut rem = n;
    let ghost mut done: nat = 0;
    let ghost mut pow: nat = 1;
    proof {
        assert forall|v: u128| #[trigger] apply128(res@, v) == iter128(a0@, v, done) by {
            lemma_identity128(res@, v, 128);
        }
        assert forall|v: u128| #[trigger] apply128(base@, v) == iter128(a0@, v, pow) by {
            assert(iter128(a0@, v, 0) == v);
        }
    }
    while rem > 0
        invariant
            n == rem * pow + done,
            done < pow,
            forall|v: u128| #[trigger] apply128(res@, v) == iter128(a0@, v, done),
            forall|v: u128| #[trigger] apply128(base@, v) == iter128(a0@, v, pow),
        decreases rem,
    {
        let ghost done_before = done;
        assert(n == rem * pow + done);
        if rem & 1 != 0 {
            let new_res = mul_mat(&base, &res);
            proof {
                assert forall|v: u128| #[trigger]
                    apply128(new_res@, v) == iter128(a0@, v, done + pow) by {
                    lemma_mul_mat_full(base@, res@, new_res@, v);
                    lemma_iter128_add(a0@, v, done, pow);
                    assert(apply128(base@, apply128(res@, v)) == iter128(a0@, iter128(a0@, v, done), pow));
                }
                done = done + pow;
            }
            res = new_res;
        }
        let new_base = mul_mat(&base, &base);
        proof {
            assert forall|v: u128| #[trigger]
                apply128(new_base@, v) == iter128(a0@, v, pow + pow) by {
                lemma_mul_mat_full(base@, base@, new_base@, v);
                lemma_iter128_add(a0@, v, pow, pow);
                assert(apply128(base@, apply128(base@, v)) == iter128(a0@, iter128(a0@, v, pow), pow));
            }
            assert((rem & 1 != 0) == (rem % 2 == 1) && rem >> 1 == rem / 2) by (bit_vector);
            let half = (rem / 2) as nat;
            assert(n == half * (pow + pow) + done) by (nonlinear_arith)
                requires
                    rem == 2 * half + rem % 2,
                    rem % 2 == 1 ==> n == rem * pow + done - pow,
                    rem % 2 == 0 ==> n == rem * pow + done,
                    0 <= rem % 2 < 2,
            ;
            pow = pow + pow;
        }
        base = new_base;
        rem = rem >> 1;
    }
    res
}

/// `2^n` as a natural number.
pub open spec fn two_pow(n: nat) -> nat
    decreases n,
{
    if n == 0 {
        1
    } else {
        2 * two_pow((n - 1) as nat)
    }
}

/// `a` squared `exp` times: `a` raised to the power `2^exp`.
pub fn pow_mat_2_exp(a: [u128; 128], exp: u32) -> (r: [u128; 128])
    ensures
        forall|v: u128| #[trigger] apply128(r@, v) == iter128(a@, v, two_pow(exp as nat)),
{
    let ghost a0 = a;
    let mut cur = a;
    let mut e = exp;
    let ghost mut done: nat = 0;
    proof {
        assert forall|v: u128| #[trigger] apply128(cur@, v) == iter128(a0@, v, two_pow(done)) by {
            assert(iter128(a0@, v, 0) == v);
        }
    }
    while e > 0
        invariant
            e + done == exp,
            forall|v: u128| #[trigger] apply128(cur@, v) == iter128(a0@, v, two_pow(done)),
        decreases e,
    {
        let next = mul_mat(&cur, &cur);
        proof {
            let p = two_pow(done);
            assert forall|v: u128| #[trigger]
                apply128(next@, v) == iter128(a0@, v, two_pow(done + 1)) by {
                lemma_mul_mat_full(cur@, cur@, next@, v);
                lemma_iter128_add(a0@, v, p, p);
                assert(apply128(cur@, apply128(cur@, v)) == iter128(a0@, iter128(a0@, v, p), p));
            }
            done = done + 1;
        }
        cur = next;
        e -= 1;
    }
    cur
}

/// One TinyMT64 step on a lane state packed as `tm0 | tm1 << 64`.
pub open spec fn tinymt_step128(v: u128) -> u128 {
    let tm0 = v as u64;
    let tm1 = (v >> 64u128) as u64;
    (tinymt_next0(tm0, tm1) as u128) | ((tinymt_next1(tm0, tm1) as u128) << 64u128)
}

/// `k` TinyMT64 steps on a packed lane state.
pub open spec fn tinymt_iter128(v: u128, k: nat) -> u128
    decreases k,
{
    if k == 0 {
        v
    } else {
        tinymt_step128(tinymt_iter128(v, (k - 1) as nat))
    }
}

proof fn lemma_tinymt_words_linear(a0: u64, a1: u64, b0: u64, b1: u64)
    ensures
        tinymt_next0(a0 ^ b0, a1 ^ b1) == tinymt_next0(a0, a1) ^ tinymt_next0(b0, b1),
        tinymt_next1(a0 ^ b0, a1 ^ b1) == tinymt_next1(a0, a1) ^ tinymt_next1(b0, b1),
        tinymt_next0(0, 0) == 0,
        tinymt_next1(0, 0) == 0,
{
    let xa = tinymt_x(a0, a1);
    let xb = tinymt_x(b0, b1);
    let xab = tinymt_x(a0 ^ b0, a1 ^ b1);
    assert(xab == xa ^ xb) by (bit_vector)
        requires
            xa == {
                let x0 = (a0 & 0x7fff_ffff_ffff_ffffu64) ^ a1;
                let x1 = x0 ^ (x0 << 12u64);
                let x2 = x1 ^ (x1 >> 32u64);
                let x3 = x2 ^ (x2 << 32u64);
                x3 ^ (x3 << 11u64)
            },
            xb == {
                let x0 = (b0 & 0x7fff_ffff_ffff_ffffu64) ^ b1;
                let x1 = x0 ^ (x0 << 12u64);
                let x2 = x1 ^ (x1 >> 32u64);
                let x3 = x2 ^ (x2 << 32u64);
                x3 ^ (x3 << 11u64)
            },
            xab == {
                let x0 = ((a0 ^ b0) & 0x7fff_ffff_ffff_ffffu64) ^ (a1 ^ b1);
                let x1 = x0 ^ (x0 << 12u64);
                let x2 = x1 ^ (x1 >> 32u64);
                let x3 = x2 ^ (x2 << 32u64);
                x3 ^ (x3 << 11u64)
            },
    ;
    let ma = low_bit_mask(xa);
    let mb = low_bit_mask(xb);
    let mab = low_bit_mask(xab);
    assert(mab == ma ^ mb) by (bit_vector)
        requires
            xab == xa ^ xb,
            ma == (if xa & 1 == 0 { 0u64 } else { 0xffff_ffff_ffff_ffffu64 }),
            mb == (if xb & 1 == 0 { 0u64 } else { 0xffff_ffff_ffff_ffffu64 }),
            mab == (if xab & 1 == 0 { 0u64 } else { 0xffff_ffff_ffff_ffffu64 }),
    ;
    assert((a1 ^ b1) ^ (mab & 0xdaa51b54u64) == (a1 ^ (ma & 0xdaa51b54u64)) ^ (b1 ^ (mb
        & 0xdaa51b54u64))) by (bit_vector)
        requires
            mab == ma ^ mb,
    ;
    assert(xab ^ (mab & 0xfed47fb5_0000_0000u64) == (xa ^ (ma & 0xfed47fb5_0000_0000u64)) ^ (xb
        ^ (mb & 0xfed47fb5_0000_0000u64))) by (bit_vector)
        requires
            mab == ma ^ mb,
            xab == xa ^ xb,
    ;
    let z = tinymt_x(0, 0);
    assert(z == 0 && 0u64 & 1 == 0 && 0u64 ^ (0u64 & 0xdaa51b54u64) == 0 && 0u64 ^ (0u64
        & 0xfed47fb5_0000_0000u64) == 0) by (bit_vector)
        requires
            z == {
                let x0 = (0u64 & 0x7fff_ffff_ffff_ffffu64) ^ 0u64;
                let x1 = x0 ^ (x0 << 12u64);
                let x2 = x1 ^ (x1 >> 32u64);
                let x3 = x2 ^ (x2 << 32u64);
                x3 ^ (x3 << 11u64)
            },
    ;
}

/// A TinyMT64 step is linear over GF(2).
pub proof fn lemma_tinymt_step_linear(x: u128, y: u128)
    ensures
        tinymt_step128(x ^ y) == tinymt_step128(x) ^ tinymt_step128(y),
        tinymt_step128(0) == 0,
{
    let x0 = x as u64;
    let x1 = (x >> 64u128) as u64;
    let y0 = y as u64;
    let y1 = (y >> 64u128) as u64;
    assert((x ^ y) as u64 == x0 ^ y0 && ((x ^ y) >> 64u128) as u64 == x1 ^ y1 && (0u128 as u64)
        == 0u64 && ((0u128 >> 64u128) as u64) == 0u64 && ((0u64 as u128) | ((0u64 as u128)
        << 64u128)) == 0u128) by (bit_vector)
        requires
            x0 == x as u64,
            x1 == (x >> 64u128) as u64,
            y0 == y as u64,
            y1 == (y >> 64u128) as u64,
    ;
    lemma_tinymt_words_linear(x0, x1, y0, y1);
    let p0 = tinymt_next0(x0, x1);
    let p1 = tinymt_next1(x0, x1);
    let q0 = tinymt_next0(y0, y1);
    let q1 = tinymt_next1(y0, y1);
    assert(((p0 ^ q0) as u128) | (((p1 ^ q1) as u128) << 64u128) == ((p0 as u128) | ((p1 as u128)
        << 64u128)) ^ ((q0 as u128) | ((q1 as u128) << 64u128))) by (bit_vector);
}

/// The matrix of one TinyMT64 step: column `i` is the step applied to bit `i`.
pub fn compute_tinymt_mat() -> (r: [u128; 128])
    ensures
        forall|i: int| 0 <= i < 128 ==> #[trigger] r[i] == tinymt_step128(1u128 << (i as u128)),
{
    let mut res = [0u128; 128];
    let mut i: usize = 0;
    while i < 128
        invariant
            i <= 128,
            forall|j: int|
                0 <= j < i ==> #[trigger] res[j] == tinymt_step128(1u128 << (j as u128)),
        decreases 128 - i,
    {
        let state = 1u128 << (i as u128);
        let mut tm0 = (state as u64) & TINYMT64_LANE_MASK;
        let mut tm1 = (state >> 64) as u64;
        let ghost s0 = state as u64;
        let ghost s1 = tm1;
        let mut x = tm0 ^ tm1;
        x ^= x << 12;
        x ^= x >> 32;
        x ^= x << 32;
        x ^= x << 11;
        assert(x == tinymt_x(s0, s1));
        assert(x & 1 == 0 || x & 1 == 1) by (bit_vector);
        let mask = 0u64.wrapping_sub(x & 1);
        tm0 = tm1 ^ (mask & TINYMT_MAT1);
        tm1 = x ^ (mask & TINYMT_MAT2);
        res[i] = (tm0 as u128) | ((tm1 as u128) << 64);
        i += 1;
    }
    res
}

/// The TinyMT64 step matrix applied to bits below `n` of `v` is the step applied to
/// those bits.
proof fn lemma_tinymt_mat_upto(mat: Seq<u128>, v: u128, n: nat)
    requires
        n <= 128,
        mat.len() == 128,
        forall|i: int| 0 <= i < 128 ==> #[trigger] mat[i] == tinymt_step128(1u128 << (i as u128)),
    ensures
        apply_upto(mat, v, n) == tinymt_step128(low_bits128(v, n)),
    decreases n,
{
    if n == 0 {
        lemma_low_bits_step(v, 0);
        lemma_tinymt_step_linear(0, 0);
    } else {
        let k = (n - 1) as nat;
        lemma_tinymt_mat_upto(mat, v, k);
        lemma_low_bits_step(v, k);
        let t: u128 = if bit128(v, k as int) { 1u128 << (k as u128) } else { 0 };
        lemma_tinymt_step_linear(low_bits128(v, k), t);
        lemma_tinymt_step_linear(0, 0);
    }
}

/// The TinyMT64 step matrix carries every packed lane state through one step.
pub proof fn lemma_tinymt_mat(mat: Seq<u128>, v: u128)
    requires
        mat.len() == 128,
        forall|i: int| 0 <= i < 128 ==> #[trigger] mat[i] == tinymt_step128(1u128 << (i as u128)),
    ensures
        apply128(mat, v) == tinymt_step128(v),
{
    lemma_tinymt_mat_upto(mat, v, 128);
}

/// Powers of the TinyMT64 step matrix carry a packed lane state through as many steps.
pub proof fn lemma_tinymt_mat_iter(mat: Seq<u128>, v: u128, k: nat)
    requires
        mat.len() == 128,
        forall|i: int| 0 <= i < 128 ==> #[trigger] mat[i] == tinymt_step128(1u128 << (i as u128)),
    ensures
        iter128(mat, v, k) == tinymt_iter128(v, k),
    decreases k,
{
    if k > 0 {
        lemma_tinymt_mat_iter(mat, v, (k - 1) as nat);
        lemma_tinymt_mat(mat, tinymt_iter128(v, (k - 1) as nat));
    }
}

} // verus!
