//! Linear maps over GF(2) on 256-bit vectors (xoshiro256 states): 256x256 bit
//! matrices stored by columns, applied, composed and raised to powers.
use vstd::prelude::*;
use crate::generate::{rotl64, xoshiro_next};
use crate::gf2::two_pow;

verus! {

// ============================================================================
// 256-bit vectors (xoshiro256 states)
// ============================================================================

/// Word-wise exclusive or of two 256-bit vectors.
pub open spec fn xor4(a: [u64; 4], b: [u64; 4]) -> [u64; 4] {
    [a[0] ^ b[0], a[1] ^ b[1], a[2] ^ b[2], a[3] ^ b[3]]
}

/// The zero 256-bit vector.
pub open spec fn zero4() -> [u64; 4] {
    [0u64, 0, 0, 0]
}

/// Bit `i` of a 256-bit vector (bit `i % 64` of word `i / 64`).
pub open spec fn bit256(v: [u64; 4], i: int) -> bool {
    (v[i / 64] >> ((i % 64) as u64)) & 1 == 1
}

/// The exclusive or of the columns `mat[j]`, `j < n`, for which bit `j` of `v` is set.
pub open spec fn apply_upto256(mat: Seq<[u64; 4]>, v: [u64; 4], n: nat) -> [u64; 4]
    decreases n,
{
    if n == 0 {
        zero4()
    } else {
        xor4(apply_upto256(mat, v, (n - 1) as nat), if bit256(v, n - 1) {
            mat[n - 1]
        } else {
            zero4()
        })
    }
}

/// The matrix with columns `mat` applied to the 256-bit vector `v`.
pub open spec fn apply256(mat: Seq<[u64; 4]>, v: [u64; 4]) -> [u64; 4] {
    apply_upto256(mat, v, 256)
}

/// `v` carried `k` times through the matrix with columns `mat`.
pub open spec fn iter256(mat: Seq<[u64; 4]>, v: [u64; 4], k: nat) -> [u64; 4]
    decreases k,
{
    if k == 0 {
        v
    } else {
        apply256(mat, iter256(mat, v, (k - 1) as nat))
    }
}

proof fn lemma_xor64_facts(x: u64, y: u64, z: u64, w: u64)
    by (bit_vector)
    ensures
        (x ^ y) ^ (z ^ w) == (x ^ z) ^ (y ^ w),
        x ^ 0 == x,
        0 ^ x == x,
        x ^ x == 0,
{
}

proof fn lemma_xor4_facts(a: [u64; 4], b: [u64; 4], c: [u64; 4], d: [u64; 4])
    ensures
        xor4(xor4(a, b), xor4(c, d)) == xor4(xor4(a, c), xor4(b, d)),
        xor4(a, zero4()) == a,
        xor4(zero4(), a) == a,
        xor4(a, a) == zero4(),
{
    lemma_xor64_facts(a[0], b[0], c[0], d[0]);
    lemma_xor64_facts(a[1], b[1], c[1], d[1]);
    lemma_xor64_facts(a[2], b[2], c[2], d[2]);
    lemma_xor64_facts(a[3], b[3], c[3], d[3]);
    assert(xor4(xor4(a, b), xor4(c, d)) =~= xor4(xor4(a, c), xor4(b, d)));
    assert(xor4(a, zero4()) =~= a);
    assert(xor4(zero4(), a) =~= a);
    assert(xor4(a, a) =~= zero4());
}

proof fn lemma_bit256_xor(x: [u64; 4], y: [u64; 4], i: int)
    requires
        0 <= i < 256,
    ensures
        bit256(xor4(x, y), i) == (bit256(x, i) != bit256(y, i)),
        !bit256(zero4(), i),
{
    let w = i / 64;
    let s = (i % 64) as u64;
    let a = x[w];
    let b = y[w];
    assert(xor4(x, y)[w] == a ^ b);
    assert(zero4()[w] == 0);
    assert((((a ^ b) >> s) & 1 == 1) == (((a >> s) & 1 == 1) != ((b >> s) & 1 == 1)) && !((0u64
        >> s) & 1 == 1)) by (bit_vector);
}

/// The zero vector is carried to zero.
pub proof fn lemma_apply256_zero(mat: Seq<[u64; 4]>, n: nat)
    requires
        n <= 256,
    ensures
        apply_upto256(mat, zero4(), n) == zero4(),
    decreases n,
{
    if n > 0 {
        lemma_apply256_zero(mat, (n - 1) as nat);
        lemma_bit256_xor(zero4(), zero4(), n - 1);
        lemma_xor4_facts(zero4(), zero4(), zero4(), zero4());
    } 
}

/// Applying a 256-bit matrix is linear.
pub proof fn lemma_apply256_xor(mat: Seq<[u64; 4]>, x: [u64; 4], y: [u64; 4], n: nat)
    requires
        n <= 256,
    ensures
        apply_upto256(mat, xor4(x, y), n) == xor4(apply_upto256(mat, x, n), apply_upto256(mat, y, n)),
    decreases n,
{
    if n > 0 {
        let k = n - 1;
        lemma_apply256_xor(mat, x, y, k as nat);
        lemma_bit256_xor(x, y, k);
        let ux = apply_upto256(mat, x, k as nat);
        let uy = apply_upto256(mat, y, k as nat);
        let tx = if bit256(x, k) { mat[k] } else { zero4() };
        let ty = if bit256(y, k) { mat[k] } else { zero4() };
        let txy = if bit256(xor4(x, y), k) { mat[k] } else { zero4() };
        lemma_xor4_facts(ux, uy, tx, ty);
        lemma_xor4_facts(mat[k], mat[k], zero4(), zero4());
        lemma_xor4_facts(zero4(), zero4(), zero4(), zero4());
        assert(txy == xor4(tx, ty));
        assert(apply_upto256(mat, xor4(x, y), n) == xor4(xor4(ux, uy), txy));
        assert(apply_upto256(mat, x, n) == xor4(ux, tx));
        assert(apply_upto256(mat, y, n) == xor4(uy, ty));
    } else {
        lemma_xor4_facts(zero4(), zero4(), zero4(), zero4());
    }
}

/// The columns `r[i] = a(b[i])` describe the composition of `a` after `b`.
pub proof fn lemma_mul_mat256(
    a: Seq<[u64; 4]>,
    b: Seq<[u64; 4]>,
    r: Seq<[u64; 4]>,
    v: [u64; 4],
    n: nat,
)
    requires
        n <= 256,
        r.len() >= 256,
        forall|i: int| 0 <= i < 256 ==> #[trigger] r[i] == apply256(a, b[i]),
    ensures
        apply_upto256(r, v, n) == apply256(a, apply_upto256(b, v, n)),
    decreases n,
{
    if n == 0 {
        lemma_apply256_zero(a, 256);
    } else {
        let k = n - 1;
        lemma_mul_mat256(a, b, r, v, k as nat);
        let prev = apply_upto256(b, v, k as nat);
        if bit256(v, k) {
            lemma_apply256_xor(a, prev, b[k], 256);
        } else {
            lemma_xor4_facts(prev, zero4(), zero4(), zero4());
            lemma_xor4_facts(apply256(a, prev), zero4(), zero4(), zero4());
        }
    }
}

/// The columns `r[i] = a(b[i])` describe the composition of `a` after `b`.
pub proof fn lemma_mul_mat256_full(a: Seq<[u64; 4]>, b: Seq<[u64; 4]>, r: Seq<[u64; 4]>, v: [u64; 4])
    requires
        r.len() >= 256,
        forall|i: int| 0 <= i < 256 ==> #[trigger] r[i] == apply256(a, b[i]),
    ensures
        apply256(r, v) == apply256(a, apply256(b, v)),
{
    lemma_mul_mat256(a, b, r, v, 256);
}

/// `v` carried `p` times and then `q` times is `v` carried `p + q` times.
pub proof fn lemma_iter256_add(mat: Seq<[u64; 4]>, v: [u64; 4], p: nat, q: nat)
    ensures
        iter256(mat, iter256(mat, v, p), q) == iter256(mat, v, p + q),
    decreases q,
{
    if q > 0 {
        lemma_iter256_add(mat, v, p, (q - 1) as nat);
    }
}

/// The 256-bit vector with only bit `i` set.
pub open spec fn unit256(i: int) -> [u64; 4] {
    [
        if i / 64 == 0 { 1u64 << ((i % 64) as u64) } else { 0 },
        if i / 64 == 1 { 1u64 << ((i % 64) as u64) } else { 0 },
        if i / 64 == 2 { 1u64 << ((i % 64) as u64) } else { 0 },
        if i / 64 == 3 { 1u64 << ((i % 64) as u64) } else { 0 },
    ]
}

/// The low `n` bits of one word of a 256-bit vector, where the word starts at bit
/// `64 * w`.
pub open spec fn low_bits_word(x: u64, w: int, n: nat) -> u64 {
    if n >= 64 * (w + 1) {
        x
    } else if n <= 64 * w {
        0
    } else {
        x & (((1u64 << ((n - 64 * w) as u64)) - 1) as u64)
    }
}

/// The low `n` bits of a 256-bit vector.
pub open spec fn low_bits256(v: [u64; 4], n: nat) -> [u64; 4] {
    [
        low_bits_word(v[0], 0, n),
        low_bits_word(v[1], 1, n),
        low_bits_word(v[2], 2, n),
        low_bits_word(v[3], 3, n),
    ]
}

proof fn lemma_low_bits_word_step(x: u64, w: int, n: nat)
    requires
        0 <= w < 4,
        n < 256,
    ensures
        low_bits_word(x, w, n + 1) == low_bits_word(x, w, n) ^ (if n / 64 == w && (x >> ((n
            % 64) as u64)) & 1 == 1 {
            1u64 << ((n % 64) as u64)
        } else {
            0
        }),
        low_bits_word(x, w, 0) == 0,
        low_bits_word(x, w, 256) == x,
{
    assert(x ^ 0 == x && 0u64 ^ 0 == 0) by (bit_vector);
    if n / 64 == w {
        let s = (n % 64) as u64;
        assert(n - 64 * w == s);
        if s == 63 {
            assert(x == (x & (((1u64 << s) - 1) as u64)) ^ (if (x >> s) & 1 == 1 {
                1u64 << s
            } else {
                0
            })) by (bit_vector)
                requires
                    s == 63,
            ;
        } else if s == 0 {
            assert(x & (((1u64 << 1u64) - 1) as u64) == 0u64 ^ (if (x >> 0u64) & 1 == 1 {
                1u64 << 0u64
            } else {
                0
            })) by (bit_vector);
        } else {
            assert(x & (((1u64 << ((s + 1) as u64)) - 1) as u64) == (x & (((1u64 << s) - 1) as u64))
                ^ (if (x >> s) & 1 == 1 {
                1u64 << s
            } else {
                0
            })) by (bit_vector)
                requires
                    0 < s < 63,
            ;
        }
    }
}

proof fn lemma_low_bits256_step(v: [u64; 4], n: nat)
    requires
        n < 256,
    ensures
        low_bits256(v, n + 1) == xor4(low_bits256(v, n), if bit256(v, n as int) {
            unit256(n as int)
        } else {
            zero4()
        }),
        low_bits256(v, 0) == zero4(),
        low_bits256(v, 256) == v,
{
    lemma_low_bits_word_step(v[0], 0, n);
    lemma_low_bits_word_step(v[1], 1, n);
    lemma_low_bits_word_step(v[2], 2, n);
    lemma_low_bits_word_step(v[3], 3, n);
    assert(low_bits256(v, 0) =~= zero4());
    assert(low_bits256(v, 256) =~= v);
    lemma_xor64_facts(v[0], 0, 0, 0);
    lemma_xor64_facts(v[1], 0, 0, 0);
    lemma_xor64_facts(v[2], 0, 0, 0);
    lemma_xor64_facts(v[3], 0, 0, 0);
    lemma_xor64_facts(0, 0, 0, 0);
    assert(low_bits256(v, n + 1) =~= xor4(low_bits256(v, n), if bit256(v, n as int) {
        unit256(n as int)
    } else {
        zero4()
    }));
}

/// Whether `mat` is the 256x256 identity matrix.
pub open spec fn is_identity256(mat: Seq<[u64; 4]>) -> bool {
    &&& mat.len() == 256
    &&& forall|i: int| 0 <= i < 256 ==> #[trigger] mat[i] == unit256(i)
}

/// The identity matrix keeps the low bits of every vector.
pub proof fn lemma_identity256(mat: Seq<[u64; 4]>, v: [u64; 4], n: nat)
    requires
        is_identity256(mat),
        n <= 256,
    ensures
        apply_upto256(mat, v, n) == low_bits256(v, n),
    decreases n,
{
    if n == 0 {
        lemma_low_bits256_step(v, 0);
    } else {
        lemma_identity256(mat, v, (n - 1) as nat);
        lemma_low_bits256_step(v, (n - 1) as nat);
    }
}

/// Applies the 256x256 matrix with columns `mat` to `vec`.
pub fn apply_mat_256(mat: &[[u64; 4]; 256], vec: [u64; 4]) -> (r: [u64; 4])
    ensures
        r == apply256(mat@, vec),
{
    let mut res = [0u64; 4];
    let mut i: usize = 0;
    assert(res =~= zero4());
    while i < 256
        invariant
            i <= 256,
            res == apply_upto256(mat@, vec, i as nat),
        decreases 256 - i,
    {
        let word = i / 64;
        let bit = (i % 64) as u64;
        let ghost old_res = res;
        let w = vec[word];
        assert((w >> bit) & 1 == 1 || (w >> bit) & 1 == 0) by (bit_vector);
        if (vec[word] >> bit) & 1 != 0 {
            res[0] ^= mat[i][0];
            res[1] ^= mat[i][1];
            res[2] ^= mat[i][2];
            res[3] ^= mat[i][3];
            assert(res =~= xor4(old_res, mat@[i as int]));
        } else {
            proof {
                lemma_xor4_facts(old_res, zero4(), zero4(), zero4());
            }
        }
        i += 1;
    }
    res
}

/// The product `a * b` of two 256x256 matrices: column `i` is `a` applied to column
/// `i` of `b`.
pub fn mul_mat_256(a: &[[u64; 4]; 256], b: &[[u64; 4]; 256]) -> (r: [[u64; 4]; 256])
    ensures
        forall|i: int| 0 <= i < 256 ==> #[trigger] r[i] == apply256(a@, b[i]),
{
    let mut res = [[0u64; 4]; 256];
    let mut i: usize = 0;
    while i < 256
        invariant
            i <= 256,
            forall|j: int| 0 <= j < i ==> #[trigger] res[j] == apply256(a@, b[j]),
        decreases 256 - i,
    {
        res[i] = apply_mat_256(a, b[i]);
        i += 1;
    }
    res
}

/// The 256x256 identity matrix.
fn identity_mat_256() -> (r: [[u64; 4]; 256])
    ensures
        is_identity256(r@),
{
    let mut res = [[0u64; 4]; 256];
    let mut i: usize = 0;
    while i < 256
        invariant
            i <= 256,
            forall|j: int| 0 <= j < i ==> #[trigger] res[j] == unit256(j),
            forall|j: int| i <= j < 256 ==> #[trigger] res[j] == zero4(),
        decreases 256 - i,
    {
        let word = i / 64;
        let bit = (i % 64) as u64;
        assert(res[i as int] =~= zero4());
        res[i][word] = 1u64 << bit;
        assert(res[i as int] =~= unit256(i as int));
        i += 1;
    }
    res
}

/// `a` raised to the power `n`: `a` applied `n` times.
pub fn pow_mat_256(a: [[u64; 4]; 256], n: u128) -> (r: [[u64; 4]; 256])
    ensures
        forall|v: [u64; 4]| #[trigger] apply256(r@, v) == iter256(a@, v, n as nat),
{
    let ghost a0 = a;
    let mut base = a;
    let mut res = identity_mat_256();
    let mut rem = n;
    let ghost mut done: nat = 0;
    let ghost mut pow: nat = 1;
    proof {
        assert forall|v: [u64; 4]| #[trigger] apply256(res@, v) == iter256(a0@, v, done) by {
            lemma_identity256(res@, v, 256);
            lemma_low_bits256_step(v, 0);
        }
        assert forall|v: [u64; 4]| #[trigger] apply256(base@, v) == iter256(a0@, v, pow) by {
            assert(iter256(a0@, v, 0) == v);
        }
    }
    while rem > 0
        invariant
            n == rem * pow + done,
            done < pow,
            forall|v: [u64; 4]| #[trigger] apply256(res@, v) == iter256(a0@, v, done),
            forall|v: [u64; 4]| #[trigger] apply256(base@, v) == iter256(a0@, v, pow),
        decreases rem,
    {
        assert(n == rem * pow + done);
        if rem & 1 != 0 {
            let new_res = mul_mat_256(&base, &res);
            proof {
                assert forall|v: [u64; 4]| #[trigger]
                    apply256(new_res@, v) == iter256(a0@, v, done + pow) by {
                    lemma_mul_mat256_full(base@, res@, new_res@, v);
                    lemma_iter256_add(a0@, v, done, pow);
                    assert(apply256(base@, apply256(res@, v)) == iter256(
                        a0@,
                        iter256(a0@, v, done),
                        pow,
                    ));
                }
                done = done + pow;
            }
            res = new_res;
        }
        let new_base = mul_mat_256(&base, &base);
        proof {
            assert forall|v: [u64; 4]| #[trigger]
                apply256(new_base@, v) == iter256(a0@, v, pow + pow) by {
                lemma_mul_mat256_full(base@, base@, new_base@, v);
                lemma_iter256_add(a0@, v, pow, pow);
                assert(apply256(base@, apply256(base@, v)) == iter256(
                    a0@,
                    iter256(a0@, v, pow),
                    pow,
                ));
            }
            assert((rem & 1 != 0) == (rem % 2 == 1) && rem >> 1 == rem / 2) by (bit_vector);
            let half = (rem / 2) as nat;
            assert(n == half * (pow + pow) + done) by (nonlinear_arith)
                requires
                    rem == 2 * half + rem % 2,
                    rem % 2 == 1 ==> n == rem * pow + done - pow,
                    rem % 2 == 0 ==> n == rem * pow + done,
                    0 <= rem % 2 < 2,
            ;
            pow = pow + pow;
        }
        base = new_base;
        rem = rem >> 1;
    }
    res
}

/// `a` squared `exp` times: `a` raised to the power `2^exp`.
pub fn pow_mat_256_2_exp(a: [[u64; 4]; 256], exp: u32) -> (r: [[u64; 4]; 256])
    ensures
        forall|v: [u64; 4]| #[trigger] apply256(r@, v) == iter256(a@, v, two_pow(exp as nat)),
{
    let ghost a0 = a;
    let mut cur = a;
    let mut e = exp;
    let ghost mut done: nat = 0;
    proof {
        assert forall|v: [u64; 4]| #[trigger]
            apply256(cur@, v) == iter256(a0@, v, two_pow(done)) by {
            assert(iter256(a0@, v, 0) == v);
        }
    }
    while e > 0
        invariant
            e + done == exp,
            forall|v: [u64; 4]| #[trigger] apply256(cur@, v) == iter256(a0@, v, two_pow(done)),
        decreases e,
    {
        let next = mul_mat_256(&cur, &cur);
        proof {
            let p = two_pow(done);
            assert forall|v: [u64; 4]| #[trigger]
                apply256(next@, v) == iter256(a0@, v, two_pow(done + 1)) by {
                lemma_mul_mat256_full(cur@, cur@, next@, v);
                lemma_iter256_add(a0@, v, p, p);
                assert(apply256(cur@, apply256(cur@, v)) == iter256(a0@, iter256(a0@, v, p), p));
            }
            done = done + 1;
        }
        cur = next;
        e -= 1;
    }
    cur
}

/// `k` xoshiro256 steps.
pub open spec fn xoshiro_iter(s: [u64; 4], k: nat) -> [u64; 4]
    decreases k,
{
    if k == 0 {
        s
    } else {
        xoshiro_next(xoshiro_iter(s, (k - 1) as nat))
    }
}

proof fn lemma_xoshiro_words_linear(a0: u64, a1: u64, a2: u64, a3: u64, b0: u64, b1: u64, b2: u64, b3: u64)
    ensures
        (a0 ^ b0) ^ ((a3 ^ b3) ^ (a1 ^ b1)) == (a0 ^ (a3 ^ a1)) ^ (b0 ^ (b3 ^ b1)),
        (a1 ^ b1) ^ ((a2 ^ b2) ^ (a0 ^ b0)) == (a1 ^ (a2 ^ a0)) ^ (b1 ^ (b2 ^ b0)),
        ((a2 ^ b2) ^ (a0 ^ b0)) ^ ((a1 ^ b1) << 17u64) == ((a2 ^ a0) ^ (a1 << 17u64)) ^ ((b2 ^ b0)
            ^ (b1 << 17u64)),
        rotl64((a3 ^ b3) ^ (a1 ^ b1), 45) == rotl64(a3 ^ a1, 45) ^ rotl64(b3 ^ b1, 45),
{
    assert((a0 ^ b0) ^ ((a3 ^ b3) ^ (a1 ^ b1)) == (a0 ^ (a3 ^ a1)) ^ (b0 ^ (b3 ^ b1)) && (a1 ^ b1)
        ^ ((a2 ^ b2) ^ (a0 ^ b0)) == (a1 ^ (a2 ^ a0)) ^ (b1 ^ (b2 ^ b0)) && ((a2 ^ b2) ^ (a0 ^ b0))
        ^ ((a1 ^ b1) << 17u64) == ((a2 ^ a0) ^ (a1 << 17u64)) ^ ((b2 ^ b0) ^ (b1 << 17u64)))
        by (bit_vector);
    let x = (a3 ^ b3) ^ (a1 ^ b1);
    let y = a3 ^ a1;
    let z = b3 ^ b1;
    assert(x == y ^ z) by (bit_vector)
        requires
            x == (a3 ^ b3) ^ (a1 ^ b1),
            y == a3 ^ a1,
            z == b3 ^ b1,
    ;
    assert((x << 45u64) | (x >> 19u64) == ((y << 45u64) | (y >> 19u64)) ^ ((z << 45u64) | (z
        >> 19u64))) by (bit_vector)
        requires
            x == y ^ z,
    ;
}

/// A xoshiro256 step is linear over GF(2).
pub proof fn lemma_xoshiro_linear(a: [u64; 4], b: [u64; 4])
    ensures
        xoshiro_next(xor4(a, b)) == xor4(xoshiro_next(a), xoshiro_next(b)),
        xoshiro_next(zero4()) == zero4(),
{
    lemma_xoshiro_words_linear(a[0], a[1], a[2], a[3], b[0], b[1], b[2], b[3]);
    lemma_xoshiro_words_linear(0, 0, 0, 0, 0, 0, 0, 0);
    lemma_xor64_facts(0, 0, 0, 0);
    assert(rotl64(0, 45) == 0 && (0u64 << 17u64) == 0) by (bit_vector);
    assert(xoshiro_next(xor4(a, b)) =~= xor4(xoshiro_next(a), xoshiro_next(b)));
    assert(xoshiro_next(zero4()) =~= zero4());
}

/// The matrix of one xoshiro256 step: column `i` is the step applied to bit `i`.
pub fn compute_xoshiro256_mat() -> (r: [[u64; 4]; 256])
    ensures
        forall|i: int| 0 <= i < 256 ==> #[trigger] r[i] == xoshiro_next(unit256(i)),
{
    let mut res = [[0u64; 4]; 256];
    let mut i: usize = 0;
    while i < 256
        invariant
            i <= 256,
            forall|j: int| 0 <= j < i ==> #[trigger] res[j] == xoshiro_next(unit256(j)),
        decreases 256 - i,
    {
        let word = i / 64;
        let bit = (i % 64) as u64;
        let mut state = [0u64; 4];
        state[word] = 1u64 << bit;
        assert(state =~= unit256(i as int));
        let ghost s = state;
        let t = state[1] << 17;
        state[2] ^= state[0];
        state[3] ^= state[1];
        state[1] ^= state[2];
        state[0] ^= state[3];
        state[2] ^= t;
        state[3] = (state[3] << 45) | (state[3] >> 19);
        assert(state =~= xoshiro_next(s));
        res[i] = state;
        i += 1;
    }
    res
}

/// The xoshiro256 step matrix applied to bits below `n` of `v` is the step applied to
/// those bits.
proof fn lemma_xoshiro_mat_upto(mat: Seq<[u64; 4]>, v: [u64; 4], n: nat)
    requires
        n <= 256,
        mat.len() == 256,
        forall|i: int| 0 <= i < 256 ==> #[trigger] mat[i] == xoshiro_next(unit256(i)),
    ensures
        apply_upto256(mat, v, n) == xoshiro_next(low_bits256(v, n)),
    decreases n,
{
    lemma_xoshiro_linear(zero4(), zero4());
    if n == 0 {
        lemma_low_bits256_step(v, 0);
    } else {
        let k = (n - 1) as nat;
        lemma_xoshiro_mat_upto(mat, v, k);
        lemma_low_bits256_step(v, k);
        let t = if bit256(v, k as int) { unit256(k as int) } else { zero4() };
        lemma_xoshiro_linear(low_bits256(v, k), t);
    }
}

/// The xoshiro256 step matrix carries every state through one step.
pub proof fn lemma_xoshiro_mat(mat: Seq<[u64; 4]>, v: [u64; 4])
    requires
        mat.len() == 256,
        forall|i: int| 0 <= i < 256 ==> #[trigger] mat[i] == xoshiro_next(unit256(i)),
    ensures
        apply256(mat, v) == xoshiro_next(v),
{
    lemma_xoshiro_mat_upto(mat, v, 256);
    lemma_low_bits256_step(v, 0);
}

/// Powers of the xoshiro256 step matrix carry a state through as many steps.
pub proof fn lemma_xoshiro_mat_iter(mat: Seq<[u64; 4]>, v: [u64; 4], k: nat)
    requires
        mat.len() == 256,
        forall|i: int| 0 <= i < 256 ==> #[trigger] mat[i] == xoshiro_next(unit256(i)),
    ensures
        iter256(mat, v, k) == xoshiro_iter(v, k),
    decreases k,
{
    if k > 0 {
        lemma_xoshiro_mat_iter(mat, v, (k - 1) as nat);
        lemma_xoshiro_mat(mat, xoshiro_iter(v, (k - 1) as nat));
    }
}

} // verus!
