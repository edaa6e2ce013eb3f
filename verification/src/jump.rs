//! Jumping ahead: the sub-generators are carried any number of steps forward at once,
//! through affine maps modulo 2^128 (PCG), modular powers (multiply-with-carry) and
//! GF(2) matrix powers (TinyMT64, xoshiro256).
use vstd::prelude::*;
use core::marker::PhantomData;
use crate::generate::{
    TripleMixSimdCore, MCG_MULTIPLIERS, MWC_MULTIPLIER_COMPLEMENTS, PCG_MULTIPLIERS,
    SCALAR_WEYL_MODULUS, hi_word, lanes4, lemma_lanes4, lemma_words_of, lo_word, mwc_value,
    tinymt_next0, tinymt_next1, weyl_next,
};
use crate::gf2::{
    apply128, apply_mat, compute_tinymt_mat, lemma_tinymt_mat_iter, pow_mat, pow_mat_2_exp,
    tinymt_iter128, iter128,
};
use crate::gf2_256::{
    apply256, apply_mat_256, compute_xoshiro256_mat, lemma_xoshiro_mat_iter, pow_mat_256,
    pow_mat_256_2_exp, xoshiro_iter, iter256,
};
use crate::gf2::two_pow;
use vstd::arithmetic::power::{lemma_pow_adds, lemma_pow_multiplies, pow};
use crate::reproducibility::Reproducibility;
use crate::simd::{
    Simd64, add128_lane, carry_bit, lemma_mul128x128_words, mul128x64_lane, mulsmall_lane, pow64,
    pow128, u128_of, wmul,
};
use vstd::arithmetic::div_mod::{
    lemma_add_mod_noop, lemma_fundamental_div_mod_converse, lemma_mod_bound, lemma_mul_mod_noop,
    lemma_mul_mod_noop_left, lemma_mul_mod_noop_right, lemma_small_mod,
};

verus! {

/// Lane-wise products modulo 2^64.
pub fn simd_wrapping_mul(a: Simd64, b: Simd64) -> (r: Simd64)
    ensures
        forall|i: int| 0 <= i < 4 ==> #[trigger] r[i] == wmul(a[i], b[i]),
{
    let mut out = [0u64; 4];
    for i in 0..4
        invariant
            forall|j: int| 0 <= j < i ==> #[trigger] out[j] == wmul(a[j], b[j]),
    {
        out[i] = a[i].wrapping_mul(b[i]);
    }
    out
}

impl<R: Reproducibility> TripleMixSimdCore<R> {
    /// Multiplies two vectors whose second factors are all below 2^32, returning the
    /// `(low, high)` words of the full products.
    pub fn simd_mulsmall(a: Simd64, b: Simd64) -> (r: (Simd64, Simd64))
        requires
            forall|i: int| 0 <= i < 4 ==> b[i] < 0x1_0000_0000,
        ensures
            forall|i: int| 0 <= i < 4 ==> #[trigger] r.0[i] + r.1[i] * pow64() == a[i] * b[i],
    {
        let mut lo = [0u64; 4];
        let mut hi = [0u64; 4];
        for i in 0..4
            invariant
                forall|j: int| 0 <= j < 4 ==> b[j] < 0x1_0000_0000,
                forall|j: int| 0 <= j < i ==> #[trigger] lo[j] + hi[j] * pow64() == a[j] * b[j],
        {
            let (l, h) = mulsmall_lane(a[i], b[i]);
            lo[i] = l;
            hi[i] = h;
        }
        (lo, hi)
    }

    /// Lane-wise 128-bit addition step: `a + b` minus the carry mask `carry_in` (all
    /// ones for an incoming carry of 1), with the outgoing carry as a mask.
    pub fn add128_with_carry(a: Simd64, b: Simd64, carry_in: Simd64) -> (r: (Simd64, Simd64))
        ensures
            forall|i: int|
                0 <= i < 4 ==> #[trigger] r.0[i] == (a[i] + b[i] - carry_in[i]) % pow64(),
            forall|i: int|
                0 <= i < 4 ==> #[trigger] r.1[i] == (if a[i] + b[i] >= pow64() || (0 < carry_in[i]
                    && carry_in[i] <= (a[i] + b[i]) % pow64()) {
                    u64::MAX
                } else {
                    0
                }),
            forall|i: int|
                0 <= i < 4 && (carry_in[i] == 0 || carry_in[i] == u64::MAX) ==> #[trigger] r.0[i]
                    + carry_bit(r.1[i]) * pow64() == a[i] + b[i] + carry_bit(carry_in[i]),
    {
        let mut sum = [0u64; 4];
        let mut carry = [0u64; 4];
        for i in 0..4
            invariant
                forall|j: int|
                    0 <= j < i ==> #[trigger] sum[j] == (a[j] + b[j] - carry_in[j]) % pow64(),
                forall|j: int|
                    0 <= j < i ==> #[trigger] carry[j] == (if a[j] + b[j] >= pow64() || (0
                        < carry_in[j] && carry_in[j] <= (a[j] + b[j]) % pow64()) {
                        u64::MAX
                    } else {
                        0
                    }),
                forall|j: int|
                    0 <= j < i && (carry_in[j] == 0 || carry_in[j] == u64::MAX) ==> #[trigger] sum[j]
                        + carry_bit(carry[j]) * pow64() == a[j] + b[j] + carry_bit(carry_in[j]),
        {
            let (s, c) = add128_lane(a[i], b[i], carry_in[i]);
            sum[i] = s;
            carry[i] = c;
        }
        (sum, carry)
    }

    /// Lane-wise 128-bit by 64-bit products modulo 2^128, as `(high, low)` words.
    pub(crate) fn mul128x64to128(a_high: Simd64, a_low: Simd64, b: Simd64) -> (r: (
        Simd64,
        Simd64,
    ))
        ensures
            forall|i: int|
                0 <= i < 4 ==> #[trigger] u128_of(r.1[i], r.0[i]) == (u128_of(a_low[i], a_high[i])
                    * b[i]) % pow128(),
    {
        let mut hi = [0u64; 4];
        let mut lo = [0u64; 4];
        for i in 0..4
            invariant
                forall|j: int|
                    0 <= j < i ==> #[trigger] u128_of(lo[j], hi[j]) == (u128_of(a_low[j], a_high[j])
                        * b[j]) % pow128(),
        {
            let (h, l) = mul128x64_lane(a_high[i], a_low[i], b[i]);
            hi[i] = h;
            lo[i] = l;
        }
        (hi, lo)
    }

    /// Lane-wise 128-bit products modulo 2^128, as `(low, high)` words: the product by
    /// the low words of `b`, with the low words of `a_low * b_high` added to its high
    /// words.
    pub(crate) fn mul128x128(a_high: Simd64, a_low: Simd64, b_high: Simd64, b_low: Simd64) -> (r: (
        Simd64,
        Simd64,
    ))
        ensures
            forall|i: int|
                0 <= i < 4 ==> #[trigger] u128_of(r.0[i], r.1[i]) == (u128_of(a_low[i], a_high[i])
                    * u128_of(b_low[i], b_high[i])) % pow128(),
    {
        let (h1, low) = Self::mul128x64to128(a_high, a_low, b_low);
        let h2 = simd_wrapping_mul(a_low, b_high);
        let mut high = [0u64; 4];
        for i in 0..4
            invariant
                forall|j: int| 0 <= j < 4 ==> #[trigger] h2[j] == wmul(a_low[j], b_high[j]),
                forall|j: int|
                    0 <= j < 4 ==> #[trigger] u128_of(low[j], h1[j]) == (u128_of(a_low[j], a_high[j])
                        * b_low[j]) % pow128(),
                forall|j: int|
                    0 <= j < i ==> #[trigger] u128_of(low[j], high[j]) == (u128_of(
                        a_low[j],
                        a_high[j],
                    ) * u128_of(b_low[j], b_high[j])) % pow128(),
        {
            high[i] = h1[i].wrapping_add(h2[i]);
            proof {
                let s = h1[i as int] + h2[i as int];
                if s >= pow64() {
                    lemma_fundamental_div_mod_converse(s, pow64(), 1, high[i as int] as int);
                } else {
                    lemma_fundamental_div_mod_converse(s, pow64(), 0, high[i as int] as int);
                }
                lemma_mul128x128_words(
                    a_high[i as int],
                    a_low[i as int],
                    b_high[i as int],
                    b_low[i as int],
                    h1[i as int],
                    low[i as int],
                    h2[i as int],
                    high[i as int],
                );
            }
        }
        (low, high)
    }
}

/// The sum of two 128-bit numbers held as words, modulo 2^128, from two lanes of
/// 64-bit addition with the carry passed between them.
proof fn lemma_add128_words(
    al: u64,
    ah: u64,
    bl: u64,
    bh: u64,
    lo: u64,
    c: u64,
    hi: u64,
    c2: u64,
)
    requires
        lo + carry_bit(c) * pow64() == al + bl,
        c == 0 || c == u64::MAX,
        hi + carry_bit(c2) * pow64() == ah + bh + carry_bit(c),
    ensures
        u128_of(lo, hi) == (u128_of(al, ah) + u128_of(bl, bh)) % pow128(),
{
    assert(u128_of(lo, hi) == u128_of(al, ah) + u128_of(bl, bh) - carry_bit(c2) * pow128());
    assert(0 <= u128_of(lo, hi) < pow128()) by (nonlinear_arith)
        requires
            0 <= lo < pow64(),
            0 <= hi < pow64(),
            u128_of(lo, hi) == hi * pow64() + lo,
            pow128() == pow64() * pow64(),
    ;
    lemma_fundamental_div_mod_converse(
        u128_of(al, ah) + u128_of(bl, bh), pow128(), carry_bit(c2), u128_of(lo, hi));
}

/// The affine map `x -> m * x + c` modulo 2^128.
pub open spec fn affine(m: int, c: int, x: int) -> int {
    (m * x + c) % pow128()
}

/// Composing two affine maps modulo 2^128.
pub proof fn lemma_affine_compose(fm: int, fc: int, gm: int, gc: int, x: int)
    ensures
        affine((fm * gm) % pow128(), (fm * gc + fc) % pow128(), x) == affine(fm, fc, affine(gm, gc, x)),
{
    let p = pow128();
    // right side: (fm * ((gm * x + gc) % p) + fc) % p == (fm * (gm * x + gc) + fc) % p
    lemma_mul_mod_noop_right(fm, gm * x + gc, p);
    lemma_add_mod_noop(fm * ((gm * x + gc) % p), fc, p);
    lemma_add_mod_noop(fm * (gm * x + gc), fc, p);
    // left side: (((fm * gm) % p) * x + (fm * gc + fc) % p) % p
    lemma_mul_mod_noop_left(fm * gm, x, p);
    lemma_add_mod_noop(((fm * gm) % p) * x, (fm * gc + fc) % p, p);
    lemma_add_mod_noop(fm * gm * x, fm * gc + fc, p);
    lemma_mod_twice_local(fm * gc + fc, p);
    lemma_mod_twice_local(((fm * gm) % p) * x, p);
    lemma_mod_twice_local(fm * gm * x, p);
    assert(fm * (gm * x + gc) + fc == fm * gm * x + (fm * gc + fc)) by (nonlinear_arith);
}

proof fn lemma_mod_twice_local(x: int, m: int)
    requires
        m > 0,
    ensures
        (x % m) % m == x % m,
{
    vstd::arithmetic::div_mod::lemma_mod_twice(x, m);
}

/// `k` PCG steps from the 128-bit state `x`.
pub open spec fn pcg_iter(x: int, inc: int, mult: int, k: nat) -> int
    decreases k,
{
    if k == 0 {
        x
    } else {
        (pcg_iter(x, inc, mult, (k - 1) as nat) * mult + inc) % pow128()
    }
}

/// `p` PCG steps and then `q` more are `p + q` steps.
pub proof fn lemma_pcg_iter_add(x: int, inc: int, mult: int, p: nat, q: nat)
    ensures
        pcg_iter(pcg_iter(x, inc, mult, p), inc, mult, q) == pcg_iter(x, inc, mult, p + q),
    decreases q,
{
    if q > 0 {
        lemma_pcg_iter_add(x, inc, mult, p, (q - 1) as nat);
    }
}


/// An affine map `x -> mult * x + const` modulo 2^128 in each lane.
struct JumpMatrix<R: Reproducibility> {
    /// Multiplier part (how state is transformed)
    mult_low: Simd64,
    mult_high: Simd64,
    /// Constant part (how increment contributes)
    const_low: Simd64,
    const_high: Simd64,
    _reproducibility: PhantomData<R>,
}

impl<R: Reproducibility> JumpMatrix<R> {
    spec fn mult(self, i: int) -> int {
        u128_of(self.mult_low[i], self.mult_high[i])
    }

    spec fn cnst(self, i: int) -> int {
        u128_of(self.const_low[i], self.const_high[i])
    }

    /// The identity map (a jump by 0 steps).
    fn identity() -> (r: Self)
        ensures
            forall|i: int| 0 <= i < 4 ==> #[trigger] r.mult(i) == 1 && r.cnst(i) == 0,
    {
        Self {
            mult_low: [1; 4],
            mult_high: [0; 4],
            const_low: [0; 4],
            const_high: [0; 4],
            _reproducibility: PhantomData,
        }
    }

    /// The composition `self` after `other`.
    #[verifier::spinoff_prover]
    fn compose(&self, other: &Self) -> (r: Self)
        ensures
            forall|i: int|
                0 <= i < 4 ==> #[trigger] r.mult(i) == (self.mult(i) * other.mult(i)) % pow128()
                    && r.cnst(i) == (self.mult(i) * other.cnst(i) + self.cnst(i)) % pow128(),
    {
        // new_mult = self.mult * other.mult
        let (new_mult_low, new_mult_high) = TripleMixSimdCore::<R>::mul128x128(
            self.mult_high,
            self.mult_low,
            other.mult_high,
            other.mult_low,
        );
        // new_const = self.mult * other.const + self.const
        let (temp_low, temp_high) = TripleMixSimdCore::<R>::mul128x128(
            self.mult_high,
            self.mult_low,
            other.const_high,
            other.const_low,
        );
        let (new_const_low, carry) = TripleMixSimdCore::<R>::add128_with_carry(
            temp_low,
            self.const_low,
            [0; 4],
        );
        let (new_const_high, carry_out) = TripleMixSimdCore::<R>::add128_with_carry(
            temp_high,
            self.const_high,
            carry,
        );
        let r = Self {
            mult_low: new_mult_low,
            mult_high: new_mult_high,
            const_low: new_const_low,
            const_high: new_const_high,
            _reproducibility: PhantomData,
        };
        proof {
            assert forall|i: int| 0 <= i < 4 implies #[trigger] r.mult(i) == (self.mult(i)
                * other.mult(i)) % pow128() && r.cnst(i) == (self.mult(i) * other.cnst(i)
                + self.cnst(i)) % pow128() by {
                lemma_add128_words(
                    temp_low[i],
                    temp_high[i],
                    self.const_low[i],
                    self.const_high[i],
                    new_const_low[i],
                    carry[i],
                    new_const_high[i],
                    carry_out[i],
                );
                let t = self.mult(i) * other.cnst(i);
                lemma_add_mod_noop(t, self.cnst(i), pow128());
                lemma_mod_bound(t, pow128());
                lemma_small_mod(self.cnst(i) as nat, pow128() as nat);
                crate::generate::lemma_words_of(self.const_low[i], self.const_high[i]);
            }
        }
        r
    }

    /// Applies the map to the states `(state_low, state_high)`.
    fn apply(&self, state_low: Simd64, state_high: Simd64) -> (r: (Simd64, Simd64))
        ensures
            forall|i: int|
                0 <= i < 4 ==> #[trigger] u128_of(r.0[i], r.1[i]) == affine(
                    self.mult(i),
                    self.cnst(i),
                    u128_of(state_low[i], state_high[i]),
                ),
    {
        // new_state = mult * state + const
        let (prod_low, prod_high) = TripleMixSimdCore::<R>::mul128x128(
            self.mult_high,
            self.mult_low,
            state_high,
            state_low,
        );
        let (new_low, carry) = TripleMixSimdCore::<R>::add128_with_carry(
            prod_low,
            self.const_low,
            [0; 4],
        );
        let (new_high, carry_out) = TripleMixSimdCore::<R>::add128_with_carry(
            prod_high,
            self.const_high,
            carry,
        );
        proof {
            assert forall|i: int| 0 <= i < 4 implies #[trigger] u128_of(new_low[i], new_high[i])
                == affine(self.mult(i), self.cnst(i), u128_of(state_low[i], state_high[i])) by {
                lemma_add128_words(
                    prod_low[i],
                    prod_high[i],
                    self.const_low[i],
                    self.const_high[i],
                    new_low[i],
                    carry[i],
                    new_high[i],
                    carry_out[i],
                );
                let t = self.mult(i) * u128_of(state_low[i], state_high[i]);
                lemma_add_mod_noop(t, self.cnst(i), pow128());
                lemma_mod_bound(t, pow128());
                crate::generate::lemma_words_of(self.const_low[i], self.const_high[i]);
                lemma_small_mod(self.cnst(i) as nat, pow128() as nat);
            }
        }
        (new_low, new_high)
    }
}

/// One doubling or addition step of `mul_mod`: `s = a + b` reduced below `m` when
/// `a, b < m`, computed with wrapping 128-bit arithmetic.
fn add_mod(a: u128, b: u128, m: u128) -> (r: u128)
    requires
        a < m,
        b < m,
    ensures
        r < m,
        r == a + b || r == a + b - m,
        r == (a + b) % (m as int),
{
    let sum = a.wrapping_add(b);
    let r = if sum < a || sum >= m {
        sum.wrapping_sub(m)
    } else {
        sum
    };
    proof {
        if a + b >= 0x1_0000_0000_0000_0000_0000_0000_0000_0000 {
            assert(r == a + b - m);
        }
        if r == a + b - m {
            lemma_fundamental_div_mod_converse(a + b, m as int, 1, r as int);
        } else {
            lemma_fundamental_div_mod_converse(a + b, m as int, 0, r as int);
        }
    }
    r
}

/// `x * y` modulo `m`, by doubling and adding.
pub fn mul_mod(x: u128, y: u128, m: u128) -> (r: u128)
    requires
        m > 0,
    ensures
        r == (x * y) % (m as int),
        r < m,
{
    let ghost mi = m as int;
    let mut res: u128 = 0;
    let mut xx = x % m;
    let mut yy = y;
    proof {
        lemma_mul_mod_noop_left(x as int, y as int, mi);
        vstd::arithmetic::div_mod::lemma_mod_twice(xx * yy, mi);
    }
    while yy > 0
        invariant
            m == mi,
            mi > 0,
            res < m,
            xx < m,
            (res + xx * yy) % mi == (x * y) % mi,
        decreases yy,
    {
        let ghost (r0, x0, y0) = (res, xx, yy);
        let ghost b: int = if yy & 1 != 0 { 1int } else { 0int };
        if yy & 1 != 0 {
            res = add_mod(res, xx, m);
        }
        xx = add_mod(xx, xx, m);
        yy = yy >> 1;
        proof {
            assert((y0 & 1 != 0) == (y0 % 2 == 1)) by (bit_vector);
            assert(y0 >> 1 == y0 / 2) by (bit_vector);
            let d: int = if res == r0 + b * x0 { 0 } else { 1 };
            let c: int = if xx == x0 + x0 { 0 } else { 1 };
            assert(res == r0 + b * x0 - d * mi);
            assert(xx == 2 * x0 - c * mi);
            let h = yy as int;
            assert(res + xx * h == r0 + x0 * y0 + (-(d + c * h)) * mi) by (nonlinear_arith)
                requires
                    res == r0 + b * x0 - d * mi,
                    xx == 2 * x0 - c * mi,
                    y0 == 2 * h + b,
            ;
            vstd::arithmetic::div_mod::lemma_mod_multiples_vanish(
                -(d + c * h), r0 + x0 * y0, mi);
            assert(mi * (-(d + c * h)) == (-(d + c * h)) * mi) by (nonlinear_arith);
        }
    }
    proof {
        lemma_small_mod(res as nat, mi as nat);
    }
    res
}

/// The multiply-with-carry value `a * w + c` of lane `i` is carried by powers of `a`
/// modulo `a * 2^64 - 1`; this is that modulus.
pub open spec fn mwc_modulus(i: int) -> int {
    MCG_MULTIPLIERS[i] * pow64() - 1
}

/// The lane `i` multiply-with-carry state `(w, c)` jumped by `steps * 2^(128 k)` steps:
/// its value `a * w + c` times `a` raised to that power, modulo `a * 2^64 - 1`.
pub open spec fn mwc_jumped_value(w: u64, c: u64, i: int, steps: nat, k: nat) -> int {
    let a = MCG_MULTIPLIERS[i] as int;
    let m = mwc_modulus(i);
    (((a * w + c) % m) * pow(a, steps * two_pow(128 * k))) % m
}

impl<R: Reproducibility> TripleMixSimdCore<R> {
    /// Jumps the multiply-with-carry state of every lane ahead by `steps * 2^(128 k)`
    /// steps, through its value `a * w + c`, which each step multiplies by `a` modulo
    /// `a * 2^64 - 1`; the new word and carry are that value divided by `a` and its
    /// remainder.
    pub(crate) fn mwc_jump(state: Simd64, carry: Simd64, steps: u128, k: u64) -> (r: (
        Simd64,
        Simd64,
    ))
        ensures
            steps == 0 && k == 0 ==> r == (state, carry),
            !(steps == 0 && k == 0) ==> forall|i: int|
                0 <= i < 4 ==> #[trigger] r.0[i] == mwc_jumped_value(
                    state[i],
                    carry[i],
                    i,
                    steps as nat,
                    k as nat,
                ) / (MCG_MULTIPLIERS[i] as int),
            !(steps == 0 && k == 0) ==> forall|i: int|
                0 <= i < 4 ==> #[trigger] r.1[i] == mwc_jumped_value(
                    state[i],
                    carry[i],
                    i,
                    steps as nat,
                    k as nat,
                ) % (MCG_MULTIPLIERS[i] as int),
    {
        if steps == 0 && k == 0 {
            return (state, carry);
        }
        let mut res_state = state;
        let mut res_carry = carry;
        for i in 0..4
            invariant
                forall|j: int|
                    0 <= j < i ==> #[trigger] res_state[j] == mwc_jumped_value(
                        state[j],
                        carry[j],
                        j,
                        steps as nat,
                        k as nat,
                    ) / (MCG_MULTIPLIERS[j] as int),
                forall|j: int|
                    0 <= j < i ==> #[trigger] res_carry[j] == mwc_jumped_value(
                        state[j],
                        carry[j],
                        j,
                        steps as nat,
                        k as nat,
                    ) % (MCG_MULTIPLIERS[j] as int),
        {
            let (w, c) = Self::mwc_jump_lane(state[i], carry[i], i, steps, k);
            res_state[i] = w;
            res_carry[i] = c;
        }
        (res_state, res_carry)
    }

    /// The jump of one multiply-with-carry lane.
    fn mwc_jump_lane(w: u64, c: u64, i: usize, steps: u128, k: u64) -> (r: (u64, u64))
        requires
            i < 4,
        ensures
            r.0 == mwc_jumped_value(w, c, i as int, steps as nat, k as nat) / (
            MCG_MULTIPLIERS[i as int] as int),
            r.1 == mwc_jumped_value(w, c, i as int, steps as nat, k as nat) % (
            MCG_MULTIPLIERS[i as int] as int),
    {
        let a = MCG_MULTIPLIERS[i] as u128;
        let ghost ai = a as int;
        assert(0x1_0000_0000_0000_0000 - 5572 <= a < 0x1_0000_0000_0000_0000);
        proof {
            assert(a << 64u128 == a * 0x1_0000_0000_0000_0000) by (bit_vector)
                requires
                    a < 0x1_0000_0000_0000_0000,
            ;
        }
        let m = (a << 64) - 1;
        let ghost mi = m as int;
        assert(mi == mwc_modulus(i as int));
        assert(a * (w as u128) + c as u128 <= (0x1_0000_0000_0000_0000 - 1) * (
        0x1_0000_0000_0000_0000 - 1) + 0x1_0000_0000_0000_0000 - 1) by (nonlinear_arith)
            requires
                a < 0x1_0000_0000_0000_0000,
                w < 0x1_0000_0000_0000_0000,
                c < 0x1_0000_0000_0000_0000,
        ;
        // Initial V_0 = a * W_0 + c_0
        let v_0 = a.wrapping_mul(w as u128).wrapping_add(c as u128) % m;
        assert(v_0 == (ai * w + c) % mi);
        let mut base = a % m;
        let mut exp = steps;
        let ghost e = two_pow(128 * k as nat);
        let ghost mut sq: nat = 0;
        proof {
            lemma_small_mod(a as nat, mi as nat);
            vstd::arithmetic::power::lemma_pow1(ai);
        }
        let mut outer: u64 = 0;
        while outer < k
            invariant
                m == mi,
                mi > 1,
                0 < ai,
                outer <= k,
                sq == 128 * outer,
                base == pow(ai, two_pow(sq)) % mi,
            decreases k - outer,
        {
            let mut inner: u32 = 0;
            while inner < 128
                invariant
                    m == mi,
                    mi > 1,
                    inner <= 128,
                    sq == 128 * outer + inner,
                    base == pow(ai, two_pow(sq)) % mi,
                decreases 128 - inner,
            {
                let ghost b0 = base;
                base = mul_mod(base, base, m);
                proof {
                    let p = pow(ai, two_pow(sq));
                    lemma_mul_mod_noop(p, p, mi);
                    lemma_pow_adds(ai, two_pow(sq), two_pow(sq));
                    assert(two_pow(sq + 1) == two_pow(sq) + two_pow(sq));
                    sq = sq + 1;
                }
                inner += 1;
            }
            outer += 1;
        }
        assert(sq == 128 * k);
        let mut ak: u128 = 1;
        let ghost mut done: nat = 0;
        let ghost mut pw: nat = 1;
        proof {
            vstd::arithmetic::power::lemma_pow0(ai);
            lemma_small_mod(1, mi as nat);
            assert(e * 0 == 0);
            assert(e * 1 == e);
        }
        while exp > 0
            invariant
                m == mi,
                mi > 1,
                steps == exp * pw + done,
                done < pw,
                ak == pow(ai, e * done) % mi,
                base == pow(ai, e * pw) % mi,
            decreases exp,
        {
            assert(steps == exp * pw + done);
            if exp & 1 != 0 {
                ak = mul_mod(ak, base, m);
                proof {
                    lemma_mul_mod_noop(pow(ai, e * done), pow(ai, e * pw), mi);
                    lemma_pow_adds(ai, e * done, e * pw);
                    assert(e * done + e * pw == e * (done + pw)) by (nonlinear_arith);
                    done = done + pw;
                }
            }
            base = mul_mod(base, base, m);
            proof {
                lemma_mul_mod_noop(pow(ai, e * pw), pow(ai, e * pw), mi);
                lemma_pow_adds(ai, e * pw, e * pw);
                assert(e * pw + e * pw == e * (pw + pw)) by (nonlinear_arith);
                assert((exp & 1 != 0) == (exp % 2 == 1)) by (bit_vector);
                assert(exp >> 1 == exp / 2) by (bit_vector);
                let half = (exp / 2) as nat;
                assert(steps == half * (pw + pw) + done) by (nonlinear_arith)
                    requires
                        exp == 2 * half + exp % 2,
                        exp % 2 == 1 ==> steps == exp * pw + done - pw,
                        exp % 2 == 0 ==> steps == exp * pw + done,
                        0 <= exp % 2 < 2,
                ;
                pw = pw + pw;
            }
            exp >>= 1;
        }
        let v_final = mul_mod(v_0, ak, m);
        proof {
            assert(e * done == steps * e) by (nonlinear_arith)
                requires
                    done == steps,
            ;
            lemma_mul_mod_noop_right(v_0 as int, pow(ai, e * done), mi);
            assert(v_final == mwc_jumped_value(w, c, i as int, steps as nat, k as nat));
            // the quotient fits in a word: v_final < a * 2^64
            vstd::arithmetic::div_mod::lemma_fundamental_div_mod(v_final as int, ai);
            vstd::arithmetic::div_mod::lemma_mod_bound(v_final as int, ai);
            assert(v_final as int / ai < 0x1_0000_0000_0000_0000) by (nonlinear_arith)
                requires
                    v_final < ai * 0x1_0000_0000_0000_0000,
                    v_final as int == ai * (v_final as int / ai) + v_final as int % ai,
                    0 <= v_final as int % ai,
                    ai > 0,
            ;
        }
        ((v_final / a) as u64, (v_final % a) as u64)
    }

    /// Carries the PCG state of every lane `steps` steps forward.
    fn jump_pcg(&mut self, steps: u128)
        ensures
            forall|i: int|
                0 <= i < 4 ==> #[trigger] final(self).pcg_state(i) == pcg_iter(
                    old(self).pcg_state(i),
                    old(self).pcg_inc(i),
                    PCG_MULTIPLIERS[i] as int,
                    steps as nat,
                ),
            final(self).pcg_inc_lo == old(self).pcg_inc_lo,
            final(self).pcg_inc_hi == old(self).pcg_inc_hi,
            final(self).tm0 == old(self).tm0,
            final(self).tm1 == old(self).tm1,
            final(self).mwc_state == old(self).mwc_state,
            final(self).mwc_carry == old(self).mwc_carry,
            final(self).xoshiro256 == old(self).xoshiro256,
            final(self).scalar_weyl == old(self).scalar_weyl,
    {
        let ghost start = *self;
        let mut result = JumpMatrix::<R>::identity();
        let mut base = JumpMatrix::<R> {
            mult_low: PCG_MULTIPLIERS,
            mult_high: [0; 4],
            const_low: self.pcg_inc_lo,
            const_high: self.pcg_inc_hi,
            _reproducibility: PhantomData,
        };
        let ghost mut done: nat = 0;
        let ghost mut pow: nat = 1;
        proof {
            assert forall|i: int, x: int|
                0 <= i < 4 && 0 <= x < pow128() implies #[trigger] affine(
                    result.mult(i),
                    result.cnst(i),
                    x,
                ) == pcg_iter(x, start.pcg_inc(i), PCG_MULTIPLIERS[i] as int, done) by {
                lemma_small_mod(x as nat, pow128() as nat);
            }
            assert forall|i: int, x: int|
                0 <= i < 4 && 0 <= x < pow128() implies #[trigger] affine(base.mult(i), base.cnst(i), x)
                    == pcg_iter(x, start.pcg_inc(i), PCG_MULTIPLIERS[i] as int, pow) by {
                let m = PCG_MULTIPLIERS[i] as int;
                assert(pcg_iter(x, start.pcg_inc(i), m, 0) == x);
                assert(pcg_iter(x, start.pcg_inc(i), m, 1) == (x * m + start.pcg_inc(i)) % pow128());
                assert(base.mult(i) == m);
                assert(base.cnst(i) == start.pcg_inc(i));
                assert(x * m == m * x) by (nonlinear_arith);
            }
        }
        let mut remaining = steps;
        while remaining > 0
            invariant
                steps == remaining * pow + done,
                done < pow,
                forall|i: int, x: int|
                    0 <= i < 4 && 0 <= x < pow128() ==> #[trigger] affine(
                        result.mult(i),
                        result.cnst(i),
                        x,
                    ) == pcg_iter(x, start.pcg_inc(i), PCG_MULTIPLIERS[i] as int, done),
                forall|i: int, x: int|
                    0 <= i < 4 && 0 <= x < pow128() ==> #[trigger] affine(
                        base.mult(i),
                        base.cnst(i),
                        x,
                    ) == pcg_iter(x, start.pcg_inc(i), PCG_MULTIPLIERS[i] as int, pow),
            decreases remaining,
        {
            assert(steps == remaining * pow + done);
            if remaining & 1 == 1 {
                let new_result = result.compose(&base);
                proof {
                    assert forall|i: int, x: int|
                        0 <= i < 4 && 0 <= x < pow128() implies #[trigger] affine(
                            new_result.mult(i),
                            new_result.cnst(i),
                            x,
                        ) == pcg_iter(x, start.pcg_inc(i), PCG_MULTIPLIERS[i] as int, done + pow) by {
                        lemma_affine_compose(
                            result.mult(i),
                            result.cnst(i),
                            base.mult(i),
                            base.cnst(i),
                            x,
                        );
                        let y = affine(base.mult(i), base.cnst(i), x);
                        lemma_mod_bound(base.mult(i) * x + base.cnst(i), pow128());
                        assert(y == pcg_iter(x, start.pcg_inc(i), PCG_MULTIPLIERS[i] as int, pow));
                        assert(affine(result.mult(i), result.cnst(i), y) == pcg_iter(
                            y,
                            start.pcg_inc(i),
                            PCG_MULTIPLIERS[i] as int,
                            done,
                        ));
                        lemma_pcg_iter_add(x, start.pcg_inc(i), PCG_MULTIPLIERS[i] as int, pow, done);
                    }
                    done = done + pow;
                }
                result = new_result;
            }
            let new_base = base.compose(&base);
            proof {
                assert forall|i: int, x: int|
                    0 <= i < 4 && 0 <= x < pow128() implies #[trigger] affine(
                        new_base.mult(i),
                        new_base.cnst(i),
                        x,
                    ) == pcg_iter(x, start.pcg_inc(i), PCG_MULTIPLIERS[i] as int, pow + pow) by {
                    lemma_affine_compose(base.mult(i), base.cnst(i), base.mult(i), base.cnst(i), x);
                    let y = affine(base.mult(i), base.cnst(i), x);
                    lemma_mod_bound(base.mult(i) * x + base.cnst(i), pow128());
                    assert(affine(base.mult(i), base.cnst(i), y) == pcg_iter(
                        y,
                        start.pcg_inc(i),
                        PCG_MULTIPLIERS[i] as int,
                        pow,
                    ));
                    lemma_pcg_iter_add(x, start.pcg_inc(i), PCG_MULTIPLIERS[i] as int, pow, pow);
                }
                assert((remaining & 1 == 1) == (remaining % 2 == 1)) by (bit_vector);
                assert(remaining >> 1 == remaining / 2) by (bit_vector);
                let half = (remaining / 2) as nat;
                assert(steps == half * (pow + pow) + done) by (nonlinear_arith)
                    requires
                        remaining == 2 * half + remaining % 2,
                        remaining % 2 == 1 ==> steps == remaining * pow + done - pow,
                        remaining % 2 == 0 ==> steps == remaining * pow + done,
                        0 <= remaining % 2 < 2,
                ;
                pow = pow + pow;
            }
            base = new_base;
            remaining >>= 1;
        }
        let (new_low, new_high) = result.apply(self.pcg_state_lo, self.pcg_state_hi);
        proof {
            assert forall|i: int| 0 <= i < 4 implies #[trigger] u128_of(new_low[i], new_high[i])
                == pcg_iter(start.pcg_state(i), start.pcg_inc(i), PCG_MULTIPLIERS[i] as int, steps as nat) by {
                crate::generate::lemma_words_of(start.pcg_state_lo[i], start.pcg_state_hi[i]);
            }
        }
        self.pcg_state_lo = new_low;
        self.pcg_state_hi = new_high;
    }
}

/// `p` TinyMT64 steps and then `q` more are `p + q` steps.
pub proof fn lemma_tinymt_iter_add(v: u128, p: nat, q: nat)
    ensures
        tinymt_iter128(tinymt_iter128(v, p), q) == tinymt_iter128(v, p + q),
    decreases q,
{
    if q > 0 {
        lemma_tinymt_iter_add(v, p, (q - 1) as nat);
    }
}

/// A matrix of `per` TinyMT64 steps, applied `n` times, gives `n * per` steps.
pub proof fn lemma_tinymt_power(mat: Seq<u128>, v: u128, n: nat, per: nat)
    requires
        forall|w: u128| #[trigger] apply128(mat, w) == tinymt_iter128(w, per),
    ensures
        iter128(mat, v, n) == tinymt_iter128(v, n * per),
    decreases n,
{
    if n > 0 {
        let k = (n - 1) as nat;
        lemma_tinymt_power(mat, v, k, per);
        assert(apply128(mat, iter128(mat, v, k)) == tinymt_iter128(iter128(mat, v, k), per));
        lemma_tinymt_iter_add(v, k * per, per);
        assert(k * per + per == n * per) by (nonlinear_arith)
            requires
                k + 1 == n,
        ;
    } else {
        assert(n * per == 0) by (nonlinear_arith)
            requires
                n == 0,
        ;
    }
}

/// `p` xoshiro256 steps and then `q` more are `p + q` steps.
pub proof fn lemma_xoshiro_iter_add(v: [u64; 4], p: nat, q: nat)
    ensures
        xoshiro_iter(xoshiro_iter(v, p), q) == xoshiro_iter(v, p + q),
    decreases q,
{
    if q > 0 {
        lemma_xoshiro_iter_add(v, p, (q - 1) as nat);
    }
}

/// A matrix of `per` xoshiro256 steps, applied `n` times, gives `n * per` steps.
pub proof fn lemma_xoshiro_power(mat: Seq<[u64; 4]>, v: [u64; 4], n: nat, per: nat)
    requires
        forall|w: [u64; 4]| #[trigger] apply256(mat, w) == xoshiro_iter(w, per),
    ensures
        iter256(mat, v, n) == xoshiro_iter(v, n * per),
    decreases n,
{
    if n > 0 {
        let k = (n - 1) as nat;
        lemma_xoshiro_power(mat, v, k, per);
        assert(apply256(mat, iter256(mat, v, k)) == xoshiro_iter(iter256(mat, v, k), per));
        lemma_xoshiro_iter_add(v, k * per, per);
        assert(k * per + per == n * per) by (nonlinear_arith)
            requires
                k + 1 == n,
        ;
    } else {
        assert(n * per == 0) by (nonlinear_arith)
            requires
                n == 0,
        ;
    }
}


/// `2^128` modulo the Weyl modulus `2^64 - 59`.
pub const WEYL_JUMP_2_128: u64 = 3481;

/// `2^256` modulo the Weyl modulus `2^64 - 59`.
pub const WEYL_JUMP_2_256: u64 = 12117361;

/// A lane's TinyMT64 words packed as `tm0 | tm1 << 64`.
pub open spec fn pack_tm(tm0: u64, tm1: u64) -> u128 {
    (tm0 as u128) | ((tm1 as u128) << 64u128)
}

/// The Weyl counter `weyl` moved by `add` places modulo its modulus.
pub open spec fn weyl_after(weyl: u64, add: int) -> u64 {
    ((weyl + add) % (SCALAR_WEYL_MODULUS as int)) as u64
}


impl<R: Reproducibility> TripleMixSimdCore<R> {
    /// The state after `advance(steps)`: every sub-generator carried `steps` steps
    /// forward and the Weyl counter advanced by `steps` modulo its modulus.
    pub closed spec fn advanced(self, steps: nat) -> Self {
        if steps == 0 {
            self
        } else {
            self.jumped(
                steps,
                steps,
                steps,
                0,
                steps,
                weyl_after(self.scalar_weyl, steps as int % (SCALAR_WEYL_MODULUS as int)),
            )
        }
    }

    /// The state after `advance_2_128(multiples)`.
    pub closed spec fn advanced_2_128(self, multiples: nat) -> Self {
        if multiples == 0 {
            self
        } else {
            self.jumped(
                0,
                2 * multiples,
                multiples,
                1,
                multiples * crate::gf2::two_pow(128),
                weyl_after(
                    self.scalar_weyl,
                    (3481 * multiples) as int % (SCALAR_WEYL_MODULUS as int) + SCALAR_WEYL_MODULUS as int,
                ),
            )
        }
    }

    /// The state after `advance_2_256(multiples)`.
    pub closed spec fn advanced_2_256(self, multiples: nat) -> Self {
        if multiples == 0 {
            self
        } else {
            self.jumped(
                0,
                4 * multiples,
                multiples,
                2,
                multiples * crate::gf2::two_pow(256),
                weyl_after(
                    self.scalar_weyl,
                    (12117361 * multiples) as int % (SCALAR_WEYL_MODULUS as int) + SCALAR_WEYL_MODULUS as int,
                ),
            )
        }
    }

    /// The state with the PCG lanes carried `pcg` steps, the TinyMT64 lanes `tm`
    /// steps, the multiply-with-carry lanes `mwc_steps * 2^(128 mwc_k)` steps, the
    /// xoshiro256 state `xo` steps, and the Weyl counter set to `weyl`.
    #[verifier::opaque]
    pub(crate) open spec fn jumped(
        self,
        pcg: nat,
        tm: nat,
        mwc_steps: nat,
        mwc_k: nat,
        xo: nat,
        weyl: u64,
    ) -> Self {
        TripleMixSimdCore {
            pcg_state_lo: lanes4(
                |i: int| lo_word(pcg_iter(self.pcg_state(i), self.pcg_inc(i), PCG_MULTIPLIERS[i] as int, pcg)),
            ),
            pcg_state_hi: lanes4(
                |i: int| hi_word(pcg_iter(self.pcg_state(i), self.pcg_inc(i), PCG_MULTIPLIERS[i] as int, pcg)),
            ),
            pcg_inc_lo: self.pcg_inc_lo,
            pcg_inc_hi: self.pcg_inc_hi,
            tm0: lanes4(|i: int| tinymt_iter128(pack_tm(self.tm0[i], self.tm1[i]), tm) as u64),
            tm1: lanes4(
                |i: int| (tinymt_iter128(pack_tm(self.tm0[i], self.tm1[i]), tm) >> 64u128) as u64,
            ),
            mwc_state: lanes4(
                |i: int|
                    (mwc_jumped_value(self.mwc_state[i], self.mwc_carry[i], i, mwc_steps, mwc_k)
                        / (MCG_MULTIPLIERS[i] as int)) as u64,
            ),
            mwc_carry: lanes4(
                |i: int|
                    (mwc_jumped_value(self.mwc_state[i], self.mwc_carry[i], i, mwc_steps, mwc_k)
                        % (MCG_MULTIPLIERS[i] as int)) as u64,
            ),
            xoshiro256: xoshiro_iter(self.xoshiro256, xo),
            scalar_weyl: weyl,
            reproducibility: self.reproducibility,
        }
    }

    /// Applies the GF(2) matrix `t_pow` to the packed TinyMT64 state of every lane.
    fn update_t_from_matrix(&mut self, t_pow: &[u128; 128])
        ensures
            forall|i: int|
                0 <= i < 4 ==> #[trigger] final(self).tm0[i] == apply128(
                    t_pow@,
                    pack_tm(old(self).tm0[i], old(self).tm1[i]),
                ) as u64,
            forall|i: int|
                0 <= i < 4 ==> #[trigger] final(self).tm1[i] == (apply128(
                    t_pow@,
                    pack_tm(old(self).tm0[i], old(self).tm1[i]),
                ) >> 64u128) as u64,
            final(self).pcg_state_lo == old(self).pcg_state_lo,
            final(self).pcg_state_hi == old(self).pcg_state_hi,
            final(self).pcg_inc_lo == old(self).pcg_inc_lo,
            final(self).pcg_inc_hi == old(self).pcg_inc_hi,
            final(self).mwc_state == old(self).mwc_state,
            final(self).mwc_carry == old(self).mwc_carry,
            final(self).xoshiro256 == old(self).xoshiro256,
            final(self).scalar_weyl == old(self).scalar_weyl,
    {
        let ghost start = *self;
        for i in 0..4
            invariant
                forall|j: int|
                    0 <= j < i ==> #[trigger] self.tm0[j] == apply128(
                        t_pow@,
                        pack_tm(start.tm0[j], start.tm1[j]),
                    ) as u64,
                forall|j: int|
                    0 <= j < i ==> #[trigger] self.tm1[j] == (apply128(
                        t_pow@,
                        pack_tm(start.tm0[j], start.tm1[j]),
                    ) >> 64u128) as u64,
                forall|j: int| i <= j < 4 ==> #[trigger] self.tm0[j] == start.tm0[j],
                forall|j: int| i <= j < 4 ==> #[trigger] self.tm1[j] == start.tm1[j],
                self.pcg_state_lo == start.pcg_state_lo,
                self.pcg_state_hi == start.pcg_state_hi,
                self.pcg_inc_lo == start.pcg_inc_lo,
                self.pcg_inc_hi == start.pcg_inc_hi,
                self.mwc_state == start.mwc_state,
                self.mwc_carry == start.mwc_carry,
                self.xoshiro256 == start.xoshiro256,
                self.scalar_weyl == start.scalar_weyl,
                self.reproducibility == start.reproducibility,
        {
            let t_state = (self.tm0[i] as u128) | ((self.tm1[i] as u128) << 64);
            let t_new = apply_mat(t_pow, t_state);
            self.tm0[i] = #[verifier::truncate] (t_new as u64);
            self.tm1[i] = #[verifier::truncate] ((t_new >> 64) as u64);
        }
    }

    /// Carries every sub-generator `steps` steps forward and the Weyl counter by
    /// `steps` modulo its modulus.
    #[verifier::rlimit(60)]
    pub(crate) fn advance(&mut self, steps: u128)
        ensures
            *final(self) == old(self).advanced(steps as nat),
    {
        if steps == 0 {
            return;
        }
        let ghost start = *self;
        let (new_mwc_state, new_mwc_carry) = Self::mwc_jump(self.mwc_state, self.mwc_carry, steps, 0);
        let t_mat = compute_tinymt_mat();
        let t_pow = pow_mat(t_mat, steps);
        self.mwc_state = new_mwc_state;
        self.mwc_carry = new_mwc_carry;
        self.update_t_from_matrix(&t_pow);
        let ghost before_pcg = *self;
        self.jump_pcg(steps);
        let ghost after_pcg = *self;
        let x_mat = compute_xoshiro256_mat();
        let x_pow = pow_mat_256(x_mat, steps);
        self.xoshiro256 = apply_mat_256(&x_pow, self.xoshiro256);
        let weyl_modulus_u128 = SCALAR_WEYL_MODULUS as u128;
        self.scalar_weyl = ((self.scalar_weyl as u128 + (steps % weyl_modulus_u128))
            % weyl_modulus_u128) as u64;
        proof {
            assert forall|v: u128| #[trigger] apply128(t_mat@, v) == tinymt_iter128(v, 1) by {
                crate::gf2::lemma_tinymt_mat(t_mat@, v);
                assert(tinymt_iter128(v, 0) == v);
            }
            assert forall|v: [u64; 4]| #[trigger] apply256(x_mat@, v) == xoshiro_iter(v, 1) by {
                crate::gf2_256::lemma_xoshiro_mat(x_mat@, v);
                assert(xoshiro_iter(v, 0) == v);
            }
            assert(before_pcg.pcg_state_lo == start.pcg_state_lo);
            assert(before_pcg.pcg_state_hi == start.pcg_state_hi);
            assert forall|i: int| 0 <= i < 4 implies #[trigger] self.pcg_state(i) == pcg_iter(
                start.pcg_state(i),
                start.pcg_inc(i),
                PCG_MULTIPLIERS[i] as int,
                steps as nat,
            ) by {
                assert(after_pcg.pcg_state(i) == pcg_iter(
                    before_pcg.pcg_state(i),
                    before_pcg.pcg_inc(i),
                    PCG_MULTIPLIERS[i] as int,
                    steps as nat,
                ));
            }
            self.lemma_matches_jumped(
                start,
                steps as nat,
                steps as nat,
                steps as nat,
                0,
                steps as nat,
                t_mat@,
                t_pow@,
                x_mat@,
                x_pow@,
                1,
                1,
            );
            assert((steps as nat) * 1 == steps as nat);
            assert(self.scalar_weyl == weyl_after(start.scalar_weyl, steps as int % (SCALAR_WEYL_MODULUS as int)));
        }
    }

    /// Jumps by `multiples * 2^128` steps: the multiply-with-carry lanes and the
    /// xoshiro256 state by exactly that many steps, the TinyMT64 lanes by `2 *
    /// multiples` steps (the same number modulo their period 2^127 - 1), the PCG lanes
    /// not at all (2^128 steps carry a full-period 128-bit LCG round to where it
    /// started), and the Weyl counter by `multiples * 2^128` modulo its modulus.
    pub(crate) fn advance_2_128(&mut self, multiples: u128)
        ensures
            *final(self) == old(self).advanced_2_128(multiples as nat),
    {
        if multiples == 0 {
            return;
        }
        let ghost start = *self;
        let (new_mwc_state, new_mwc_carry) = Self::mwc_jump(
            self.mwc_state,
            self.mwc_carry,
            multiples,
            1,
        );
        let t_mat = Self::tinymt_jump_128_mat();
        let t_pow = pow_mat(t_mat, multiples);
        self.mwc_state = new_mwc_state;
        self.mwc_carry = new_mwc_carry;
        self.update_t_from_matrix(&t_pow);
        let x_mat = Self::xoshiro256_jump_128_mat();
        let x_pow = pow_mat_256(x_mat, multiples);
        self.xoshiro256 = apply_mat_256(&x_pow, self.xoshiro256);
        let weyl_modulus_128 = SCALAR_WEYL_MODULUS as u128;
        let weyl_jump = mul_mod(WEYL_JUMP_2_128 as u128, multiples, weyl_modulus_128);
        self.scalar_weyl = ((self.scalar_weyl as u128 + weyl_jump + weyl_modulus_128)
            % weyl_modulus_128) as u64;
        proof {
            assert forall|i: int| 0 <= i < 4 implies #[trigger] self.pcg_state(i) == pcg_iter(
                start.pcg_state(i),
                start.pcg_inc(i),
                PCG_MULTIPLIERS[i] as int,
                0,
            ) by {}
            self.lemma_matches_jumped(
                start,
                0,
                multiples as nat,
                multiples as nat,
                1,
                multiples as nat,
                t_mat@,
                t_pow@,
                x_mat@,
                x_pow@,
                2,
                crate::gf2::two_pow(128),
            );
            assert((multiples as nat) * 2 == 2 * multiples);
            assert(self.scalar_weyl == weyl_after(
                start.scalar_weyl,
                (3481 * multiples) % (SCALAR_WEYL_MODULUS as int) + SCALAR_WEYL_MODULUS as int,
            ));
        }
    }

    /// Jumps by `multiples * 2^256` steps: the multiply-with-carry lanes and the
    /// xoshiro256 state by exactly that many steps, the TinyMT64 lanes by `4 *
    /// multiples` steps (the same number modulo their period 2^127 - 1), the PCG lanes
    /// not at all (2^128 steps carry a full-period 128-bit LCG round to where it
    /// started), and the Weyl counter by `multiples * 2^256` modulo its modulus.
    pub(crate) fn advance_2_256(&mut self, multiples: u128)
        ensures
            *final(self) == old(self).advanced_2_256(multiples as nat),
    {
        if multiples == 0 {
            return;
        }
        let ghost start = *self;
        let (new_mwc_state, new_mwc_carry) = Self::mwc_jump(
            self.mwc_state,
            self.mwc_carry,
            multiples,
            2,
        );
        let t_mat = Self::tinymt_jump_256_mat();
        let t_pow = pow_mat(t_mat, multiples);
        self.mwc_state = new_mwc_state;
        self.mwc_carry = new_mwc_carry;
        self.update_t_from_matrix(&t_pow);
        let x_mat = Self::xoshiro256_jump_256_mat();
        let x_pow = pow_mat_256(x_mat, multiples);
        self.xoshiro256 = apply_mat_256(&x_pow, self.xoshiro256);
        let weyl_modulus_128 = SCALAR_WEYL_MODULUS as u128;
        let weyl_jump = mul_mod(WEYL_JUMP_2_256 as u128, multiples, weyl_modulus_128);
        self.scalar_weyl = ((self.scalar_weyl as u128 + weyl_jump + weyl_modulus_128)
            % weyl_modulus_128) as u64;
        proof {
            assert forall|i: int| 0 <= i < 4 implies #[trigger] self.pcg_state(i) == pcg_iter(
                start.pcg_state(i),
                start.pcg_inc(i),
                PCG_MULTIPLIERS[i] as int,
                0,
            ) by {}
            self.lemma_matches_jumped(
                start,
                0,
                multiples as nat,
                multiples as nat,
                2,
                multiples as nat,
                t_mat@,
                t_pow@,
                x_mat@,
                x_pow@,
                4,
                crate::gf2::two_pow(256),
            );
            assert((multiples as nat) * 4 == 4 * multiples);
            assert(self.scalar_weyl == weyl_after(
                start.scalar_weyl,
                (12117361 * multiples) % (SCALAR_WEYL_MODULUS as int) + SCALAR_WEYL_MODULUS as int,
            ));
        }
    }

    /// The fields of `self` are those of `start.jumped(..)`, given what the matrices
    /// and the other jumps did.
    proof fn lemma_matches_jumped(
        self,
        start: Self,
        pcg: nat,
        tm: nat,
        mwc_steps: nat,
        mwc_k: nat,
        xo_mult: nat,
        t_mat: Seq<u128>,
        t_pow: Seq<u128>,
        x_mat: Seq<[u64; 4]>,
        x_pow: Seq<[u64; 4]>,
        t_per: nat,
        x_per: nat,
    )
        requires
            !(mwc_steps == 0 && mwc_k == 0),
            forall|i: int|
                0 <= i < 4 ==> #[trigger] self.pcg_state(i) == pcg_iter(
                    start.pcg_state(i),
                    start.pcg_inc(i),
                    PCG_MULTIPLIERS[i] as int,
                    pcg,
                ),
            self.pcg_inc_lo == start.pcg_inc_lo,
            self.pcg_inc_hi == start.pcg_inc_hi,
            forall|i: int|
                0 <= i < 4 ==> #[trigger] self.mwc_state[i] == mwc_jumped_value(
                    start.mwc_state[i],
                    start.mwc_carry[i],
                    i,
                    mwc_steps,
                    mwc_k,
                ) / (MCG_MULTIPLIERS[i] as int),
            forall|i: int|
                0 <= i < 4 ==> #[trigger] self.mwc_carry[i] == mwc_jumped_value(
                    start.mwc_state[i],
                    start.mwc_carry[i],
                    i,
                    mwc_steps,
                    mwc_k,
                ) % (MCG_MULTIPLIERS[i] as int),
            forall|v: u128| #[trigger] apply128(t_pow, v) == iter128(t_mat, v, tm),
            forall|v: u128| #[trigger] apply128(t_mat, v) == tinymt_iter128(v, t_per),
            forall|i: int|
                0 <= i < 4 ==> #[trigger] self.tm0[i] == apply128(
                    t_pow,
                    pack_tm(start.tm0[i], start.tm1[i]),
                ) as u64,
            forall|i: int|
                0 <= i < 4 ==> #[trigger] self.tm1[i] == (apply128(
                    t_pow,
                    pack_tm(start.tm0[i], start.tm1[i]),
                ) >> 64u128) as u64,
            forall|v: [u64; 4]| #[trigger] apply256(x_pow, v) == iter256(x_mat, v, xo_mult),
            forall|v: [u64; 4]| #[trigger] apply256(x_mat, v) == xoshiro_iter(v, x_per),
            self.xoshiro256 == apply256(x_pow, start.xoshiro256),
            self.reproducibility == start.reproducibility,
        ensures
            self == start.jumped(
                pcg,
                tm * t_per,
                mwc_steps,
                mwc_k,
                xo_mult * x_per,
                self.scalar_weyl,
            ),
    {
        reveal(TripleMixSimdCore::jumped);
        let j = start.jumped(pcg, tm * t_per, mwc_steps, mwc_k, xo_mult * x_per, self.scalar_weyl);
        self.lemma_pcg_matches(start, pcg);
        self.lemma_tm_matches(start, tm, t_mat, t_pow, t_per);
        self.lemma_mwc_matches(start, mwc_steps, mwc_k);
        lemma_xoshiro_power(x_mat, start.xoshiro256, xo_mult, x_per);
        assert(self.pcg_state_lo == j.pcg_state_lo);
        assert(self.pcg_state_hi == j.pcg_state_hi);
        assert(self.tm0 == j.tm0);
        assert(self.tm1 == j.tm1);
        assert(self.mwc_state == j.mwc_state);
        assert(self.mwc_carry == j.mwc_carry);
    }

    proof fn lemma_pcg_matches(self, start: Self, pcg: nat)
        requires
            forall|i: int|
                0 <= i < 4 ==> #[trigger] self.pcg_state(i) == pcg_iter(
                    start.pcg_state(i),
                    start.pcg_inc(i),
                    PCG_MULTIPLIERS[i] as int,
                    pcg,
                ),
        ensures
            self.pcg_state_lo == lanes4(
                |i: int| lo_word(pcg_iter(start.pcg_state(i), start.pcg_inc(i), PCG_MULTIPLIERS[i] as int, pcg)),
            ),
            self.pcg_state_hi == lanes4(
                |i: int| hi_word(pcg_iter(start.pcg_state(i), start.pcg_inc(i), PCG_MULTIPLIERS[i] as int, pcg)),
            ),
    {
        let f = |i: int| lo_word(pcg_iter(start.pcg_state(i), start.pcg_inc(i), PCG_MULTIPLIERS[i] as int, pcg));
        let g = |i: int| hi_word(pcg_iter(start.pcg_state(i), start.pcg_inc(i), PCG_MULTIPLIERS[i] as int, pcg));
        lemma_lanes4(f);
        lemma_lanes4(g);
        assert forall|i: int| 0 <= i < 4 implies self.pcg_state_lo[i] == f(i) && self.pcg_state_hi[i] == g(i) by {
            lemma_words_of(self.pcg_state_lo[i], self.pcg_state_hi[i]);
            assert(self.pcg_state(i) == u128_of(self.pcg_state_lo[i], self.pcg_state_hi[i]));
            assert(f(i) == lo_word(self.pcg_state(i)));
            assert(g(i) == hi_word(self.pcg_state(i)));
        }
        assert(self.pcg_state_lo =~= lanes4(f));
        assert(self.pcg_state_hi =~= lanes4(g));
    }

    proof fn lemma_tm_matches(self, start: Self, tm: nat, t_mat: Seq<u128>, t_pow: Seq<u128>, t_per: nat)
        requires
            forall|v: u128| #[trigger] apply128(t_pow, v) == iter128(t_mat, v, tm),
            forall|v: u128| #[trigger] apply128(t_mat, v) == tinymt_iter128(v, t_per),
            forall|i: int|
                0 <= i < 4 ==> #[trigger] self.tm0[i] == apply128(
                    t_pow,
                    pack_tm(start.tm0[i], start.tm1[i]),
                ) as u64,
            forall|i: int|
                0 <= i < 4 ==> #[trigger] self.tm1[i] == (apply128(
                    t_pow,
                    pack_tm(start.tm0[i], start.tm1[i]),
                ) >> 64u128) as u64,
        ensures
            self.tm0 == lanes4(|i: int| tinymt_iter128(pack_tm(start.tm0[i], start.tm1[i]), tm * t_per) as u64),
            self.tm1 == lanes4(
                |i: int| (tinymt_iter128(pack_tm(start.tm0[i], start.tm1[i]), tm * t_per) >> 64u128) as u64,
            ),
    {
        let f = |i: int| tinymt_iter128(pack_tm(start.tm0[i], start.tm1[i]), tm * t_per) as u64;
        let g = |i: int| (tinymt_iter128(pack_tm(start.tm0[i], start.tm1[i]), tm * t_per) >> 64u128) as u64;
        lemma_lanes4(f);
        lemma_lanes4(g);
        assert forall|i: int| 0 <= i < 4 implies self.tm0[i] == f(i) && self.tm1[i] == g(i) by {
            lemma_tinymt_power(t_mat, pack_tm(start.tm0[i], start.tm1[i]), tm, t_per);
        }
        assert(self.tm0 =~= lanes4(f));
        assert(self.tm1 =~= lanes4(g));
    }

    proof fn lemma_mwc_matches(self, start: Self, mwc_steps: nat, mwc_k: nat)
        requires
            forall|i: int|
                0 <= i < 4 ==> #[trigger] self.mwc_state[i] == mwc_jumped_value(
                    start.mwc_state[i],
                    start.mwc_carry[i],
                    i,
                    mwc_steps,
                    mwc_k,
                ) / (MCG_MULTIPLIERS[i] as int),
            forall|i: int|
                0 <= i < 4 ==> #[trigger] self.mwc_carry[i] == mwc_jumped_value(
                    start.mwc_state[i],
                    start.mwc_carry[i],
                    i,
                    mwc_steps,
                    mwc_k,
                ) % (MCG_MULTIPLIERS[i] as int),
        ensures
            self.mwc_state == lanes4(
                |i: int|
                    (mwc_jumped_value(start.mwc_state[i], start.mwc_carry[i], i, mwc_steps, mwc_k)
                        / (MCG_MULTIPLIERS[i] as int)) as u64,
            ),
            self.mwc_carry == lanes4(
                |i: int|
                    (mwc_jumped_value(start.mwc_state[i], start.mwc_carry[i], i, mwc_steps, mwc_k)
                        % (MCG_MULTIPLIERS[i] as int)) as u64,
            ),
    {
        let f = |i: int|
            (mwc_jumped_value(start.mwc_state[i], start.mwc_carry[i], i, mwc_steps, mwc_k)
                / (MCG_MULTIPLIERS[i] as int)) as u64;
        let g = |i: int|
            (mwc_jumped_value(start.mwc_state[i], start.mwc_carry[i], i, mwc_steps, mwc_k)
                % (MCG_MULTIPLIERS[i] as int)) as u64;
        lemma_lanes4(f);
        lemma_lanes4(g);
        assert(self.mwc_state =~= lanes4(f));
        assert(self.mwc_carry =~= lanes4(g));
    }

    /// The GF(2) matrix of one TinyMT64 step.
    pub fn tinymt_jump_mat() -> (r: [u128; 128])
        ensures
            forall|i: int| 0 <= i < 128 ==> #[trigger] r[i] == crate::gf2::tinymt_step128(1u128 << (i as u128)),
    {
        compute_tinymt_mat()
    }

    /// The TinyMT64 matrix used for jumps by multiples of 2^128 steps: two steps, since
    /// 2^128 is 2 modulo the period 2^127 - 1.
    pub fn tinymt_jump_128_mat() -> (r: [u128; 128])
        ensures
            forall|v: u128| #[trigger] apply128(r@, v) == tinymt_iter128(v, 2),
    {
        let m = compute_tinymt_mat();
        let r = pow_mat_2_exp(m, 1);
        proof {
            assert forall|v: u128| #[trigger] apply128(r@, v) == tinymt_iter128(v, 2) by {
                lemma_tinymt_mat_iter(m@, v, 2);
                assert(crate::gf2::two_pow(0) == 1);
                assert(crate::gf2::two_pow(1) == 2);
            }
        }
        r
    }

    /// The TinyMT64 matrix used for jumps by multiples of 2^256 steps: four steps, since
    /// 2^256 is 4 modulo the period 2^127 - 1.
    pub fn tinymt_jump_256_mat() -> (r: [u128; 128])
        ensures
            forall|v: u128| #[trigger] apply128(r@, v) == tinymt_iter128(v, 4),
    {
        let m = compute_tinymt_mat();
        let r = pow_mat_2_exp(m, 2);
        proof {
            assert forall|v: u128| #[trigger] apply128(r@, v) == tinymt_iter128(v, 4) by {
                lemma_tinymt_mat_iter(m@, v, 4);
                assert(crate::gf2::two_pow(2) == 4) by {
                    assert(crate::gf2::two_pow(0) == 1);
                    assert(crate::gf2::two_pow(1) == 2);
                }
            }
        }
        r
    }

    /// The GF(2) matrix of one xoshiro256 step.
    pub fn xoshiro256_jump_mat() -> (r: [[u64; 4]; 256])
        ensures
            forall|i: int| 0 <= i < 256 ==> #[trigger] r[i] == crate::generate::xoshiro_next(
                crate::gf2_256::unit256(i),
            ),
    {
        compute_xoshiro256_mat()
    }

    /// The xoshiro256 matrix of 2^128 steps.
    pub fn xoshiro256_jump_128_mat() -> (r: [[u64; 4]; 256])
        ensures
            forall|v: [u64; 4]| #[trigger] apply256(r@, v) == xoshiro_iter(v, crate::gf2::two_pow(128)),
    {
        let m = compute_xoshiro256_mat();
        let r = pow_mat_256_2_exp(m, 128);
        proof {
            assert forall|v: [u64; 4]| #[trigger] apply256(r@, v) == xoshiro_iter(v, crate::gf2::two_pow(128)) by {
                lemma_xoshiro_mat_iter(m@, v, crate::gf2::two_pow(128));
            }
        }
        r
    }

    /// The xoshiro256 matrix of 2^256 steps.
    pub fn xoshiro256_jump_256_mat() -> (r: [[u64; 4]; 256])
        ensures
            forall|v: [u64; 4]| #[trigger] apply256(r@, v) == xoshiro_iter(v, crate::gf2::two_pow(256)),
    {
        let m = compute_xoshiro256_mat();
        let r = pow_mat_256_2_exp(m, 256);
        proof {
            assert forall|v: [u64; 4]| #[trigger] apply256(r@, v) == xoshiro_iter(v, crate::gf2::two_pow(256)) by {
                lemma_xoshiro_mat_iter(m@, v, crate::gf2::two_pow(256));
            }
        }
        r
    }
}


// Laws: what a jump does, stated against stepping.

/// `2^(a + b) == 2^a * 2^b`.
proof fn lemma_two_pow_add(a: nat, b: nat)
    ensures
        two_pow(a + b) == two_pow(a) * two_pow(b),
    decreases b,
{
    if b > 0 {
        let b1 = (b - 1) as nat;
        lemma_two_pow_add(a, b1);
        assert(a + b1 + 1 == a + b);
        assert(two_pow(a + b) == 2 * two_pow(a + b1));
        assert(two_pow(b) == 2 * two_pow(b1));
        let x = two_pow(a);
        let y = two_pow(b1);
        assert(2 * (x * y) == x * (2 * y)) by (nonlinear_arith);
    } else {
        assert(two_pow(0) == 1);
        let x = two_pow(a);
        assert(x * 1 == x) by (nonlinear_arith);
        assert(a + 0 == a);
    }
}

/// `2^64` and `2^128` as numbers.
proof fn lemma_two_pow_64_128()
    ensures
        two_pow(64) == pow64(),
        two_pow(128) == pow128(),
{
    reveal_with_fuel(two_pow, 9);
    assert(two_pow(8) == 256);
    lemma_two_pow_add(8, 8);
    assert(two_pow(16) == 256 * 256);
    lemma_two_pow_add(16, 16);
    assert(two_pow(32) == 65536 * 65536);
    lemma_two_pow_add(32, 32);
    assert(two_pow(64) == 0x1_0000_0000 * 0x1_0000_0000);
    lemma_two_pow_add(64, 64);
    assert(two_pow(128) == pow64() * pow64());
}

/// The Weyl counter's jump constants are `2^128` and `2^256` modulo its modulus
/// `2^64 - 59`.
pub proof fn lemma_weyl_jump_constants()
    ensures
        WEYL_JUMP_2_128 as int == two_pow(128) as int % (SCALAR_WEYL_MODULUS as int),
        WEYL_JUMP_2_256 as int == two_pow(256) as int % (SCALAR_WEYL_MODULUS as int),
{
    lemma_two_pow_64_128();
    lemma_two_pow_add(128, 128);
    let m = SCALAR_WEYL_MODULUS as int;
    let q = m + 118;
    assert(pow128() == q * m + 3481);
    lemma_fundamental_div_mod_converse(pow128(), m, q, 3481);
    let q2 = q * q * m + 2 * q * 3481;
    assert(pow128() * pow128() == q2 * m + 12117361) by (nonlinear_arith)
        requires
            pow128() == q * m + 3481,
            q2 == q * q * m + 2 * q * 3481,
            3481 * 3481 == 12117361,
    ;
    lemma_fundamental_div_mod_converse(pow128() * pow128(), m, q2, 12117361);
}

/// The affine map of `2^k` PCG steps, `x -> m * x + c` modulo 2^128, as `(m, c)`:
/// squared from the one-step map `(mult, inc)`.
pub open spec fn pcg_doubled(mult: int, inc: int, k: nat) -> (int, int)
    decreases k,
{
    if k == 0 {
        (mult, inc)
    } else {
        let (m, c) = pcg_doubled(mult, inc, (k - 1) as nat);
        ((m * m) % pow128(), (m * c + c) % pow128())
    }
}

/// `2^k` PCG steps are the affine map `pcg_doubled(mult, inc, k)`.
proof fn lemma_pcg_doubled(x: int, inc: int, mult: int, k: nat)
    requires
        0 <= x < pow128(),
        0 <= inc < pow128(),
    ensures
        pcg_iter(x, inc, mult, two_pow(k)) == affine(
            pcg_doubled(mult, inc, k).0,
            pcg_doubled(mult, inc, k).1,
            x,
        ),
    decreases k,
{
    if k == 0 {
        assert(two_pow(0) == 1);
        assert(pcg_iter(x, inc, mult, 0) == x);
        assert(x * mult == mult * x) by (nonlinear_arith);
    } else {
        let k1 = (k - 1) as nat;
        let (m, c) = pcg_doubled(mult, inc, k1);
        lemma_pcg_doubled(x, inc, mult, k1);
        let y = pcg_iter(x, inc, mult, two_pow(k1));
        lemma_mod_bound(m * x + c, pow128());
        lemma_pcg_doubled(y, inc, mult, k1);
        lemma_pcg_iter_add(x, inc, mult, two_pow(k1), two_pow(k1));
        assert(two_pow(k) == two_pow(k1) + two_pow(k1));
        lemma_affine_compose(m, c, m, c, x);
        assert(m * c + c == m * c + c);
    }
}

/// The doubled PCG map modulo powers of two: `m` is 1 modulo `2^(k + 2)` (capped at
/// 2^128) and `c` is a multiple of `2^k`, for a multiplier that is 1 modulo 4.
proof fn lemma_pcg_doubled_divisible(mult: int, inc: int, k: nat)
    requires
        0 < mult < pow128(),
        mult % 4 == 1,
        0 <= inc < pow128(),
        k <= 128,
    ensures
        0 <= pcg_doubled(mult, inc, k).0 < pow128(),
        0 <= pcg_doubled(mult, inc, k).1 < pow128(),
        pcg_doubled(mult, inc, k).0 % two_pow(if k + 2 <= 128 {
            k + 2
        } else {
            128
        }) as int == 1,
        pcg_doubled(mult, inc, k).1 % two_pow(k) as int == 0,
    decreases k,
{
    lemma_two_pow_64_128();
    if k == 0 {
        reveal_with_fuel(two_pow, 3);
        assert(two_pow(2) == 4);
        assert(two_pow(0) == 1);
        lemma_fundamental_div_mod_converse(inc, 1, inc, 0);
    } else {
        let k1 = (k - 1) as nat;
        lemma_pcg_doubled_divisible(mult, inc, k1);
        let (m, c) = pcg_doubled(mult, inc, k1);
        let j = if k1 + 2 <= 128 { k1 + 2 } else { 128nat };
        let j2 = if k + 2 <= 128 { k + 2 } else { 128nat };
        let pj = two_pow(j) as int;
        let pj2 = two_pow(j2) as int;
        let pk1 = two_pow(k1) as int;
        let pk = two_pow(k) as int;
        assert(pk == 2 * pk1);
        lemma_two_pow_pos(j);
        lemma_two_pow_pos(k1);
        vstd::arithmetic::div_mod::lemma_fundamental_div_mod(m, pj);
        vstd::arithmetic::div_mod::lemma_fundamental_div_mod(c, pk1);
        let q = m / pj;
        let r = c / pk1;
        assert(m == pj * q + 1);
        assert(c == pk1 * r);
        lemma_two_pow_divides(2, j);
        lemma_two_pow_divides(j2, 128);
        lemma_two_pow_divides(k, 128);
        reveal_with_fuel(two_pow, 3);
        assert(two_pow(2) == 4);
        lemma_two_pow_pos((j - 2) as nat);
        let h = pj / 2;
        assert(pj == 2 * h) by (nonlinear_arith)
            requires
                pj == 4 * two_pow((j - 2) as nat),
                h == pj / 2,
        ;
        assert(pj2 >= 4) by {
            lemma_two_pow_divides(2, j2);
            lemma_two_pow_pos((j2 - 2) as nat);
            assert(pj2 == 4 * two_pow((j2 - 2) as nat));
        }
        // m * m is 1 modulo pj2
        let sq: int = if j2 == j {
            q * (m + 1)
        } else {
            q * (h * q + 1)
        };
        assert(m * m == pj2 * sq + 1) by {
            if j2 == j {
                assert(m * m == pj * (q * (m + 1)) + 1) by (nonlinear_arith)
                    requires
                        m == pj * q + 1,
                ;
            } else {
                assert(pj2 == 2 * pj);
                assert(m * m == pj2 * (q * (h * q + 1)) + 1) by (nonlinear_arith)
                    requires
                        m == pj * q + 1,
                        pj == 2 * h,
                        pj2 == 2 * pj,
                ;
            }
        }
        lemma_fundamental_div_mod_converse(m * m, pj2, sq, 1);
        lemma_mod_keeps_divisibility(m * m, pj2);
        // m * c + c is a multiple of pk
        assert(m * c + c == pk * (r * (h * q + 1))) by (nonlinear_arith)
            requires
                c == pk1 * r,
                m == pj * q + 1,
                pj == 2 * h,
                pk == 2 * pk1,
        ;
        lemma_fundamental_div_mod_converse(m * c + c, pk, r * (h * q + 1), 0);
        lemma_mod_keeps_divisibility(m * c + c, pk);
        lemma_mod_bound(m * m, pow128());
        lemma_mod_bound(m * c + c, pow128());
    }
}

/// For an odd increment, the constant of the doubled PCG map is an odd multiple of
/// `2^k`: it is `2^k` modulo `2^(k + 1)`.
proof fn lemma_pcg_doubled_odd(mult: int, inc: int, k: nat)
    requires
        0 < mult < pow128(),
        mult % 4 == 1,
        0 <= inc < pow128(),
        inc % 2 == 1,
        k <= 127,
    ensures
        pcg_doubled(mult, inc, k).1 % two_pow(k + 1) as int == two_pow(k) as int,
    decreases k,
{
    lemma_two_pow_64_128();
    if k == 0 {
        reveal_with_fuel(two_pow, 2);
        assert(two_pow(1) == 2);
        assert(two_pow(0) == 1);
    } else {
        let k1 = (k - 1) as nat;
        lemma_pcg_doubled_odd(mult, inc, k1);
        lemma_pcg_doubled_divisible(mult, inc, k1);
        let (m, c) = pcg_doubled(mult, inc, k1);
        let pk1 = two_pow(k1) as int;
        let pk = two_pow(k) as int;
        let pk2 = two_pow(k + 1) as int;
        let pj = two_pow(k1 + 2) as int;
        lemma_two_pow_pos(k1);
        assert(pk == 2 * pk1);
        assert(pk2 == 2 * pk);
        assert(k1 + 2 == k + 1 && k1 + 1 == k);
        assert(pj == pk2);
        vstd::arithmetic::div_mod::lemma_fundamental_div_mod(c, pk);
        vstd::arithmetic::div_mod::lemma_fundamental_div_mod(m, pj);
        let a = c / pk;
        let q = m / pj;
        assert(c % pk == pk1);
        assert(c == pk1 * (2 * a + 1)) by (nonlinear_arith)
            requires
                c == pk * a + pk1,
                pk == 2 * pk1,
        ;
        assert(m == pj * q + 1);
        let b = pk1 * q;
        let u = 2 * a * b + a + b;
        assert(m * c + c == pk2 * u + pk) by (nonlinear_arith)
            requires
                c == pk1 * (2 * a + 1),
                m == pj * q + 1,
                pj == 2 * pk,
                pk == 2 * pk1,
                pk2 == 2 * pk,
                b == pk1 * q,
                u == 2 * a * b + a + b,
        ;
        lemma_fundamental_div_mod_converse(m * c + c, pk2, u, pk);
        lemma_two_pow_divides(k + 1, 128);
        lemma_mod_keeps_divisibility(m * c + c, pk2);
    }
}

/// `2^127` steps of a PCG lane with an odd increment and a multiplier that is 1 modulo
/// 4 do not bring its state back.
proof fn lemma_pcg_half_cycle(x: int, inc: int, mult: int)
    requires
        0 <= x < pow128(),
        0 <= inc < pow128(),
        inc % 2 == 1,
        0 < mult < pow128(),
        mult % 4 == 1,
    ensures
        pcg_iter(x, inc, mult, two_pow(127)) != x,
{
    lemma_pcg_doubled(x, inc, mult, 127);
    lemma_pcg_doubled_divisible(mult, inc, 127);
    lemma_pcg_doubled_odd(mult, inc, 127);
    lemma_two_pow_64_128();
    let (m, c) = pcg_doubled(mult, inc, 127);
    lemma_small_mod(m as nat, pow128() as nat);
    lemma_small_mod(c as nat, pow128() as nat);
    assert(m == 1);
    assert(c == two_pow(127));
    assert(two_pow(128) == 2 * two_pow(127));
    assert(m * x + c == x + c) by (nonlinear_arith)
        requires
            m == 1,
    ;
    assert(pcg_iter(x, inc, mult, two_pow(127)) == (x + c) % pow128());
    if x < two_pow(127) {
        lemma_small_mod((x + c) as nat, pow128() as nat);
    } else {
        lemma_fundamental_div_mod_converse(x + c, pow128(), 1, x + c - pow128());
    }
}

/// `2^k` is positive.
proof fn lemma_two_pow_pos(k: nat)
    ensures
        two_pow(k) > 0,
    decreases k,
{
    if k > 0 {
        lemma_two_pow_pos((k - 1) as nat);
    }
}

/// `2^a` divides `2^b` for `a <= b`.
proof fn lemma_two_pow_divides(a: nat, b: nat)
    requires
        a <= b,
    ensures
        two_pow(b) % two_pow(a) == 0,
        two_pow(b) == two_pow(a) * two_pow((b - a) as nat),
{
    lemma_two_pow_add(a, (b - a) as nat);
    lemma_two_pow_pos(a);
    vstd::arithmetic::div_mod::lemma_mod_multiples_basic(two_pow((b - a) as nat) as int, two_pow(a) as int);
    assert(two_pow(a) * two_pow((b - a) as nat) == two_pow((b - a) as nat) * two_pow(a)) by (nonlinear_arith);
}

/// Reducing modulo 2^128 keeps the residue modulo a divisor of 2^128.
proof fn lemma_mod_keeps_divisibility(v: int, d: int)
    requires
        d > 0,
        pow128() % d == 0,
    ensures
        (v % pow128()) % d == v % d,
{
    vstd::arithmetic::div_mod::lemma_fundamental_div_mod(v, pow128());
    vstd::arithmetic::div_mod::lemma_fundamental_div_mod(pow128(), d);
    let q = v / pow128();
    let t = pow128() / d;
    assert(v == d * (q * t) + v % pow128()) by (nonlinear_arith)
        requires
            v == pow128() * q + v % pow128(),
            pow128() == d * t + 0,
    ;
    vstd::arithmetic::div_mod::lemma_mod_multiples_vanish(q * t, v % pow128(), d);
}

/// `2^128` steps of a PCG lane whose multiplier is 1 modulo 4 bring its state back:
/// the lane's period divides `2^128`.
pub proof fn lemma_pcg_full_cycle(x: int, inc: int, mult: int)
    requires
        0 <= x < pow128(),
        0 <= inc < pow128(),
        0 < mult < pow128(),
        mult % 4 == 1,
    ensures
        pcg_iter(x, inc, mult, two_pow(128)) == x,
{
    lemma_pcg_doubled(x, inc, mult, 128);
    lemma_pcg_doubled_divisible(mult, inc, 128);
    lemma_two_pow_64_128();
    let (m, c) = pcg_doubled(mult, inc, 128);
    assert(m % two_pow(128) as int == 1);
    assert(c % two_pow(128) as int == 0);
    lemma_small_mod(m as nat, pow128() as nat);
    lemma_small_mod(c as nat, pow128() as nat);
    assert(m == 1);
    assert(c == 0);
    lemma_small_mod(x as nat, pow128() as nat);
    assert(affine(m, c, x) == (1 * x + 0) % pow128());
    assert(affine(m, c, x) == x);
}

/// One multiply-with-carry step on a value `t = a * w + c` below `m = a * 2^64 - 1`:
/// the new value `a * (t mod 2^64) + t / 2^64` is `a * t mod m`, again below `m`, and the
/// new carry is below `a`.
proof fn lemma_mwc_one_step(a: int, t: int)
    requires
        1 < a < pow64(),
        0 <= t < a * pow64() - 1,
    ensures
        a * (t % pow64()) + t / pow64() < a * pow64() - 1,
        a * (t % pow64()) + t / pow64() == (a * t) % (a * pow64() - 1),
        t / pow64() < a,
        t / pow64() < pow64(),
{
    let b = pow64();
    let m = a * b - 1;
    let w = t % b;
    let c = t / b;
    vstd::arithmetic::div_mod::lemma_fundamental_div_mod(t, b);
    lemma_mod_bound(t, b);
    assert(c < a) by (nonlinear_arith)
        requires
            t == b * c + w,
            0 <= w,
            t < a * b - 1,
            b > 0,
    ;
    assert(c >= 0) by (nonlinear_arith)
        requires
            t == b * c + w,
            w < b,
            t >= 0,
            b > 0,
    ;
    assert(a * w + c < m) by (nonlinear_arith)
        requires
            t == b * c + w,
            0 <= w < b,
            0 <= c < a,
            t < a * b - 1,
            m == a * b - 1,
    ;
    assert(a * t == m * c + (a * w + c)) by (nonlinear_arith)
        requires
            t == b * c + w,
            m == a * b - 1,
    ;
    assert(a * w + c >= 0) by (nonlinear_arith)
        requires
            0 <= w,
            0 <= c,
            a > 0,
    ;
    lemma_fundamental_div_mod_converse(a * t, m, c, a * w + c);
}

/// A 128-bit number is rebuilt from its low and high words.
proof fn lemma_u128_of_words(p: int)
    requires
        0 <= p < pow128(),
    ensures
        u128_of(lo_word(p), hi_word(p)) == p,
{
    vstd::arithmetic::div_mod::lemma_fundamental_div_mod(p, pow64());
    lemma_mod_bound(p, pow64());
    assert(p / pow64() < pow64()) by (nonlinear_arith)
        requires
            p == pow64() * (p / pow64()) + p % pow64(),
            0 <= p % pow64(),
            p < pow128(),
            pow128() == pow64() * pow64(),
            pow64() > 0,
    ;
    assert(p / pow64() >= 0) by (nonlinear_arith)
        requires
            p == pow64() * (p / pow64()) + p % pow64(),
            p % pow64() < pow64(),
            p >= 0,
            pow64() > 0,
    ;
}

/// The low and high words of a packed TinyMT64 lane state are the words it was packed from.
proof fn lemma_repack_tm(v: u128)
    ensures
        pack_tm(v as u64, (v >> 64u128) as u64) == v,
{
    assert(((v as u64) as u128) | ((((v >> 64u128) as u64) as u128) << 64u128) == v) by (bit_vector);
}

proof fn lemma_unpack_tm(a: u64, b: u64)
    ensures
        pack_tm(a, b) as u64 == a,
        (pack_tm(a, b) >> 64u128) as u64 == b,
{
    assert(((a as u128) | ((b as u128) << 64u128)) as u64 == a && ((((a as u128) | ((b as u128)
        << 64u128)) >> 64u128) as u64 == b)) by (bit_vector);
}

/// Lane `i`'s multiply-with-carry value is `a * w + c` for its multiplier `a`.
proof fn lemma_mwc_value_lane(w: u64, c: u64, i: int)
    requires
        0 <= i < 4,
    ensures
        mwc_value(w, c, MWC_MULTIPLIER_COMPLEMENTS[i]) == MCG_MULTIPLIERS[i] * w + c,
        1 < MCG_MULTIPLIERS[i] < pow64(),
{
    assert(pow64() - MWC_MULTIPLIER_COMPLEMENTS[i] == MCG_MULTIPLIERS[i]) by {
        if i == 0 {
        } else if i == 1 {
        } else if i == 2 {
        } else {
        }
    }
}

impl<R: Reproducibility> TripleMixSimdCore<R> {
    /// `n` steps carry the PCG state of lane `i` through `n` iterations of its affine
    /// map and leave the increments alone.
    proof fn lemma_iterate_pcg(self, n: nat, i: int)
        requires
            0 <= i < 4,
        ensures
            self.iterate(n).pcg_state(i) == pcg_iter(
                self.pcg_state(i),
                self.pcg_inc(i),
                PCG_MULTIPLIERS[i] as int,
                n,
            ),
            self.iterate(n).pcg_inc_lo == self.pcg_inc_lo,
            self.iterate(n).pcg_inc_hi == self.pcg_inc_hi,
        decreases n,
    {
        if n > 0 {
            let k = (n - 1) as nat;
            self.lemma_iterate_pcg(k, i);
            let s = self.iterate(k);
            reveal(TripleMixSimdCore::step);
            lemma_lanes4(|j: int| lo_word(s.pcg_stepped(j)));
            lemma_lanes4(|j: int| hi_word(s.pcg_stepped(j)));
            let p = s.pcg_stepped(i);
            lemma_mod_bound(s.pcg_state(i) * PCG_MULTIPLIERS[i] + s.pcg_inc(i), pow128());
            lemma_u128_of_words(p);
            assert(self.iterate(n) == s.step());
        }
    }

    /// `n` steps carry the packed TinyMT64 state of lane `i` through `n` TinyMT64 steps.
    proof fn lemma_iterate_tm(self, n: nat, i: int)
        requires
            0 <= i < 4,
        ensures
            pack_tm(self.iterate(n).tm0[i], self.iterate(n).tm1[i]) == tinymt_iter128(
                pack_tm(self.tm0[i], self.tm1[i]),
                n,
            ),
        decreases n,
    {
        if n > 0 {
            let k = (n - 1) as nat;
            self.lemma_iterate_tm(k, i);
            let s = self.iterate(k);
            reveal(TripleMixSimdCore::step);
            lemma_lanes4(|j: int| tinymt_next0(s.tm0[j], s.tm1[j]));
            lemma_lanes4(|j: int| tinymt_next1(s.tm0[j], s.tm1[j]));
            lemma_unpack_tm(s.tm0[i], s.tm1[i]);
            assert(self.iterate(n) == s.step());
        }
    }

    /// `n` steps carry the xoshiro256 state through `n` xoshiro256 steps and, when
    /// there is at least one, move the Weyl counter `n` places modulo its modulus.
    proof fn lemma_iterate_xoshiro(self, n: nat)
        ensures
            self.iterate(n).xoshiro256 == xoshiro_iter(self.xoshiro256, n),
            n == 0 ==> self.iterate(n).scalar_weyl == self.scalar_weyl,
            n > 0 ==> self.iterate(n).scalar_weyl == ((self.scalar_weyl + n) % (
            SCALAR_WEYL_MODULUS as int)) as u64,
            self.iterate(n).reproducibility == self.reproducibility,
        decreases n,
    {
        if n > 0 {
            let k = (n - 1) as nat;
            self.lemma_iterate_xoshiro(k);
            reveal(TripleMixSimdCore::step);
            assert(self.iterate(n) == self.iterate(k).step());
            let md = SCALAR_WEYL_MODULUS as int;
            if k > 0 {
                lemma_mod_bound(self.scalar_weyl + k, md);
                lemma_add_mod_noop(self.scalar_weyl + k, 1, md);
                lemma_mod_twice_local(1, md);
                assert(self.iterate(k).scalar_weyl as int == (self.scalar_weyl + k) % md);
                assert(self.iterate(n).scalar_weyl as int == (self.iterate(k).scalar_weyl + 1) % md);
                assert(1int % md == 1);
            }
        }
    }

    /// `n` steps from a value `V` below the modulus give the value `V * a^n` modulo
    /// the modulus, and after at least one step the carry is below `a`.
    proof fn lemma_iterate_mwc(self, n: nat, i: int)
        requires
            0 <= i < 4,
            self.mwc_stepped(i) < mwc_modulus(i),
        ensures
            self.iterate(n).mwc_stepped(i) == (self.mwc_stepped(i) * pow(
                MCG_MULTIPLIERS[i] as int,
                n,
            )) % mwc_modulus(i),
            self.iterate(n).mwc_stepped(i) < mwc_modulus(i),
            n > 0 ==> self.iterate(n).mwc_carry[i] < MCG_MULTIPLIERS[i],
        decreases n,
    {
        let a = MCG_MULTIPLIERS[i] as int;
        let m = mwc_modulus(i);
        lemma_mwc_value_lane(self.mwc_state[i], self.mwc_carry[i], i);
        let v0 = self.mwc_stepped(i);
        assert(v0 >= 0) by (nonlinear_arith)
            requires
                v0 == a * self.mwc_state[i] + self.mwc_carry[i],
                a > 0,
        ;
        if n == 0 {
            vstd::arithmetic::power::lemma_pow0(a);
            lemma_small_mod(v0 as nat, m as nat);
        } else {
            let k = (n - 1) as nat;
            self.lemma_iterate_mwc(k, i);
            let s = self.iterate(k);
            let t = s.mwc_stepped(i);
            lemma_mwc_value_lane(s.mwc_state[i], s.mwc_carry[i], i);
            assert(t >= 0) by (nonlinear_arith)
                requires
                    t == a * s.mwc_state[i] + s.mwc_carry[i],
                    a > 0,
            ;
            reveal(TripleMixSimdCore::step);
            lemma_lanes4(|j: int| lo_word(s.mwc_stepped(j)));
            lemma_lanes4(|j: int| hi_word(s.mwc_stepped(j)));
            assert(self.iterate(n) == s.step());
            lemma_mwc_one_step(a, t);
            let s2 = self.iterate(n);
            lemma_mod_bound(t, pow64());
            assert(s2.mwc_state[i] == t % pow64());
            assert(s2.mwc_carry[i] == t / pow64());
            lemma_mwc_value_lane(s2.mwc_state[i], s2.mwc_carry[i], i);
            // (a * ((v0 * a^k) % m)) % m == (v0 * a^(k+1)) % m
            lemma_mul_mod_noop_right(a, v0 * pow(a, k), m);
            reveal(pow);
            assert(pow(a, n) == a * pow(a, k));
            assert(a * (v0 * pow(a, k)) == v0 * pow(a, n)) by (nonlinear_arith)
                requires
                    pow(a, n) == a * pow(a, k),
            ;
        }
    }
}


impl<R: Reproducibility> TripleMixSimdCore<R> {
    /// Every multiply-with-carry lane holds a value `a * w + c` below its modulus
    /// `a * 2^64 - 1`: the states that the lanes' cycles run through.
    pub closed spec fn mwc_valid(self) -> bool {
        forall|i: int| 0 <= i < 4 ==> #[trigger] self.mwc_stepped(i) < mwc_modulus(i)
    }

    /// Stepping keeps every multiply-with-carry value below its modulus.
    pub proof fn lemma_stepped_valid(self, n: nat)
        requires
            self.mwc_valid(),
        ensures
            self.stepped(n).mwc_valid(),
    {
        self.lemma_stepped_unfold(n);
        assert forall|i: int| 0 <= i < 4 implies #[trigger] self.iterate(n).mwc_stepped(i)
            < mwc_modulus(i) by {
            self.lemma_iterate_mwc(n, i);
        }
    }

    /// The all-but-zero state has every multiply-with-carry value below its modulus.
    pub proof fn lemma_almost_all_zeroes_valid()
        ensures
            Self::almost_all_zeroes().mwc_valid(),
    {
        let s = Self::almost_all_zeroes();
        s.lemma_stepped_unfold(0);
        assert forall|i: int| 0 <= i < 4 implies #[trigger] s.mwc_stepped(i) < mwc_modulus(i) by {
            lemma_mwc_value_lane(s.mwc_state[i], s.mwc_carry[i], i);
            assert(s.mwc_state[i] <= 9);
            assert(s.mwc_carry[i] == 0);
            assert(MCG_MULTIPLIERS[i] * s.mwc_state[i] <= MCG_MULTIPLIERS[i] * 9) by (nonlinear_arith)
                requires
                    s.mwc_state[i] <= 9,
                    MCG_MULTIPLIERS[i] > 0,
            ;
        }
    }

    /// Every step moves the Weyl counter by one modulo `2^64 - 59`, so a counter below
    /// the modulus comes back after exactly that many steps and no fewer.
    pub proof fn lemma_stepped_weyl(self, n: nat)
        ensures
            n > 0 ==> self.stepped(n).weyl() == ((self.weyl() + n) % (SCALAR_WEYL_MODULUS as int)) as u64,
            self.weyl() < SCALAR_WEYL_MODULUS ==> (self.stepped(n).weyl() == self.weyl() <==> n
                % (SCALAR_WEYL_MODULUS as nat) == 0),
    {
        self.lemma_stepped_unfold(n);
        self.stepped(n).lemma_stepped_unfold(0);
        self.lemma_iterate_xoshiro(n);
        let md = SCALAR_WEYL_MODULUS as int;
        let w = self.scalar_weyl as int;
        if n > 0 && w < md {
            lemma_add_mod_noop(w, n as int, md);
            lemma_small_mod(w as nat, md as nat);
            lemma_mod_bound(n as int, md);
            lemma_mod_bound(w + n, md);
            if (n as int) % md == 0 {
                assert((w + n) % md == w);
            } else {
                if w + (n as int) % md < md {
                    lemma_small_mod((w + (n as int) % md) as nat, md as nat);
                } else {
                    vstd::arithmetic::div_mod::lemma_fundamental_div_mod_converse(
                        w + (n as int) % md,
                        md,
                        1,
                        w + (n as int) % md - md,
                    );
                }
            }
        }
    }

    /// `advance(n)` gives exactly the state that `n` steps give, the Weyl counter
    /// included, which moves by `n` modulo its modulus. The multiply-with-carry lanes
    /// must hold values below their moduli: the jump reduces modulo the modulus, while
    /// a lane whose value equals the modulus stays where it is under stepping.
    pub proof fn lemma_advanced_is_stepped(self, n: nat)
        requires
            self.mwc_valid(),
        ensures
            self.advanced(n) == self.stepped(n),
            n > 0 ==> self.advanced(n).weyl() == ((self.weyl() + n) % (
            SCALAR_WEYL_MODULUS as int)) as u64,
    {
        self.lemma_stepped_unfold(n);
        self.advanced(n).lemma_stepped_unfold(0);
        let s = self.iterate(n);
        self.lemma_iterate_xoshiro(n);
        if n == 0 {
            assert(self.advanced(0) == self);
        } else {
            reveal(TripleMixSimdCore::jumped);
            let j = self.advanced(n);
            assert(128 * 0nat == 0);
            assert(two_pow(0) == 1);
            assert(two_pow(128 * 0nat) == 1);
            assert(n * two_pow(128 * 0nat) == n) by (nonlinear_arith)
                requires
                    two_pow(128 * 0nat) == 1,
            ;
            assert forall|i: int| 0 <= i < 4 implies #[trigger] j.pcg_state_lo[i] == s.pcg_state_lo[i]
                && j.pcg_state_hi[i] == s.pcg_state_hi[i] && j.tm0[i] == s.tm0[i] && j.tm1[i]
                == s.tm1[i] && j.mwc_state[i] == s.mwc_state[i] && j.mwc_carry[i] == s.mwc_carry[i] by {
                lemma_lanes4(
                    |k: int|
                        lo_word(
                            pcg_iter(self.pcg_state(k), self.pcg_inc(k), PCG_MULTIPLIERS[k] as int, n),
                        ),
                );
                lemma_lanes4(
                    |k: int|
                        hi_word(
                            pcg_iter(self.pcg_state(k), self.pcg_inc(k), PCG_MULTIPLIERS[k] as int, n),
                        ),
                );
                lemma_lanes4(|k: int| tinymt_iter128(pack_tm(self.tm0[k], self.tm1[k]), n) as u64);
                lemma_lanes4(
                    |k: int| (tinymt_iter128(pack_tm(self.tm0[k], self.tm1[k]), n) >> 64u128) as u64,
                );
                lemma_lanes4(
                    |k: int|
                        (mwc_jumped_value(self.mwc_state[k], self.mwc_carry[k], k, n, 0) / (
                        MCG_MULTIPLIERS[k] as int)) as u64,
                );
                lemma_lanes4(
                    |k: int|
                        (mwc_jumped_value(self.mwc_state[k], self.mwc_carry[k], k, n, 0) % (
                        MCG_MULTIPLIERS[k] as int)) as u64,
                );
                self.lemma_iterate_pcg(n, i);
                lemma_words_of(s.pcg_state_lo[i], s.pcg_state_hi[i]);
                self.lemma_iterate_tm(n, i);
                lemma_unpack_tm(s.tm0[i], s.tm1[i]);
                self.lemma_iterate_mwc(n, i);
                let a = MCG_MULTIPLIERS[i] as int;
                let v0 = self.mwc_stepped(i);
                lemma_mwc_value_lane(self.mwc_state[i], self.mwc_carry[i], i);
                lemma_small_mod(v0 as nat, mwc_modulus(i) as nat);
                lemma_mwc_value_lane(s.mwc_state[i], s.mwc_carry[i], i);
                lemma_fundamental_div_mod_converse(
                    s.mwc_stepped(i),
                    a,
                    s.mwc_state[i] as int,
                    s.mwc_carry[i] as int,
                );
            }
            self.lemma_iterate_pcg(n, 0);
            lemma_add_mod_noop(self.scalar_weyl as int, n as int, SCALAR_WEYL_MODULUS as int);
            lemma_mod_twice_local(n as int, SCALAR_WEYL_MODULUS as int);
            assert(j.pcg_state_lo =~= s.pcg_state_lo);
            assert(j.pcg_state_hi =~= s.pcg_state_hi);
            assert(j.tm0 =~= s.tm0);
            assert(j.tm1 =~= s.tm1);
            assert(j.mwc_state =~= s.mwc_state);
            assert(j.mwc_carry =~= s.mwc_carry);
            assert(j.scalar_weyl == s.scalar_weyl);
            assert(j == s);
        }
    }

    /// After `advance(n)`, step `k` gives the block that step `n + k` gives without it.
    pub proof fn lemma_advanced_output(self, n: nat, k: nat)
        requires
            self.mwc_valid(),
        ensures
            self.advanced(n).stepped(k).output_block() == self.stepped(n + k).output_block(),
            self.advanced(n).mwc_valid(),
    {
        self.lemma_advanced_is_stepped(n);
        self.lemma_stepped_add(n, k);
        self.lemma_stepped_valid(n);
    }
}


/// Moving a counter by `a % m` is moving it by `a`, modulo `m`.
proof fn lemma_shift_mod(w: int, a: int, m: int)
    requires
        m > 0,
    ensures
        (w + a % m) % m == (w + a) % m,
{
    lemma_add_mod_noop(w, a, m);
    lemma_add_mod_noop(w, a % m, m);
    lemma_mod_twice_local(a, m);
}

impl<R: Reproducibility> TripleMixSimdCore<R> {
    /// Two advances compose on the PCG lanes.
    proof fn lemma_compose_pcg(self, a: nat, b: nat)
        requires
            a > 0,
            b > 0,
        ensures
            self.advanced(a).advanced(b).pcg_state_lo == self.advanced(a + b).pcg_state_lo,
            self.advanced(a).advanced(b).pcg_state_hi == self.advanced(a + b).pcg_state_hi,
            self.advanced(a).advanced(b).pcg_inc_lo == self.pcg_inc_lo,
            self.advanced(a).advanced(b).pcg_inc_hi == self.pcg_inc_hi,
            self.advanced(a + b).pcg_inc_lo == self.pcg_inc_lo,
            self.advanced(a + b).pcg_inc_hi == self.pcg_inc_hi,
    {
        reveal(TripleMixSimdCore::jumped);
        let j1 = self.advanced(a);
        let j2 = j1.advanced(b);
        let j = self.advanced(a + b);
        lemma_lanes4(
            |k: int| lo_word(pcg_iter(self.pcg_state(k), self.pcg_inc(k), PCG_MULTIPLIERS[k] as int, a)),
        );
        lemma_lanes4(
            |k: int| hi_word(pcg_iter(self.pcg_state(k), self.pcg_inc(k), PCG_MULTIPLIERS[k] as int, a)),
        );
        lemma_lanes4(
            |k: int| lo_word(pcg_iter(j1.pcg_state(k), j1.pcg_inc(k), PCG_MULTIPLIERS[k] as int, b)),
        );
        lemma_lanes4(
            |k: int| hi_word(pcg_iter(j1.pcg_state(k), j1.pcg_inc(k), PCG_MULTIPLIERS[k] as int, b)),
        );
        lemma_lanes4(
            |k: int|
                lo_word(pcg_iter(self.pcg_state(k), self.pcg_inc(k), PCG_MULTIPLIERS[k] as int, a + b)),
        );
        lemma_lanes4(
            |k: int|
                hi_word(pcg_iter(self.pcg_state(k), self.pcg_inc(k), PCG_MULTIPLIERS[k] as int, a + b)),
        );
        assert forall|i: int| 0 <= i < 4 implies #[trigger] j2.pcg_state_lo[i] == j.pcg_state_lo[i]
            && j2.pcg_state_hi[i] == j.pcg_state_hi[i] by {
            let x = self.pcg_state(i);
            let inc = self.pcg_inc(i);
            let mult = PCG_MULTIPLIERS[i] as int;
            let p1 = pcg_iter(x, inc, mult, a);
            lemma_mod_bound(pcg_iter(x, inc, mult, (a - 1) as nat) * mult + inc, pow128());
            lemma_u128_of_words(p1);
            assert(j1.pcg_state(i) == p1);
            lemma_pcg_iter_add(x, inc, mult, a, b);
        }
        assert(j2.pcg_state_lo =~= j.pcg_state_lo);
        assert(j2.pcg_state_hi =~= j.pcg_state_hi);
    }

    /// Two advances compose on the TinyMT64 lanes and the xoshiro256 state.
    proof fn lemma_compose_tm(self, a: nat, b: nat)
        requires
            a > 0,
            b > 0,
        ensures
            self.advanced(a).advanced(b).tm0 == self.advanced(a + b).tm0,
            self.advanced(a).advanced(b).tm1 == self.advanced(a + b).tm1,
            self.advanced(a).advanced(b).xoshiro256 == self.advanced(a + b).xoshiro256,
    {
        reveal(TripleMixSimdCore::jumped);
        let j1 = self.advanced(a);
        let j2 = j1.advanced(b);
        let j = self.advanced(a + b);
        lemma_lanes4(|k: int| tinymt_iter128(pack_tm(self.tm0[k], self.tm1[k]), a) as u64);
        lemma_lanes4(|k: int| (tinymt_iter128(pack_tm(self.tm0[k], self.tm1[k]), a) >> 64u128) as u64);
        lemma_lanes4(|k: int| tinymt_iter128(pack_tm(j1.tm0[k], j1.tm1[k]), b) as u64);
        lemma_lanes4(|k: int| (tinymt_iter128(pack_tm(j1.tm0[k], j1.tm1[k]), b) >> 64u128) as u64);
        lemma_lanes4(|k: int| tinymt_iter128(pack_tm(self.tm0[k], self.tm1[k]), a + b) as u64);
        lemma_lanes4(
            |k: int| (tinymt_iter128(pack_tm(self.tm0[k], self.tm1[k]), a + b) >> 64u128) as u64,
        );
        assert forall|i: int| 0 <= i < 4 implies #[trigger] j2.tm0[i] == j.tm0[i] && j2.tm1[i]
            == j.tm1[i] by {
            let v = pack_tm(self.tm0[i], self.tm1[i]);
            lemma_repack_tm(tinymt_iter128(v, a));
            lemma_tinymt_iter_add(v, a, b);
        }
        assert(j2.tm0 =~= j.tm0);
        assert(j2.tm1 =~= j.tm1);
        lemma_xoshiro_iter_add(self.xoshiro256, a, b);
    }

    /// Two advances compose on the multiply-with-carry lanes.
    proof fn lemma_compose_mwc(self, a: nat, b: nat)
        requires
            a > 0,
            b > 0,
        ensures
            self.advanced(a).advanced(b).mwc_state == self.advanced(a + b).mwc_state,
            self.advanced(a).advanced(b).mwc_carry == self.advanced(a + b).mwc_carry,
    {
        reveal(TripleMixSimdCore::jumped);
        let j1 = self.advanced(a);
        let j2 = j1.advanced(b);
        let j = self.advanced(a + b);
        lemma_lanes4(
            |k: int|
                (mwc_jumped_value(self.mwc_state[k], self.mwc_carry[k], k, a, 0) / (
                MCG_MULTIPLIERS[k] as int)) as u64,
        );
        lemma_lanes4(
            |k: int|
                (mwc_jumped_value(self.mwc_state[k], self.mwc_carry[k], k, a, 0) % (
                MCG_MULTIPLIERS[k] as int)) as u64,
        );
        lemma_lanes4(
            |k: int|
                (mwc_jumped_value(j1.mwc_state[k], j1.mwc_carry[k], k, b, 0) / (
                MCG_MULTIPLIERS[k] as int)) as u64,
        );
        lemma_lanes4(
            |k: int|
                (mwc_jumped_value(j1.mwc_state[k], j1.mwc_carry[k], k, b, 0) % (
                MCG_MULTIPLIERS[k] as int)) as u64,
        );
        lemma_lanes4(
            |k: int|
                (mwc_jumped_value(self.mwc_state[k], self.mwc_carry[k], k, a + b, 0) / (
                MCG_MULTIPLIERS[k] as int)) as u64,
        );
        lemma_lanes4(
            |k: int|
                (mwc_jumped_value(self.mwc_state[k], self.mwc_carry[k], k, a + b, 0) % (
                MCG_MULTIPLIERS[k] as int)) as u64,
        );
        assert(two_pow(128 * 0nat) == 1) by {
            assert(128 * 0nat == 0);
        }
        assert(a * two_pow(128 * 0nat) == a && b * two_pow(128 * 0nat) == b && (a + b) * two_pow(
            128 * 0nat,
        ) == a + b);
        assert forall|i: int| 0 <= i < 4 implies #[trigger] j2.mwc_state[i] == j.mwc_state[i]
            && j2.mwc_carry[i] == j.mwc_carry[i] by {
            self.lemma_compose_mwc_lane(a, b, i);
        }
        assert(j2.mwc_state =~= j.mwc_state);
        assert(j2.mwc_carry =~= j.mwc_carry);
    }

    /// One lane of `lemma_compose_mwc`: the jumped value, split into word and carry and
    /// jumped again, is the value jumped by the sum.
    proof fn lemma_compose_mwc_lane(self, a: nat, b: nat, i: int)
        requires
            a > 0,
            b > 0,
            0 <= i < 4,
        ensures
            ({
                let v1 = mwc_jumped_value(self.mwc_state[i], self.mwc_carry[i], i, a, 0);
                let aa = MCG_MULTIPLIERS[i] as int;
                mwc_jumped_value((v1 / aa) as u64, (v1 % aa) as u64, i, b, 0) == mwc_jumped_value(
                    self.mwc_state[i],
                    self.mwc_carry[i],
                    i,
                    a + b,
                    0,
                )
            }),
    {
        let aa = MCG_MULTIPLIERS[i] as int;
        let m = mwc_modulus(i);
        lemma_mwc_value_lane(0, 0, i);
        assert(two_pow(128 * 0nat) == 1) by {
            assert(128 * 0nat == 0);
        }
        assert(a * two_pow(128 * 0nat) == a && b * two_pow(128 * 0nat) == b && (a + b) * two_pow(
            128 * 0nat,
        ) == a + b);
        let v0 = (aa * self.mwc_state[i] + self.mwc_carry[i]) % m;
        let v1 = mwc_jumped_value(self.mwc_state[i], self.mwc_carry[i], i, a, 0);
        assert(m > 0) by (nonlinear_arith)
            requires
                m == aa * pow64() - 1,
                aa > 1,
                pow64() > 1,
        ;
        assert(v1 == (v0 * pow(aa, a)) % m);
        lemma_mod_bound(v0 * pow(aa, a), m);
        let w1 = v1 / aa;
        let c1 = v1 % aa;
        vstd::arithmetic::div_mod::lemma_fundamental_div_mod(v1, aa);
        lemma_mod_bound(v1, aa);
        assert(0 <= w1 < pow64()) by (nonlinear_arith)
            requires
                v1 == aa * w1 + c1,
                0 <= c1 < aa,
                0 <= v1 < m,
                m == aa * pow64() - 1,
                aa > 1,
        ;
        assert((w1 as u64) as int == w1);
        assert((c1 as u64) as int == c1);
        assert((aa * (w1 as u64) + (c1 as u64)) % m == v1) by {
            lemma_small_mod(v1 as nat, m as nat);
        }
        assert(mwc_jumped_value(w1 as u64, c1 as u64, i, b, 0) == (v1 * pow(aa, b)) % m);
        lemma_mul_mod_noop_left(v0 * pow(aa, a), pow(aa, b), m);
        lemma_pow_adds(aa, a, b);
        assert(v0 * pow(aa, a) * pow(aa, b) == v0 * pow(aa, a + b)) by (nonlinear_arith)
            requires
                pow(aa, a + b) == pow(aa, a) * pow(aa, b),
        ;
    }

    /// Advancing by `a` and then by `b` is advancing by `a + b`, from any state.
    proof fn lemma_advances_add(self, a: nat, b: nat)
        ensures
            self.advanced(a).advanced(b) == self.advanced(a + b),
    {
        if a > 0 && b > 0 {
            self.lemma_compose_pcg(a, b);
            self.lemma_compose_tm(a, b);
            self.lemma_compose_mwc(a, b);
            reveal(TripleMixSimdCore::jumped);
            let md = SCALAR_WEYL_MODULUS as int;
            let w = self.scalar_weyl as int;
            lemma_shift_mod(w, a as int, md);
            lemma_mod_bound(w + a, md);
            let w1 = self.advanced(a).scalar_weyl as int;
            assert(w1 == (w + a) % md);
            lemma_shift_mod(w1, b as int, md);
            lemma_add_mod_noop(w + a, b as int, md);
            lemma_add_mod_noop(w1, b as int, md);
            lemma_mod_twice_local(w + a, md);
            lemma_shift_mod(w, (a + b) as int, md);
        }
    }
}


impl<R: Reproducibility> TripleMixSimdCore<R> {
    /// Advancing by `a` and then by `b` is advancing by `a + b`, from any state: the
    /// same state, and so the same output from then on.
    pub proof fn lemma_advance_composes(self, a: nat, b: nat, k: nat)
        ensures
            self.advanced(a).advanced(b) == self.advanced(a + b),
            self.advanced(a).advanced(b).stepped(k).output_block() == self.advanced(a + b).stepped(
                k,
            ).output_block(),
    {
        self.lemma_advances_add(a, b);
    }

    /// No jump of length zero changes the state, and no jump changes the PCG
    /// increments.
    pub proof fn lemma_jumps_keep_increments(self, n: nat, m: nat)
        ensures
            self.advanced(0) == self,
            self.advanced_2_128(0) == self,
            self.advanced_2_256(0) == self,
            self.advanced(n).state_words().0[2] == self.state_words().0[2],
            self.advanced(n).state_words().0[3] == self.state_words().0[3],
            self.advanced_2_128(m).state_words().0[2] == self.state_words().0[2],
            self.advanced_2_128(m).state_words().0[3] == self.state_words().0[3],
            self.advanced_2_256(m).state_words().0[2] == self.state_words().0[2],
            self.advanced_2_256(m).state_words().0[3] == self.state_words().0[3],
    {
        reveal(TripleMixSimdCore::jumped);
        self.lemma_stepped_unfold(0);
        self.advanced(n).lemma_stepped_unfold(0);
        self.advanced_2_128(m).lemma_stepped_unfold(0);
        self.advanced_2_256(m).lemma_stepped_unfold(0);
    }

    /// `advance_2_128(m)` moves the Weyl counter by `m * 2^128` modulo its modulus, and
    /// `advance_2_256(m)` by `m * 2^256`.
    pub proof fn lemma_big_jumps_weyl(self, m: nat)
        requires
            m > 0,
        ensures
            self.advanced_2_128(m).weyl() == ((self.weyl() + two_pow(128) * m) % (
            SCALAR_WEYL_MODULUS as int)) as u64,
            self.advanced_2_256(m).weyl() == ((self.weyl() + two_pow(256) * m) % (
            SCALAR_WEYL_MODULUS as int)) as u64,
    {
        reveal(TripleMixSimdCore::jumped);
        lemma_weyl_jump_constants();
        self.lemma_stepped_unfold(0);
        self.advanced_2_128(m).lemma_stepped_unfold(0);
        self.advanced_2_256(m).lemma_stepped_unfold(0);
        let md = SCALAR_WEYL_MODULUS as int;
        let w = self.scalar_weyl as int;
        lemma_weyl_shift(w, 3481, two_pow(128) as int, m as int, md);
        lemma_weyl_shift(w, 12117361, two_pow(256) as int, m as int, md);
    }
}

/// With `c == p % md`, adding `(c * m) % md + md` moves a counter as adding `p * m` does,
/// modulo `md`.
proof fn lemma_weyl_shift(w: int, c: int, p: int, m: int, md: int)
    requires
        md > 0,
        c == p % md,
        m >= 0,
    ensures
        (w + ((c * m) % md + md)) % md == (w + p * m) % md,
{
    lemma_mul_mod_noop_left(p, m, md);
    lemma_add_mod_noop(w, (c * m) % md + md, md);
    lemma_add_mod_noop((c * m) % md, md, md);
    vstd::arithmetic::div_mod::lemma_mod_self_0(md);
    lemma_mod_twice_local(c * m, md);
    lemma_add_mod_noop(w, p * m, md);
    lemma_mod_twice_local((c * m) % md, md);
}


/// `m` full cycles of `2^128` PCG steps bring a lane's state back.
proof fn lemma_pcg_cycles(x: int, inc: int, mult: int, m: nat)
    requires
        0 <= x < pow128(),
        0 <= inc < pow128(),
        0 < mult < pow128(),
        mult % 4 == 1,
    ensures
        pcg_iter(x, inc, mult, two_pow(128) * m) == x,
    decreases m,
{
    if m == 0 {
        assert(two_pow(128) * 0 == 0);
    } else {
        let m1 = (m - 1) as nat;
        lemma_pcg_cycles(x, inc, mult, m1);
        lemma_pcg_iter_add(x, inc, mult, two_pow(128) * m1, two_pow(128));
        assert(two_pow(128) * m1 + two_pow(128) == two_pow(128) * m) by (nonlinear_arith)
            requires
                m1 + 1 == m,
        ;
        lemma_pcg_full_cycle(x, inc, mult);
    }
}

impl<R: Reproducibility> TripleMixSimdCore<R> {
    /// Two jumps with the same PCG, multiply-with-carry and xoshiro256 distances give
    /// the same state words outside the TinyMT64 ones.
    proof fn lemma_jumped_agree(
        self,
        p1: nat,
        p2: nat,
        t1: nat,
        t2: nat,
        ms1: nat,
        mk1: nat,
        ms2: nat,
        mk2: nat,
        x: nat,
        w1: u64,
        w2: u64,
    )
        requires
            forall|i: int|
                0 <= i < 4 ==> #[trigger] pcg_iter(
                    self.pcg_state(i),
                    self.pcg_inc(i),
                    PCG_MULTIPLIERS[i] as int,
                    p1,
                ) == pcg_iter(self.pcg_state(i), self.pcg_inc(i), PCG_MULTIPLIERS[i] as int, p2),
            ms1 * two_pow(128 * mk1) == ms2 * two_pow(128 * mk2),
        ensures
            forall|w: int|
                0 <= w < 9 && w != 4 && w != 5 ==> #[trigger] self.jumped(
                    p1,
                    t1,
                    ms1,
                    mk1,
                    x,
                    w1,
                ).state_words().0[w] == self.jumped(p2, t2, ms2, mk2, x, w2).state_words().0[w],
    {
        reveal(TripleMixSimdCore::jumped);
        let a = self.jumped(p1, t1, ms1, mk1, x, w1);
        let b = self.jumped(p2, t2, ms2, mk2, x, w2);
        a.lemma_stepped_unfold(0);
        b.lemma_stepped_unfold(0);
        assert forall|i: int| 0 <= i < 4 implies #[trigger] a.pcg_state_lo[i] == b.pcg_state_lo[i]
            && a.pcg_state_hi[i] == b.pcg_state_hi[i] by {
            lemma_lanes4(
                |k: int|
                    lo_word(pcg_iter(self.pcg_state(k), self.pcg_inc(k), PCG_MULTIPLIERS[k] as int, p1)),
            );
            lemma_lanes4(
                |k: int|
                    hi_word(pcg_iter(self.pcg_state(k), self.pcg_inc(k), PCG_MULTIPLIERS[k] as int, p1)),
            );
            lemma_lanes4(
                |k: int|
                    lo_word(pcg_iter(self.pcg_state(k), self.pcg_inc(k), PCG_MULTIPLIERS[k] as int, p2)),
            );
            lemma_lanes4(
                |k: int|
                    hi_word(pcg_iter(self.pcg_state(k), self.pcg_inc(k), PCG_MULTIPLIERS[k] as int, p2)),
            );
        }
        assert(a.pcg_state_lo =~= b.pcg_state_lo);
        assert(a.pcg_state_hi =~= b.pcg_state_hi);
        assert(a.mwc_state =~= b.mwc_state);
        assert(a.mwc_carry =~= b.mwc_carry);
    }

    /// A jump sets the Weyl counter to the value it is given.
    proof fn lemma_jumped_weyl(self, pcg: nat, tm: nat, ms: nat, mk: nat, xo: nat, weyl: u64)
        ensures
            self.jumped(pcg, tm, ms, mk, xo, weyl).weyl() == weyl,
    {
        reveal(TripleMixSimdCore::jumped);
        self.jumped(pcg, tm, ms, mk, xo, weyl).lemma_stepped_unfold(0);
    }

    /// A jump by no PCG steps leaves the PCG lanes as they are.
    proof fn lemma_jumped_pcg_still(self, tm: nat, ms: nat, mk: nat, xo: nat, weyl: u64)
        ensures
            self.jumped(0, tm, ms, mk, xo, weyl).state_words().0[0] == self.state_words().0[0],
            self.jumped(0, tm, ms, mk, xo, weyl).state_words().0[1] == self.state_words().0[1],
    {
        reveal(TripleMixSimdCore::jumped);
        let j = self.jumped(0, tm, ms, mk, xo, weyl);
        self.lemma_stepped_unfold(0);
        j.lemma_stepped_unfold(0);
        assert forall|i: int| 0 <= i < 4 implies #[trigger] j.pcg_state_lo[i] == self.pcg_state_lo[i]
            && j.pcg_state_hi[i] == self.pcg_state_hi[i] by {
            lemma_words_of(self.pcg_state_lo[i], self.pcg_state_hi[i]);
            lemma_lanes4(
                |k: int|
                    lo_word(pcg_iter(self.pcg_state(k), self.pcg_inc(k), PCG_MULTIPLIERS[k] as int, 0)),
            );
            lemma_lanes4(
                |k: int|
                    hi_word(pcg_iter(self.pcg_state(k), self.pcg_inc(k), PCG_MULTIPLIERS[k] as int, 0)),
            );
        }
        assert(j.pcg_state_lo =~= self.pcg_state_lo);
        assert(j.pcg_state_hi =~= self.pcg_state_hi);
    }

    /// `m` full cycles of `2^128` steps leave every PCG lane where it was.
    proof fn lemma_pcg_lanes_cycle(self, m: nat)
        ensures
            forall|i: int|
                0 <= i < 4 ==> #[trigger] pcg_iter(
                    self.pcg_state(i),
                    self.pcg_inc(i),
                    PCG_MULTIPLIERS[i] as int,
                    two_pow(128) * m,
                ) == pcg_iter(self.pcg_state(i), self.pcg_inc(i), PCG_MULTIPLIERS[i] as int, 0),
    {
        lemma_two_pow_64_128();
        assert forall|i: int| 0 <= i < 4 implies #[trigger] pcg_iter(
            self.pcg_state(i),
            self.pcg_inc(i),
            PCG_MULTIPLIERS[i] as int,
            two_pow(128) * m,
        ) == pcg_iter(self.pcg_state(i), self.pcg_inc(i), PCG_MULTIPLIERS[i] as int, 0) by {
            lemma_words_of(self.pcg_state_lo[i], self.pcg_state_hi[i]);
            lemma_words_of(self.pcg_inc_lo[i], self.pcg_inc_hi[i]);
            assert(PCG_MULTIPLIERS[i] % 4 == 1) by {
                if i == 0 {
                } else if i == 1 {
                } else if i == 2 {
                } else {
                }
            }
            lemma_pcg_cycles(self.pcg_state(i), self.pcg_inc(i), PCG_MULTIPLIERS[i] as int, m);
        }
    }

    /// A PCG lane with an odd increment comes back to its state after `2^128` steps and
    /// not after `2^127`, so its period is exactly `2^128`: the lane's `2^128` states
    /// lie on one cycle.
    pub proof fn lemma_pcg_lane_period(self, i: int)
        requires
            0 <= i < 4,
            self.state_words().0[2][i] % 2 == 1,
        ensures
            self.stepped(two_pow(128)).state_words().0[0][i] == self.state_words().0[0][i],
            self.stepped(two_pow(128)).state_words().0[1][i] == self.state_words().0[1][i],
            !(self.stepped(two_pow(127)).state_words().0[0][i] == self.state_words().0[0][i]
                && self.stepped(two_pow(127)).state_words().0[1][i] == self.state_words().0[1][i]),
    {
        lemma_two_pow_64_128();
        self.lemma_stepped_unfold(0);
        self.lemma_stepped_unfold(two_pow(128));
        self.lemma_stepped_unfold(two_pow(127));
        self.stepped(two_pow(128)).lemma_stepped_unfold(0);
        self.stepped(two_pow(127)).lemma_stepped_unfold(0);
        self.lemma_iterate_pcg(two_pow(128), i);
        self.lemma_iterate_pcg(two_pow(127), i);
        let mult = PCG_MULTIPLIERS[i] as int;
        assert(mult % 4 == 1) by {
            if i == 0 {
            } else if i == 1 {
            } else if i == 2 {
            } else {
            }
        }
        lemma_words_of(self.pcg_state_lo[i], self.pcg_state_hi[i]);
        lemma_words_of(self.pcg_inc_lo[i], self.pcg_inc_hi[i]);
        let lo = self.pcg_inc_lo[i];
        let hi = self.pcg_inc_hi[i];
        assert(hi * pow64() == 2 * (hi * 0x8000_0000_0000_0000)) by (nonlinear_arith);
        vstd::arithmetic::div_mod::lemma_mod_multiples_vanish(hi * 0x8000_0000_0000_0000, lo as int, 2);
        assert(self.pcg_inc(i) % 2 == 1);
        let x = self.pcg_state(i);
        lemma_pcg_full_cycle(x, self.pcg_inc(i), mult);
        lemma_pcg_half_cycle(x, self.pcg_inc(i), mult);
        let s1 = self.iterate(two_pow(128));
        let s2 = self.iterate(two_pow(127));
        lemma_words_of(s1.pcg_state_lo[i], s1.pcg_state_hi[i]);
        lemma_words_of(s2.pcg_state_lo[i], s2.pcg_state_hi[i]);
    }

    /// `advance_2_128(m)` gives the PCG and multiply-with-carry lanes, the xoshiro256
    /// state and the Weyl counter that advancing by `m * 2^128` steps gives (state
    /// words 0 to 3 and 6 to 8, and the counter); its PCG lanes are where they started.
    pub proof fn lemma_jump_2_128_matches_advance(self, m: nat)
        requires
            m > 0,
        ensures
            forall|w: int|
                0 <= w < 9 && w != 4 && w != 5 ==> #[trigger] self.advanced_2_128(m).state_words().0[w]
                    == self.advanced(two_pow(128) * m).state_words().0[w],
            self.advanced_2_128(m).weyl() == self.advanced(two_pow(128) * m).weyl(),
            self.advanced_2_128(m).state_words().0[0] == self.state_words().0[0],
            self.advanced_2_128(m).state_words().0[1] == self.state_words().0[1],
    {
        lemma_two_pow_64_128();
        lemma_two_pow_pos(128);
        let n = two_pow(128) * m;
        assert(n > 0 && m * two_pow(128) == n && n * two_pow(0) == n) by (nonlinear_arith)
            requires
                two_pow(128) > 0,
                two_pow(0) == 1,
                m > 0,
                n == two_pow(128) * m,
        ;
        assert(128 * 0nat == 0 && 128 * 1nat == 128);
        self.lemma_pcg_lanes_cycle(m);
        let wa = weyl_after(
            self.scalar_weyl,
            (3481 * m) as int % (SCALAR_WEYL_MODULUS as int) + SCALAR_WEYL_MODULUS as int,
        );
        let wb = weyl_after(self.scalar_weyl, n as int % (SCALAR_WEYL_MODULUS as int));
        self.lemma_jumped_agree(0, n, 2 * m, n, m, 1, n, 0, n, wa, wb);
        self.lemma_jumped_pcg_still(2 * m, m, 1, n, wa);
        self.lemma_jumped_weyl(0, 2 * m, m, 1, n, wa);
        self.lemma_jumped_weyl(n, n, n, 0, n, wb);
        self.lemma_big_jumps_weyl(m);
        self.lemma_stepped_unfold(0);
        let md = SCALAR_WEYL_MODULUS as int;
        lemma_add_mod_noop(self.scalar_weyl as int, n as int, md);
        lemma_mod_twice_local(n as int, md);
    }

    /// `advance_2_256(m)` gives the PCG and multiply-with-carry lanes, the xoshiro256
    /// state and the Weyl counter that advancing by `m * 2^256` steps gives (state
    /// words 0 to 3 and 6 to 8, and the counter).
    pub proof fn lemma_jump_2_256_matches_advance(self, m: nat)
        requires
            m > 0,
        ensures
            forall|w: int|
                0 <= w < 9 && w != 4 && w != 5 ==> #[trigger] self.advanced_2_256(m).state_words().0[w]
                    == self.advanced(two_pow(256) * m).state_words().0[w],
            self.advanced_2_256(m).weyl() == self.advanced(two_pow(256) * m).weyl(),
    {
        lemma_two_pow_64_128();
        lemma_two_pow_add(128, 128);
        lemma_two_pow_pos(128);
        let n = two_pow(256) * m;
        assert(n > 0 && m * two_pow(256) == n && n * two_pow(0) == n && n == two_pow(128) * (
        two_pow(128) * m)) by (nonlinear_arith)
            requires
                two_pow(128) > 0,
                two_pow(256) == two_pow(128) * two_pow(128),
                two_pow(0) == 1,
                m > 0,
                n == two_pow(256) * m,
        ;
        assert(128 * 0nat == 0 && 128 * 2nat == 256);
        self.lemma_pcg_lanes_cycle(two_pow(128) * m);
        let wa = weyl_after(
            self.scalar_weyl,
            (12117361 * m) as int % (SCALAR_WEYL_MODULUS as int) + SCALAR_WEYL_MODULUS as int,
        );
        let wb = weyl_after(self.scalar_weyl, n as int % (SCALAR_WEYL_MODULUS as int));
        self.lemma_jumped_agree(0, n, 4 * m, n, m, 2, n, 0, n, wa, wb);
        self.lemma_jumped_weyl(0, 4 * m, m, 2, n, wa);
        self.lemma_jumped_weyl(n, n, n, 0, n, wb);
        self.lemma_big_jumps_weyl(m);
        self.lemma_stepped_unfold(0);
        let md = SCALAR_WEYL_MODULUS as int;
        lemma_add_mod_noop(self.scalar_weyl as int, n as int, md);
        lemma_mod_twice_local(n as int, md);
    }
}


/// The TinyMT64 period: every packed lane state reached after at least one step comes
/// back after another `2^127 - 1` steps.
pub open spec fn tinymt_period_law() -> bool {
    forall|v: u128, n: nat|
        n >= 1 ==> #[trigger] tinymt_iter128(v, n) == tinymt_iter128(v, (n + two_pow(127) - 1) as nat)
}

/// The xoshiro256 period: every state reached after at least one step comes back after
/// another `2^256 - 1` steps.
pub open spec fn xoshiro_period_law() -> bool {
    forall|v: [u64; 4], n: nat|
        n >= 1 ==> #[trigger] xoshiro_iter(v, n) == xoshiro_iter(v, (n + two_pow(256) - 1) as nat)
}

/// Whether two TinyMT64 matrices are equal, column by column.
fn same_mat(a: &[u128; 128], b: &[u128; 128]) -> (r: bool)
    ensures
        r == (a@ == b@),
{
    let mut i: usize = 0;
    while i < 128
        invariant
            i <= 128,
            forall|j: int| 0 <= j < i ==> a[j] == b[j],
        decreases 128 - i,
    {
        if a[i] != b[i] {
            return false;
        }
        i += 1;
    }
    assert(a@ =~= b@);
    true
}

/// Whether two xoshiro256 matrices are equal, column by column.
fn same_mat_256(a: &[[u64; 4]; 256], b: &[[u64; 4]; 256]) -> (r: bool)
    ensures
        r == (a@ == b@),
{
    let mut i: usize = 0;
    while i < 256
        invariant
            i <= 256,
            forall|j: int| 0 <= j < i ==> a[j] == b[j],
        decreases 256 - i,
    {
        let x = a[i];
        let y = b[i];
        if x[0] != y[0] || x[1] != y[1] || x[2] != y[2] || x[3] != y[3] {
            proof {
                assert(a@[i as int] != b@[i as int]);
            }
            return false;
        }
        assert(x =~= y);
        i += 1;
    }
    assert(a@ =~= b@);
    true
}

/// Checks the TinyMT64 period by raising the step matrix to the power `2^127` and
/// comparing it with the step matrix; when they are equal, `2^127` steps act as one
/// step on every state, and the period law holds.
pub fn check_tinymt_period() -> (r: bool)
    ensures
        r ==> tinymt_period_law(),
{
    let t = compute_tinymt_mat();
    let p = pow_mat_2_exp(t, 127);
    let same = same_mat(&p, &t);
    proof {
        if same {
            assert forall|v: u128, n: nat| n >= 1 implies #[trigger] tinymt_iter128(v, n)
                == tinymt_iter128(v, (n + two_pow(127) - 1) as nat) by {
                let w = tinymt_iter128(v, (n - 1) as nat);
                lemma_tinymt_mat_iter(t@, w, two_pow(127));
                lemma_tinymt_mat_iter(t@, w, 1);
                assert(iter128(t@, w, 1) == apply128(t@, iter128(t@, w, 0)));
                assert(apply128(p@, w) == apply128(t@, w));
                lemma_tinymt_iter_add(v, (n - 1) as nat, two_pow(127));
                lemma_tinymt_iter_add(v, (n - 1) as nat, 1);
                lemma_two_pow_pos(127);
            }
        }
    }
    same
}

/// Checks the xoshiro256 period by raising the step matrix to the power `2^256` and
/// comparing it with the step matrix; when they are equal, the period law holds.
pub fn check_xoshiro_period() -> (r: bool)
    ensures
        r ==> xoshiro_period_law(),
{
    let x = compute_xoshiro256_mat();
    let p = pow_mat_256_2_exp(x, 256);
    let same = same_mat_256(&p, &x);
    proof {
        if same {
            assert forall|v: [u64; 4], n: nat| n >= 1 implies #[trigger] xoshiro_iter(v, n)
                == xoshiro_iter(v, (n + two_pow(256) - 1) as nat) by {
                let w = xoshiro_iter(v, (n - 1) as nat);
                lemma_xoshiro_mat_iter(x@, w, two_pow(256));
                lemma_xoshiro_mat_iter(x@, w, 1);
                assert(iter256(x@, w, 1) == apply256(x@, iter256(x@, w, 0)));
                assert(apply256(p@, w) == apply256(x@, w));
                lemma_xoshiro_iter_add(v, (n - 1) as nat, two_pow(256));
                lemma_xoshiro_iter_add(v, (n - 1) as nat, 1);
                lemma_two_pow_pos(256);
            }
        }
    }
    same
}

/// Under the TinyMT64 period law, `k` more periods after at least one step change
/// nothing.
pub proof fn lemma_tinymt_cycles(v: u128, n: nat, k: nat)
    requires
        tinymt_period_law(),
        n >= 1,
    ensures
        tinymt_iter128(v, n + k * (two_pow(127) - 1) as nat) == tinymt_iter128(v, n),
    decreases k,
{
    lemma_two_pow_pos(127);
    let per = (two_pow(127) - 1) as nat;
    if k == 0 {
        assert(n + 0 * per == n);
    } else {
        lemma_tinymt_cycles(v, n, (k - 1) as nat);
        let m = n + ((k - 1) as nat) * per;
        assert(m >= 1) by (nonlinear_arith)
            requires
                n >= 1,
                m == n + ((k - 1) as nat) * per,
        ;
        assert(tinymt_iter128(v, m) == tinymt_iter128(v, (m + two_pow(127) - 1) as nat));
        assert((m + two_pow(127) - 1) as nat == n + k * per) by (nonlinear_arith)
            requires
                m == n + ((k - 1) as nat) * per,
                per == two_pow(127) - 1,
                k >= 1,
                two_pow(127) >= 1,
        ;
    }
}


impl<R: Reproducibility> TripleMixSimdCore<R> {
    /// Two jumps with TinyMT64 distances that agree on every lane give the same
    /// TinyMT64 words.
    proof fn lemma_jumped_tm_agree(
        self,
        p1: nat,
        t1: nat,
        ms1: nat,
        mk1: nat,
        x1: nat,
        w1: u64,
        p2: nat,
        t2: nat,
        ms2: nat,
        mk2: nat,
        x2: nat,
        w2: u64,
    )
        requires
            forall|i: int|
                0 <= i < 4 ==> #[trigger] tinymt_iter128(pack_tm(self.tm0[i], self.tm1[i]), t1)
                    == tinymt_iter128(pack_tm(self.tm0[i], self.tm1[i]), t2),
        ensures
            self.jumped(p1, t1, ms1, mk1, x1, w1).state_words().0[4] == self.jumped(
                p2,
                t2,
                ms2,
                mk2,
                x2,
                w2,
            ).state_words().0[4],
            self.jumped(p1, t1, ms1, mk1, x1, w1).state_words().0[5] == self.jumped(
                p2,
                t2,
                ms2,
                mk2,
                x2,
                w2,
            ).state_words().0[5],
    {
        reveal(TripleMixSimdCore::jumped);
        let a = self.jumped(p1, t1, ms1, mk1, x1, w1);
        let b = self.jumped(p2, t2, ms2, mk2, x2, w2);
        a.lemma_stepped_unfold(0);
        b.lemma_stepped_unfold(0);
        assert forall|i: int| 0 <= i < 4 implies #[trigger] a.tm0[i] == b.tm0[i] && a.tm1[i]
            == b.tm1[i] by {
            lemma_lanes4(|k: int| tinymt_iter128(pack_tm(self.tm0[k], self.tm1[k]), t1) as u64);
            lemma_lanes4(
                |k: int| (tinymt_iter128(pack_tm(self.tm0[k], self.tm1[k]), t1) >> 64u128) as u64,
            );
            lemma_lanes4(|k: int| tinymt_iter128(pack_tm(self.tm0[k], self.tm1[k]), t2) as u64);
            lemma_lanes4(
                |k: int| (tinymt_iter128(pack_tm(self.tm0[k], self.tm1[k]), t2) >> 64u128) as u64,
            );
        }
        assert(a.tm0 =~= b.tm0);
        assert(a.tm1 =~= b.tm1);
    }

    /// Under the TinyMT64 period law (which `check_tinymt_period` confirms),
    /// `advance_2_128(m)` is exactly advancing by `m * 2^128` steps.
    pub proof fn lemma_jump_2_128_is_advance(self, m: nat)
        requires
            m > 0,
            tinymt_period_law(),
        ensures
            self.advanced_2_128(m) == self.advanced(two_pow(128) * m),
    {
        lemma_two_pow_pos(127);
        assert(two_pow(128) == 2 * two_pow(127));
        let n = two_pow(128) * m;
        let per = (two_pow(127) - 1) as nat;
        assert(2 * m + (2 * m) * per == n) by (nonlinear_arith)
            requires
                per == two_pow(127) - 1,
                two_pow(128) == 2 * two_pow(127),
                n == two_pow(128) * m,
        ;
        assert(n > 0) by (nonlinear_arith)
            requires
                n == two_pow(128) * m,
                two_pow(128) == 2 * two_pow(127),
                two_pow(127) > 0,
                m > 0,
        ;
        assert forall|i: int| 0 <= i < 4 implies #[trigger] tinymt_iter128(
            pack_tm(self.tm0[i], self.tm1[i]),
            2 * m,
        ) == tinymt_iter128(pack_tm(self.tm0[i], self.tm1[i]), n) by {
            lemma_tinymt_cycles(pack_tm(self.tm0[i], self.tm1[i]), 2 * m, 2 * m);
        }
        let wa = weyl_after(
            self.scalar_weyl,
            (3481 * m) as int % (SCALAR_WEYL_MODULUS as int) + SCALAR_WEYL_MODULUS as int,
        );
        let wb = weyl_after(self.scalar_weyl, n as int % (SCALAR_WEYL_MODULUS as int));
        assert(m * two_pow(128) == n) by (nonlinear_arith)
            requires
                n == two_pow(128) * m,
        ;
        self.lemma_jumped_tm_agree(0, 2 * m, m, 1, n, wa, n, n, n, 0, n, wb);
        self.lemma_jump_2_128_matches_advance(m);
        let a = self.advanced_2_128(m);
        let b = self.advanced(n);
        a.lemma_stepped_unfold(0);
        b.lemma_stepped_unfold(0);
        assert(a.state_words().0[0] == b.state_words().0[0]);
        assert(a.state_words().0[1] == b.state_words().0[1]);
        assert(a.state_words().0[2] == b.state_words().0[2]);
        assert(a.state_words().0[3] == b.state_words().0[3]);
        assert(a.state_words().0[6] == b.state_words().0[6]);
        assert(a.state_words().0[7] == b.state_words().0[7]);
        assert(a.state_words().0[8] == b.state_words().0[8]);
        assert(a.state_words().0 =~= b.state_words().0);
        a.lemma_state_words_determine(b);
    }

    /// Under the TinyMT64 period law (which `check_tinymt_period` confirms),
    /// `advance_2_256(m)` is exactly advancing by `m * 2^256` steps.
    pub proof fn lemma_jump_2_256_is_advance(self, m: nat)
        requires
            m > 0,
            tinymt_period_law(),
        ensures
            self.advanced_2_256(m) == self.advanced(two_pow(256) * m),
    {
        lemma_two_pow_pos(127);
        lemma_two_pow_add(128, 128);
        assert(two_pow(128) == 2 * two_pow(127));
        let n = two_pow(256) * m;
        let per = (two_pow(127) - 1) as nat;
        let k = 4 * m * (two_pow(127) + 1);
        assert(4 * m + k * per == n) by (nonlinear_arith)
            requires
                per == two_pow(127) - 1,
                two_pow(128) == 2 * two_pow(127),
                two_pow(256) == two_pow(128) * two_pow(128),
                k == 4 * m * (two_pow(127) + 1),
                n == two_pow(256) * m,
        ;
        assert forall|i: int| 0 <= i < 4 implies #[trigger] tinymt_iter128(
            pack_tm(self.tm0[i], self.tm1[i]),
            4 * m,
        ) == tinymt_iter128(pack_tm(self.tm0[i], self.tm1[i]), n) by {
            lemma_tinymt_cycles(pack_tm(self.tm0[i], self.tm1[i]), 4 * m, k);
        }
        let wa = weyl_after(
            self.scalar_weyl,
            (12117361 * m) as int % (SCALAR_WEYL_MODULUS as int) + SCALAR_WEYL_MODULUS as int,
        );
        let wb = weyl_after(self.scalar_weyl, n as int % (SCALAR_WEYL_MODULUS as int));
        assert(m * two_pow(256) == n) by (nonlinear_arith)
            requires
                n == two_pow(256) * m,
        ;
        self.lemma_jumped_tm_agree(0, 4 * m, m, 2, n, wa, n, n, n, 0, n, wb);
        self.lemma_jump_2_256_matches_advance(m);
        let a = self.advanced_2_256(m);
        let b = self.advanced(n);
        a.lemma_stepped_unfold(0);
        b.lemma_stepped_unfold(0);
        assert(a.state_words().0[0] == b.state_words().0[0]);
        assert(a.state_words().0[1] == b.state_words().0[1]);
        assert(a.state_words().0[2] == b.state_words().0[2]);
        assert(a.state_words().0[3] == b.state_words().0[3]);
        assert(a.state_words().0[6] == b.state_words().0[6]);
        assert(a.state_words().0[7] == b.state_words().0[7]);
        assert(a.state_words().0[8] == b.state_words().0[8]);
        assert(a.state_words().0 =~= b.state_words().0);
        a.lemma_state_words_determine(b);
    }
}


impl<R: Reproducibility> TripleMixSimdCore<R> {
    /// `mwc_valid` in terms of the state words: for every lane, the multiplier times
    /// the multiply-with-carry word plus the carry is below the multiplier times 2^64
    /// minus one.
    pub proof fn lemma_mwc_valid_words(self)
        ensures
            self.mwc_valid() <==> forall|i: int|
                0 <= i < 4 ==> MCG_MULTIPLIERS[i] * #[trigger] self.state_words().0[6][i]
                    + self.state_words().0[7][i] < MCG_MULTIPLIERS[i] * pow64() - 1,
    {
        self.lemma_stepped_unfold(0);
        let w = self.state_words().0;
        if self.mwc_valid() {
            assert forall|i: int| 0 <= i < 4 implies MCG_MULTIPLIERS[i] * #[trigger] w[6][i]
                + w[7][i] < MCG_MULTIPLIERS[i] * pow64() - 1 by {
                lemma_mwc_value_lane(self.mwc_state[i], self.mwc_carry[i], i);
                assert(self.mwc_stepped(i) < mwc_modulus(i));
            }
        }
        if forall|i: int|
            0 <= i < 4 ==> MCG_MULTIPLIERS[i] * #[trigger] w[6][i] + w[7][i] < MCG_MULTIPLIERS[i]
                * pow64() - 1 {
            assert forall|i: int| 0 <= i < 4 implies #[trigger] self.mwc_stepped(i) < mwc_modulus(
                i,
            ) by {
                lemma_mwc_value_lane(self.mwc_state[i], self.mwc_carry[i], i);
                assert(MCG_MULTIPLIERS[i] * w[6][i] + w[7][i] < MCG_MULTIPLIERS[i] * pow64() - 1);
            }
        }
    }
}


/// The Weyl step is one to one on counters below the modulus.
proof fn lemma_weyl_next_injective(w1: u64, w2: u64)
    requires
        w1 < SCALAR_WEYL_MODULUS,
        w2 < SCALAR_WEYL_MODULUS,
        weyl_next(w1) == weyl_next(w2),
    ensures
        w1 == w2,
{
    let md = SCALAR_WEYL_MODULUS as int;
    lemma_mod_bound(w1 + 1, md);
    lemma_mod_bound(w2 + 1, md);
    if w1 + 1 == md {
        vstd::arithmetic::div_mod::lemma_mod_self_0(md);
    } else {
        lemma_small_mod((w1 + 1) as nat, md as nat);
    }
    if w2 + 1 == md {
        vstd::arithmetic::div_mod::lemma_mod_self_0(md);
    } else {
        lemma_small_mod((w2 + 1) as nat, md as nat);
    }
}

/// The xoshiro256 step on words: a nonzero state steps to a nonzero state, and two
/// different states step to different states.
proof fn lemma_xoshiro_next_injective(
    s0: u64,
    s1: u64,
    s2: u64,
    s3: u64,
    u0: u64,
    u1: u64,
    u2: u64,
    u3: u64,
)
    by (bit_vector)
    ensures
        !(s0 == 0 && s1 == 0 && s2 == 0 && s3 == 0) ==> !(s0 ^ (s3 ^ s1) == 0 && s1 ^ (s2 ^ s0)
            == 0 && (s2 ^ s0) ^ (s1 << 17u64) == 0 && ((s3 ^ s1) << 45u64) | ((s3 ^ s1) >> 19u64)
            == 0),
        !(s0 == u0 && s1 == u1 && s2 == u2 && s3 == u3) ==> !(s0 ^ (s3 ^ s1) == u0 ^ (u3 ^ u1)
            && s1 ^ (s2 ^ s0) == u1 ^ (u2 ^ u0) && (s2 ^ s0) ^ (s1 << 17u64) == (u2 ^ u0) ^ (u1
            << 17u64) && ((s3 ^ s1) << 45u64) | ((s3 ^ s1) >> 19u64) == ((u3 ^ u1) << 45u64) | ((u3
            ^ u1) >> 19u64)),
{
}

/// The TinyMT64 step on a lane's two words: a lane whose 127 state bits (the first word
/// without its top bit, and the second word) are not all zero steps to one whose state
/// bits are not all zero, and lanes with different state bits step to lanes with
/// different state bits.
#[verifier::rlimit(100)]
proof fn lemma_tinymt_next_injective(t0: u64, t1: u64, u0: u64, u1: u64)
    by (bit_vector)
    ensures
        !(t0 & 0x7fff_ffff_ffff_ffffu64 == 0 && t1 == 0) ==> ({
            let x0 = (t0 & 0x7fff_ffff_ffff_ffffu64) ^ t1;
            let x1 = x0 ^ (x0 << 12u64);
            let x2 = x1 ^ (x1 >> 32u64);
            let x3 = x2 ^ (x2 << 32u64);
            let x = x3 ^ (x3 << 11u64);
            let m = if x & 1 == 0 { 0u64 } else { 0xffff_ffff_ffff_ffffu64 };
            let n0 = t1 ^ (m & 0xdaa51b54u64);
            let n1 = x ^ (m & 0xfed47fb5_0000_0000u64);
            !(n0 & 0x7fff_ffff_ffff_ffffu64 == 0 && n1 == 0)
        }),
        !(t0 & 0x7fff_ffff_ffff_ffffu64 == u0 & 0x7fff_ffff_ffff_ffffu64 && t1 == u1) ==> ({
            let x0 = (t0 & 0x7fff_ffff_ffff_ffffu64) ^ t1;
            let x1 = x0 ^ (x0 << 12u64);
            let x2 = x1 ^ (x1 >> 32u64);
            let x3 = x2 ^ (x2 << 32u64);
            let x = x3 ^ (x3 << 11u64);
            let m = if x & 1 == 0 { 0u64 } else { 0xffff_ffff_ffff_ffffu64 };
            let n0 = t1 ^ (m & 0xdaa51b54u64);
            let n1 = x ^ (m & 0xfed47fb5_0000_0000u64);
            let y0 = (u0 & 0x7fff_ffff_ffff_ffffu64) ^ u1;
            let y1 = y0 ^ (y0 << 12u64);
            let y2 = y1 ^ (y1 >> 32u64);
            let y3 = y2 ^ (y2 << 32u64);
            let y = y3 ^ (y3 << 11u64);
            let my = if y & 1 == 0 { 0u64 } else { 0xffff_ffff_ffff_ffffu64 };
            let p0 = u1 ^ (my & 0xdaa51b54u64);
            let p1 = y ^ (my & 0xfed47fb5_0000_0000u64);
            !(n0 & 0x7fff_ffff_ffff_ffffu64 == p0 & 0x7fff_ffff_ffff_ffffu64 && n1 == p1)
        }),
{
}

/// A multiply-with-carry value strictly between zero and the modulus `m = a * 2^64 - 1`
/// steps to one strictly between zero and `m`: `a` is invertible modulo `m`.
proof fn lemma_mwc_value_nonzero(a: int, t: int)
    requires
        1 < a < pow64(),
        0 < t < a * pow64() - 1,
    ensures
        (a * t) % (a * pow64() - 1) != 0,
{
    let b = pow64();
    let m = a * b - 1;
    vstd::arithmetic::div_mod::lemma_fundamental_div_mod(a * t, m);
    let q = (a * t) / m;
    if (a * t) % m == 0 {
        assert(a * t == m * q);
        assert(t == m * (q * b - t)) by (nonlinear_arith)
            requires
                a * t == m * q,
                m == a * b - 1,
        ;
        let k = q * b - t;
        assert(false) by (nonlinear_arith)
            requires
                t == m * k,
                0 < t < m,
        ;
    }
}

impl<R: Reproducibility> TripleMixSimdCore<R> {
    /// The states on the sub-generators' long cycles, in terms of the state words: in
    /// every lane the multiply-with-carry value `a * w + c` lies strictly between zero and
    /// `a * 2^64 - 1` and the carry is below `a`, the TinyMT64 lane's 127 state bits
    /// (the first word without its top bit, and the second word) are not all zero, and
    /// the xoshiro256 state is not all zero, and the Weyl counter is below its modulus.
    pub open spec fn on_cycle(self) -> bool {
        let w = self.state_words().0;
        &&& self.state_words().1 < SCALAR_WEYL_MODULUS
        &&& forall|i: int|
            0 <= i < 4 ==> 0 < MCG_MULTIPLIERS[i] * #[trigger] w[6][i] + w[7][i]
                < MCG_MULTIPLIERS[i] * pow64() - 1
        &&& forall|i: int| 0 <= i < 4 ==> #[trigger] w[7][i] < MCG_MULTIPLIERS[i]
        &&& forall|i: int|
            0 <= i < 4 ==> !((#[trigger] w[4][i] & 0x7fff_ffff_ffff_ffffu64) == 0 && w[5][i] == 0)
        &&& !(w[8][0] == 0 && w[8][1] == 0 && w[8][2] == 0 && w[8][3] == 0)
    }

    /// A step keeps a state on the cycles.
    pub proof fn lemma_step_on_cycle(self)
        requires
            self.on_cycle(),
        ensures
            self.stepped(1).on_cycle(),
    {
        reveal(TripleMixSimdCore::step);
        self.lemma_stepped_unfold(0);
        self.lemma_stepped_unfold(1);
        let s = self.step();
        s.lemma_stepped_unfold(0);
        assert(self.iterate(1) == self.iterate(0).step());
        assert(self.iterate(0) == self);
        lemma_lanes4(|k: int| lo_word(self.mwc_stepped(k)));
        lemma_lanes4(|k: int| hi_word(self.mwc_stepped(k)));
        lemma_lanes4(|k: int| tinymt_next0(self.tm0[k], self.tm1[k]));
        lemma_lanes4(|k: int| tinymt_next1(self.tm0[k], self.tm1[k]));
        let w = self.state_words().0;
        let w2 = s.state_words().0;
        lemma_mod_bound(self.scalar_weyl + 1, SCALAR_WEYL_MODULUS as int);
        assert forall|i: int| 0 <= i < 4 implies 0 < MCG_MULTIPLIERS[i] * #[trigger] w2[6][i]
            + w2[7][i] < MCG_MULTIPLIERS[i] * pow64() - 1 && w2[7][i] < MCG_MULTIPLIERS[i] by {
            lemma_mwc_value_lane(self.mwc_state[i], self.mwc_carry[i], i);
            let a = MCG_MULTIPLIERS[i] as int;
            let t = self.mwc_stepped(i);
            assert(0 < t < a * pow64() - 1) by {
                assert(0 < a * w[6][i] + w[7][i]);
            }
            lemma_mwc_one_step(a, t);
            lemma_mwc_value_nonzero(a, t);
            lemma_mod_bound(t, pow64());
        }
        assert forall|i: int| 0 <= i < 4 implies #[trigger] w2[7][i] < MCG_MULTIPLIERS[i] by {
            assert(MCG_MULTIPLIERS[i] * w2[6][i] + w2[7][i] < MCG_MULTIPLIERS[i] * pow64() - 1);
        }
        assert forall|i: int| 0 <= i < 4 implies !((#[trigger] w2[4][i] & 0x7fff_ffff_ffff_ffffu64)
            == 0 && w2[5][i] == 0) by {
            assert(!((w[4][i] & 0x7fff_ffff_ffff_ffffu64) == 0 && w[5][i] == 0));
            lemma_tinymt_next_injective(self.tm0[i], self.tm1[i], 0, 0);
        }
        lemma_xoshiro_next_injective(
            self.xoshiro256[0],
            self.xoshiro256[1],
            self.xoshiro256[2],
            self.xoshiro256[3],
            0,
            0,
            0,
            0,
        );
    }

    /// Any number of steps keeps a state on the cycles.
    pub proof fn lemma_stepped_on_cycle(self, n: nat)
        requires
            self.on_cycle(),
        ensures
            self.stepped(n).on_cycle(),
        decreases n,
    {
        if n == 0 {
            self.lemma_stepped_zero();
        } else {
            let n1 = (n - 1) as nat;
            self.lemma_stepped_on_cycle(n1);
            self.stepped(n1).lemma_step_on_cycle();
            self.lemma_stepped_add(n1, 1);
        }
    }

    /// `advance` keeps a state on the cycles.
    pub proof fn lemma_advanced_on_cycle(self, n: nat)
        requires
            self.on_cycle(),
        ensures
            self.advanced(n).on_cycle(),
    {
        self.lemma_stepped_unfold(0);
        assert forall|i: int| 0 <= i < 4 implies #[trigger] self.mwc_stepped(i) < mwc_modulus(i) by {
            lemma_mwc_value_lane(self.mwc_state[i], self.mwc_carry[i], i);
            assert(MCG_MULTIPLIERS[i] * self.state_words().0[6][i] + self.state_words().0[7][i]
                < MCG_MULTIPLIERS[i] * pow64() - 1);
        }
        assert(self.mwc_valid());
        self.lemma_advanced_is_stepped(n);
        self.lemma_stepped_on_cycle(n);
        let st = self.stepped(n);
    }

    /// The all-but-zero state is on the cycles.
    pub proof fn lemma_almost_all_zeroes_on_cycle()
        ensures
            Self::almost_all_zeroes().on_cycle(),
    {
        Self::lemma_almost_all_zeroes_words();
        let w = Self::almost_all_zeroes().state_words().0;
        assert forall|i: int| 0 <= i < 4 implies 0 < MCG_MULTIPLIERS[i] * #[trigger] w[6][i] + w[7][i]
            < MCG_MULTIPLIERS[i] * pow64() - 1 by {
            lemma_mwc_value_lane(0, 0, i);
            assert(1 <= w[6][i] <= 9);
            assert(MCG_MULTIPLIERS[i] * w[6][i] <= MCG_MULTIPLIERS[i] * 9) by (nonlinear_arith)
                requires
                    w[6][i] <= 9,
                    MCG_MULTIPLIERS[i] > 0,
            ;
            assert(MCG_MULTIPLIERS[i] * w[6][i] >= MCG_MULTIPLIERS[i]) by (nonlinear_arith)
                requires
                    w[6][i] >= 1,
                    MCG_MULTIPLIERS[i] > 0,
            ;
        }
        assert forall|i: int| 0 <= i < 4 implies !((#[trigger] w[4][i] & 0x7fff_ffff_ffff_ffffu64)
            == 0 && w[5][i] == 0) by {
            assert(w[5][i] != 0);
        }
    }
}


impl<R: Reproducibility> TripleMixSimdCore<R> {
    /// Two states agree on their mutable state bits: the PCG states, the TinyMT64 state
    /// bits (the first word without its top bit, and the second word), the
    /// multiply-with-carry words and carries, the xoshiro256 state and the Weyl counter.
    pub open spec fn same_mutable_state(self, other: Self) -> bool {
        let a = self.state_words().0;
        let b = other.state_words().0;
        &&& self.state_words().1 == other.state_words().1
        &&& a[0] == b[0]
        &&& a[1] == b[1]
        &&& forall|i: int|
            0 <= i < 4 ==> (#[trigger] a[4][i] & 0x7fff_ffff_ffff_ffffu64) == (b[4][i]
                & 0x7fff_ffff_ffff_ffffu64)
        &&& a[5] == b[5]
        &&& a[6] == b[6]
        &&& a[7] == b[7]
        &&& a[8] == b[8]
    }

    /// One PCG lane step is one to one.
    proof fn lemma_step_injective_pcg(self, other: Self, i: int)
        requires
            0 <= i < 4,
            self.pcg_inc_lo[i] == other.pcg_inc_lo[i],
            self.pcg_inc_hi[i] == other.pcg_inc_hi[i],
            self.step().pcg_state_lo[i] == other.step().pcg_state_lo[i],
            self.step().pcg_state_hi[i] == other.step().pcg_state_hi[i],
        ensures
            self.pcg_state_lo[i] == other.pcg_state_lo[i],
            self.pcg_state_hi[i] == other.pcg_state_hi[i],
    {
        reveal(TripleMixSimdCore::step);
        lemma_lanes4(|k: int| lo_word(self.pcg_stepped(k)));
        lemma_lanes4(|k: int| hi_word(self.pcg_stepped(k)));
        lemma_lanes4(|k: int| lo_word(other.pcg_stepped(k)));
        lemma_lanes4(|k: int| hi_word(other.pcg_stepped(k)));
        lemma_two_pow_64_128();
        let a = PCG_MULTIPLIERS[i] as int;
        let inc = self.pcg_inc(i);
        assert(a % 4 == 1) by {
            if i == 0 {
            } else if i == 1 {
            } else if i == 2 {
            } else {
            }
        }
        lemma_words_of(self.pcg_state_lo[i], self.pcg_state_hi[i]);
        lemma_words_of(other.pcg_state_lo[i], other.pcg_state_hi[i]);
        lemma_words_of(self.pcg_inc_lo[i], self.pcg_inc_hi[i]);
        let x1 = self.pcg_state(i);
        let x2 = other.pcg_state(i);
        let p1 = self.pcg_stepped(i);
        let p2 = other.pcg_stepped(i);
        lemma_mod_bound(x1 * a + inc, pow128());
        lemma_mod_bound(x2 * a + inc, pow128());
        lemma_u128_of_words(p1);
        lemma_u128_of_words(p2);
        assert(p1 == p2);
        assert(pcg_iter(x1, inc, a, 0) == x1);
        assert(pcg_iter(x2, inc, a, 0) == x2);
        assert(pcg_iter(x1, inc, a, 1) == p1);
        assert(pcg_iter(x2, inc, a, 1) == p2);
        lemma_pcg_full_cycle(x1, inc, a);
        lemma_pcg_full_cycle(x2, inc, a);
        lemma_two_pow_pos(128);
        lemma_pcg_iter_add(x1, inc, a, 1, (two_pow(128) - 1) as nat);
        lemma_pcg_iter_add(x2, inc, a, 1, (two_pow(128) - 1) as nat);
        assert(1 + (two_pow(128) - 1) as nat == two_pow(128));
        assert(x1 == x2);
    }

    /// One TinyMT64 lane step is one to one on the lane's state bits.
    proof fn lemma_step_injective_tm(self, other: Self, i: int)
        requires
            0 <= i < 4,
            (self.step().tm0[i] & 0x7fff_ffff_ffff_ffffu64) == (other.step().tm0[i]
                & 0x7fff_ffff_ffff_ffffu64),
            self.step().tm1[i] == other.step().tm1[i],
        ensures
            (self.tm0[i] & 0x7fff_ffff_ffff_ffffu64) == (other.tm0[i] & 0x7fff_ffff_ffff_ffffu64),
            self.tm1[i] == other.tm1[i],
    {
        reveal(TripleMixSimdCore::step);
        lemma_lanes4(|k: int| tinymt_next0(self.tm0[k], self.tm1[k]));
        lemma_lanes4(|k: int| tinymt_next1(self.tm0[k], self.tm1[k]));
        lemma_lanes4(|k: int| tinymt_next0(other.tm0[k], other.tm1[k]));
        lemma_lanes4(|k: int| tinymt_next1(other.tm0[k], other.tm1[k]));
        lemma_tinymt_next_injective(self.tm0[i], self.tm1[i], other.tm0[i], other.tm1[i]);
    }

    /// One multiply-with-carry lane step is one to one on values below the modulus with
    /// carries below the multiplier.
    proof fn lemma_step_injective_mwc(self, other: Self, i: int)
        requires
            0 <= i < 4,
            self.mwc_stepped(i) < mwc_modulus(i),
            other.mwc_stepped(i) < mwc_modulus(i),
            self.mwc_carry[i] < MCG_MULTIPLIERS[i],
            other.mwc_carry[i] < MCG_MULTIPLIERS[i],
            self.step().mwc_state[i] == other.step().mwc_state[i],
            self.step().mwc_carry[i] == other.step().mwc_carry[i],
        ensures
            self.mwc_state[i] == other.mwc_state[i],
            self.mwc_carry[i] == other.mwc_carry[i],
    {
        reveal(TripleMixSimdCore::step);
        lemma_lanes4(|k: int| lo_word(self.mwc_stepped(k)));
        lemma_lanes4(|k: int| hi_word(self.mwc_stepped(k)));
        lemma_lanes4(|k: int| lo_word(other.mwc_stepped(k)));
        lemma_lanes4(|k: int| hi_word(other.mwc_stepped(k)));
        let a = MCG_MULTIPLIERS[i] as int;
        lemma_mwc_value_lane(self.mwc_state[i], self.mwc_carry[i], i);
        lemma_mwc_value_lane(other.mwc_state[i], other.mwc_carry[i], i);
        let v1 = self.mwc_stepped(i);
        let v2 = other.mwc_stepped(i);
        assert(v1 >= 0 && v2 >= 0) by (nonlinear_arith)
            requires
                v1 == a * self.mwc_state[i] + self.mwc_carry[i],
                v2 == a * other.mwc_state[i] + other.mwc_carry[i],
                a > 0,
        ;
        assert(a * pow64() - 1 < pow128()) by (nonlinear_arith)
            requires
                a < pow64(),
                pow128() == pow64() * pow64(),
        ;
        lemma_u128_of_words(v1);
        lemma_u128_of_words(v2);
        assert(v1 == v2);
        lemma_fundamental_div_mod_converse(v1, a, self.mwc_state[i] as int, self.mwc_carry[i] as int);
        lemma_fundamental_div_mod_converse(v2, a, other.mwc_state[i] as int, other.mwc_carry[i] as int);
    }

    /// One Weyl step is one to one on counters below the modulus.
    proof fn lemma_weyl_next_injective_at(self, other: Self)
        requires
            self.scalar_weyl < SCALAR_WEYL_MODULUS,
            other.scalar_weyl < SCALAR_WEYL_MODULUS,
            self.step().scalar_weyl == other.step().scalar_weyl,
        ensures
            self.scalar_weyl == other.scalar_weyl,
    {
        reveal(TripleMixSimdCore::step);
        lemma_weyl_next_injective(self.scalar_weyl, other.scalar_weyl);
    }

    /// One step is one to one on the states on the cycles that share their PCG
    /// increments: two such states whose steps agree on their mutable state bits (every
    /// word but the increments, and the Weyl counter) agree on them themselves, so the
    /// mutable state bits run through cycles.
    #[verifier::spinoff_prover]
    #[verifier::rlimit(40)]
    pub proof fn lemma_step_injective(self, other: Self)
        requires
            self.on_cycle(),
            other.on_cycle(),
            self.state_words().0[2] == other.state_words().0[2],
            self.state_words().0[3] == other.state_words().0[3],
            self.stepped(1).same_mutable_state(other.stepped(1)),
        ensures
            self.same_mutable_state(other),
            self.state_words().0[0] == other.state_words().0[0],
            self.state_words().0[1] == other.state_words().0[1],
            self.state_words().0[5] == other.state_words().0[5],
            self.state_words().0[6] == other.state_words().0[6],
            self.state_words().0[7] == other.state_words().0[7],
            self.state_words().0[8] == other.state_words().0[8],
            self.state_words().1 == other.state_words().1,
    {
        self.lemma_stepped_unfold(0);
        other.lemma_stepped_unfold(0);
        self.lemma_stepped_unfold(1);
        other.lemma_stepped_unfold(1);
        assert(self.iterate(1) == self.iterate(0).step());
        assert(other.iterate(1) == other.iterate(0).step());
        let s = self.step();
        let o = other.step();
        s.lemma_stepped_unfold(0);
        o.lemma_stepped_unfold(0);
        assert forall|i: int| 0 <= i < 4 implies #[trigger] self.pcg_state_lo[i] == other.pcg_state_lo[i]
            && self.pcg_state_hi[i] == other.pcg_state_hi[i] by {
            self.lemma_step_injective_pcg(other, i);
        }
        assert forall|i: int| 0 <= i < 4 implies (#[trigger] self.tm0[i] & 0x7fff_ffff_ffff_ffffu64)
            == (other.tm0[i] & 0x7fff_ffff_ffff_ffffu64) && self.tm1[i] == other.tm1[i] by {
            assert((s.state_words().0[4][i] & 0x7fff_ffff_ffff_ffffu64) == (o.state_words().0[4][i]
                & 0x7fff_ffff_ffff_ffffu64));
            self.lemma_step_injective_tm(other, i);
        }
        assert forall|i: int| 0 <= i < 4 implies #[trigger] self.mwc_state[i] == other.mwc_state[i]
            && self.mwc_carry[i] == other.mwc_carry[i] by {
            lemma_mwc_value_lane(self.mwc_state[i], self.mwc_carry[i], i);
            lemma_mwc_value_lane(other.mwc_state[i], other.mwc_carry[i], i);
            assert(self.state_words().0[7][i] < MCG_MULTIPLIERS[i]);
            assert(other.state_words().0[7][i] < MCG_MULTIPLIERS[i]);
            assert(0 < MCG_MULTIPLIERS[i] * self.state_words().0[6][i] + self.state_words().0[7][i]
                < MCG_MULTIPLIERS[i] * pow64() - 1);
            assert(0 < MCG_MULTIPLIERS[i] * other.state_words().0[6][i]
                + other.state_words().0[7][i] < MCG_MULTIPLIERS[i] * pow64() - 1);
            self.lemma_step_injective_mwc(other, i);
        }
        reveal(TripleMixSimdCore::step);
        lemma_xoshiro_next_injective(
            self.xoshiro256[0],
            self.xoshiro256[1],
            self.xoshiro256[2],
            self.xoshiro256[3],
            other.xoshiro256[0],
            other.xoshiro256[1],
            other.xoshiro256[2],
            other.xoshiro256[3],
        );
        assert(s.xoshiro256 == o.xoshiro256);
        self.lemma_weyl_next_injective_at(other);
        assert(self.pcg_state_lo =~= other.pcg_state_lo);
        assert(self.pcg_state_hi =~= other.pcg_state_hi);
        assert(self.tm1 =~= other.tm1);
        assert(self.mwc_state =~= other.mwc_state);
        assert(self.mwc_carry =~= other.mwc_carry);
        assert(self.xoshiro256 =~= other.xoshiro256);
    }
}

} // verus!
