//! Four-lane vectors of 64-bit words and the lane-wise arithmetic the
//! sub-generators are built from.
use vstd::prelude::*;

verus! {

/// Four lanes of 64-bit words.
pub type Simd64 = [u64; 4];

/// Number of lanes in a [`Simd64`].
pub const SIMD_WIDTH: usize = 4;

/// 2^64 as a mathematical integer.
pub open spec fn pow64() -> int {
    0x1_0000_0000_0000_0000int
}

/// 2^128 as a mathematical integer.
pub open spec fn pow128() -> int {
    0x1_0000_0000_0000_0000_0000_0000_0000_0000int
}

/// The product of two words, reduced modulo 2^64.
pub open spec fn wmul(a: u64, b: u64) -> u64 {
    ((a as int * b as int) % pow64()) as u64
}

/// `1` when a carry mask is all ones, `0` otherwise.
pub open spec fn carry_bit(mask: u64) -> int {
    if mask == u64::MAX { 1 } else { 0 }
}

proof fn lemma_split_word(x: u64)
    ensures
        x == (x >> 32u64) * 0x1_0000_0000 + (x & 0xffff_ffff),
        x >> 32u64 <= 0xffff_ffff,
        x & 0xffff_ffff <= 0xffff_ffff,
        x << 32u64 == (x & 0xffff_ffff) * 0x1_0000_0000,
{
    assert(x == (x >> 32u64) * 0x1_0000_0000 + (x & 0xffff_ffff)) by (bit_vector);
    assert(x >> 32u64 <= 0xffff_ffff) by (bit_vector);
    assert(x & 0xffff_ffff <= 0xffff_ffff) by (bit_vector);
    assert(x << 32u64 == (x & 0xffff_ffff) * 0x1_0000_0000) by (bit_vector);
}

proof fn lemma_mulsmall_lane(a: u64, b: u64, p0: u64, p1: u64, lo: u64, hi: int)
    requires
        b < 0x1_0000_0000,
        p0 == (a & 0xffff_ffff) * b,
        p1 == (a >> 32u64) * b,
        lo == ((p1 << 32u64) as int + p0 as int) % pow64(),
        hi == (if lo < p0 { (p1 >> 32u64) + 1 } else { (p1 >> 32u64) as int }),
    ensures
        lo + hi * pow64() == a * b,
{
    lemma_split_word(a);
    lemma_split_word(p1);
    let al = a & 0xffff_ffff;
    let ah = a >> 32u64;
    let p1l = p1 & 0xffff_ffff;
    let p1h = p1 >> 32u64;
    assert(a * b == p1 * 0x1_0000_0000 + p0) by (nonlinear_arith)
        requires
            a == ah * 0x1_0000_0000 + al,
            p0 == al * b,
            p1 == ah * b,
    ;
    assert(p1 * 0x1_0000_0000 == p1h * pow64() + p1l * 0x1_0000_0000) by (nonlinear_arith)
        requires
            p1 == p1h * 0x1_0000_0000 + p1l,
    ;
}

/// One lane of a product by a small factor: the full 128-bit product of `a` and
/// `b < 2^32`, as `(low, high)` words.
pub fn mulsmall_lane(a: u64, b: u64) -> (r: (u64, u64))
    requires
        b < 0x1_0000_0000,
    ensures
        r.0 + r.1 * pow64() == a * b,
{
    let a_lo = a & 0xffff_ffff;
    let a_hi = a >> 32;
    proof { lemma_split_word(a); }
    assert(a_lo * b <= 0xffff_ffff * 0xffff_ffff && a_hi * b <= 0xffff_ffff * 0xffff_ffff)
        by (nonlinear_arith)
        requires
            a_lo <= 0xffff_ffff,
            a_hi <= 0xffff_ffff,
            b < 0x1_0000_0000,
    ;
    let p0 = a_lo * b;
    let p1 = a_hi * b;
    let lo = (p1 << 32).wrapping_add(p0);
    let carry: u64 = if lo < p0 { u64::MAX } else { 0 };
    let hi = (p1 >> 32).wrapping_sub(carry);
    proof {
        lemma_split_word(p1);
        lemma_mulsmall_lane(a, b, p0, p1, lo, hi as int);
    }
    (lo, hi)
}

/// The value of a 128-bit number held as a `(low, high)` pair of words.
pub open spec fn u128_of(lo: u64, hi: u64) -> int {
    hi * pow64() + lo
}

/// One lane of a 128-bit addition: adds `a` and `b` and subtracts the carry mask
/// `carry_in` (all ones for an incoming carry of 1), and returns the wrapped sum with a
/// carry mask that is all ones when the addition wrapped or the subtraction went
/// through zero (for a carry mask of all ones: when adding the incoming carry wrapped).
pub fn add128_lane(a: u64, b: u64, carry_in: u64) -> (r: (u64, u64))
    ensures
        r.0 == (a + b - carry_in) % pow64(),
        r.1 == (if a + b >= pow64() || (0 < carry_in && carry_in <= (a + b) % pow64()) {
            u64::MAX
        } else {
            0
        }),
        carry_in == 0 || carry_in == u64::MAX ==> r.0 + carry_bit(r.1) * pow64() == a + b
            + carry_bit(carry_in),
{
    let sum1 = a.wrapping_add(b);
    let sum = sum1.wrapping_sub(carry_in);
    let carry: u64 = if sum1 < a || sum < sum1 { u64::MAX } else { 0 };
    proof {
        if a + b >= pow64() {
            assert(sum1 == a + b - pow64());
        } else {
            assert(sum1 == a + b);
        }
        assert(sum1 == (a + b) % pow64()) by {
            if a + b >= pow64() {
                vstd::arithmetic::div_mod::lemma_fundamental_div_mod_converse(
                    a + b, pow64(), 1, sum1 as int);
            } else {
                vstd::arithmetic::div_mod::lemma_fundamental_div_mod_converse(
                    a + b, pow64(), 0, sum1 as int);
            }
        }
        if sum1 < carry_in {
            vstd::arithmetic::div_mod::lemma_fundamental_div_mod_converse(
                a + b - carry_in, pow64(), if a + b >= pow64() { 0 } else { -1 },
                sum as int);
        } else {
            vstd::arithmetic::div_mod::lemma_fundamental_div_mod_converse(
                a + b - carry_in, pow64(), if a + b >= pow64() { 1 } else { 0 },
                sum as int);
        }
    }
    (sum, carry)
}

/// `(x * 2^64 + l) mod 2^128` keeps `l` and the low word of `x`.
pub proof fn lemma_mod128_hi_lo(x: int, l: int)
    requires
        0 <= l < pow64(),
    ensures
        (x * pow64() + l) % pow128() == (x % pow64()) * pow64() + l,
{
    let q = x / pow64();
    let r = x % pow64();
    vstd::arithmetic::div_mod::lemma_fundamental_div_mod(x, pow64());
    vstd::arithmetic::div_mod::lemma_mod_bound(x, pow64());
    assert(x * pow64() + l == q * pow128() + (r * pow64() + l)) by (nonlinear_arith)
        requires
            x == pow64() * q + r,
            pow128() == pow64() * pow64(),
    ;
    assert(r * pow64() + l < pow128()) by (nonlinear_arith)
        requires
            0 <= r < pow64(),
            0 <= l < pow64(),
            pow128() == pow64() * pow64(),
    ;
    assert(0 <= r * pow64()) by (nonlinear_arith)
        requires
            0 <= r,
    ;
    vstd::arithmetic::div_mod::lemma_fundamental_div_mod_converse(
        x * pow64() + l, pow128(), q, r * pow64() + l);
}

proof fn lemma_mul128x64(
    a_high: u64,
    a_low: u64,
    b: u64,
    b_lo: u64,
    b_hi: u64,
    p1_lo: u64,
    p1_hi: u64,
    p2_lo: u64,
    p2_hi: u64,
    sl: u64,
    sh: u64,
    low_sum: u64,
    c1: u64,
    alh: u64,
    ahb: u64,
    high: u64,
)
    requires
        b == b_hi * 0x1_0000_0000 + b_lo,
        b_lo < 0x1_0000_0000,
        b_hi < 0x1_0000_0000,
        p1_lo + p1_hi * pow64() == a_low * b_lo,
        p2_lo + p2_hi * pow64() == a_low * b_hi,
        p2_hi < 0x1_0000_0000,
        sh * pow64() + sl == (p2_lo + p2_hi * pow64()) * 0x1_0000_0000,
        low_sum + carry_bit(c1) * pow64() == p1_lo + sl,
        alh == (p1_hi + sh + carry_bit(c1)) % pow64(),
        ahb == (a_high * b) % pow64(),
        high == (alh + ahb) % pow64(),
    ensures
        u128_of(low_sum, high) == (u128_of(a_low, a_high) * b) % pow128(),
{
    assert(a_low * b == a_low * b_lo + a_low * b_hi * 0x1_0000_0000) by (nonlinear_arith)
        requires
            b == b_hi * 0x1_0000_0000 + b_lo,
    ;
    let t = p1_hi + sh + carry_bit(c1);
    assert(a_low * b == t * pow64() + low_sum);
    assert(0 <= a_low * b < pow128()) by (nonlinear_arith)
        requires
            0 <= a_low < pow64(),
            0 <= b < pow64(),
            pow128() == pow64() * pow64(),
    ;
    assert(0 <= t < pow64()) by (nonlinear_arith)
        requires
            a_low * b == t * pow64() + low_sum,
            0 <= low_sum < pow64(),
            0 <= a_low * b < pow128(),
            pow128() == pow64() * pow64(),
    ;
    vstd::arithmetic::div_mod::lemma_small_mod(t as nat, pow64() as nat);
    assert(u128_of(a_low, a_high) * b == (a_high * b + t) * pow64() + low_sum) by (nonlinear_arith)
        requires
            a_low * b == t * pow64() + low_sum,
    ;
    lemma_mod128_hi_lo(a_high * b + t, low_sum as int);
    vstd::arithmetic::div_mod::lemma_add_mod_noop(a_high * b, t, pow64());
    vstd::arithmetic::div_mod::lemma_small_mod(t as nat, pow64() as nat);
}

/// `(hi << 32) | (lo >> 32)` when `hi < 2^32`.
proof fn lemma_shift_pair(hi: u64, lo: u64)
    requires
        hi < 0x1_0000_0000,
    ensures
        (hi << 32u64) | (lo >> 32u64) == hi * 0x1_0000_0000 + (lo >> 32u64),
{
    assert((hi << 32u64) | (lo >> 32u64) == hi * 0x1_0000_0000 + (lo >> 32u64)) by (bit_vector)
        requires
            hi < 0x1_0000_0000,
    ;
}

/// One lane of a 128-bit by 64-bit product modulo 2^128, as `(high, low)` words.
pub fn mul128x64_lane(a_high: u64, a_low: u64, b: u64) -> (r: (u64, u64))
    ensures
        u128_of(r.1, r.0) == (u128_of(a_low, a_high) * b) % pow128(),
{
    let b_lo = b & 0xFFFF_FFFF;
    let b_hi = b >> 32;
    proof {
        lemma_split_word(b);
    }
    let (p1_lo, p1_hi) = mulsmall_lane(a_low, b_lo);
    let (p2_lo, p2_hi) = mulsmall_lane(a_low, b_hi);
    proof {
        assert(a_low * b_hi < pow64() * 0x1_0000_0000) by (nonlinear_arith)
            requires
                a_low < pow64(),
                b_hi < 0x1_0000_0000,
        ;
        lemma_split_word(p2_lo);
        lemma_shift_pair(p2_hi, p2_lo);
    }
    let p2_shifted_lo = p2_lo << 32;
    let p2_shifted_hi = (p2_hi << 32) | (p2_lo >> 32);
    let (low_sum, carry1) = add128_lane(p1_lo, p2_shifted_lo, 0);
    let a_low_b_hi = p1_hi.wrapping_add(p2_shifted_hi).wrapping_sub(carry1);
    let a_high_b = a_high.wrapping_mul(b);
    let final_high = a_low_b_hi.wrapping_add(a_high_b);
    proof {
        let s = p1_hi.wrapping_add(p2_shifted_hi);
        assert(s == (p1_hi + p2_shifted_hi) % pow64()) by {
            if p1_hi + p2_shifted_hi >= pow64() {
                vstd::arithmetic::div_mod::lemma_fundamental_div_mod_converse(
                    p1_hi + p2_shifted_hi, pow64(), 1, s as int);
            } else {
                vstd::arithmetic::div_mod::lemma_fundamental_div_mod_converse(
                    p1_hi + p2_shifted_hi, pow64(), 0, s as int);
            }
        }
        assert(a_low_b_hi == (p1_hi + p2_shifted_hi + carry_bit(carry1)) % pow64()) by {
            let v = p1_hi + p2_shifted_hi + carry_bit(carry1);
            let q = (p1_hi + p2_shifted_hi) / pow64();
            vstd::arithmetic::div_mod::lemma_fundamental_div_mod(p1_hi + p2_shifted_hi, pow64());
            if carry1 == u64::MAX && s == u64::MAX {
                vstd::arithmetic::div_mod::lemma_fundamental_div_mod_converse(
                    v, pow64(), q + 1, 0);
            } else {
                vstd::arithmetic::div_mod::lemma_fundamental_div_mod_converse(
                    v, pow64(), q, a_low_b_hi as int);
            }
        }
        assert(final_high == (a_low_b_hi + a_high_b) % pow64()) by {
            if a_low_b_hi + a_high_b >= pow64() {
                vstd::arithmetic::div_mod::lemma_fundamental_div_mod_converse(
                    a_low_b_hi + a_high_b, pow64(), 1, final_high as int);
            } else {
                vstd::arithmetic::div_mod::lemma_fundamental_div_mod_converse(
                    a_low_b_hi + a_high_b, pow64(), 0, final_high as int);
            }
        }
        lemma_mul128x64(
            a_high, a_low, b, b_lo, b_hi, p1_lo, p1_hi, p2_lo, p2_hi, p2_shifted_lo,
            p2_shifted_hi, low_sum, carry1, a_low_b_hi, a_high_b, final_high);
    }
    (final_high, low_sum)
}

/// The low words of a 128-bit product and the high word assembled from the high word
/// of `a * b_low` and the low word of `a_low * b_high` give the product modulo 2^128.
pub proof fn lemma_mul128x128_words(
    a_high: u64,
    a_low: u64,
    b_high: u64,
    b_low: u64,
    h1: u64,
    low: u64,
    h2: u64,
    high: u64,
)
    requires
        u128_of(low, h1) == (u128_of(a_low, a_high) * b_low) % pow128(),
        h2 == (a_low * b_high) % pow64(),
        high == (h1 + h2) % pow64(),
    ensures
        u128_of(low, high) == (u128_of(a_low, a_high) * u128_of(b_low, b_high)) % pow128(),
{
    let a = u128_of(a_low, a_high);
    let p = a * b_low;
    let pm = p % pow128();
    vstd::arithmetic::div_mod::lemma_fundamental_div_mod(p, pow128());
    vstd::arithmetic::div_mod::lemma_mod_bound(p, pow128());
    // pm = h1 * 2^64 + low
    assert(a * u128_of(b_low, b_high) == (p / pow128()) * pow128() + (h1 + a_high * b_high
        * pow64() + a_low * b_high) * pow64() + low) by (nonlinear_arith)
        requires
            p == a * b_low,
            p == pow128() * (p / pow128()) + pm,
            pm == h1 * pow64() + low,
            a == a_high * pow64() + a_low,
            pow128() == pow64() * pow64(),
    ;
    assert(a * u128_of(b_low, b_high) == ((p / pow128()) + a_high * b_high) * pow128() + (h1
        + a_low * b_high) * pow64() + low) by (nonlinear_arith)
        requires
            a * u128_of(b_low, b_high) == (p / pow128()) * pow128() + (h1 + a_high * b_high
                * pow64() + a_low * b_high) * pow64() + low,
            pow128() == pow64() * pow64(),
    ;
    vstd::arithmetic::div_mod::lemma_mod_multiples_vanish(
        (p / pow128()) + a_high * b_high,
        (h1 + a_low * b_high) * pow64() + low,
        pow128(),
    );
    lemma_mod128_hi_lo(h1 + a_low * b_high, low as int);
    vstd::arithmetic::div_mod::lemma_add_mod_noop(h1 as int, a_low * b_high, pow64());
    vstd::arithmetic::div_mod::lemma_small_mod(h1 as nat, pow64() as nat);
}

} // verus!
