//! Bytes of words: little-endian, big-endian, and the machine's own order.
use vstd::prelude::*;

verus! {

/// Byte `i` of `w`, counting from the least significant one.
pub open spec fn le_byte(w: u64, i: int) -> u8 {
    ((w >> ((8 * i) as u64)) & 0xffu64) as u8
}

/// Byte `i` of `w` in the given order: least significant first when `little_endian`,
/// most significant first otherwise.
pub open spec fn ordered_byte(w: u64, i: int, little_endian: bool) -> u8 {
    if little_endian {
        le_byte(w, i)
    } else {
        le_byte(w, 7 - i)
    }
}

/// The eight bytes of `w` in the given order.
pub open spec fn u64_bytes(w: u64, little_endian: bool) -> Seq<u8> {
    Seq::new(8, |i: int| ordered_byte(w, i, little_endian))
}

/// Byte `i` of `x`, counting from the least significant one.
pub open spec fn le_byte128(x: u128, i: int) -> u8 {
    ((x >> ((8 * i) as u128)) & 0xffu128) as u8
}

/// The sixteen bytes of `x` in the given order.
pub open spec fn u128_bytes(x: u128, little_endian: bool) -> Seq<u8> {
    Seq::new(16, |i: int| if little_endian { le_byte128(x, i) } else { le_byte128(x, 15 - i) })
}

/// The bytes of the words of `s`, each word's eight bytes in the given order.
pub open spec fn words_as_bytes(s: Seq<u64>, little_endian: bool) -> Seq<u8> {
    Seq::new(8 * s.len(), |i: int| ordered_byte(s[i / 8], i % 8, little_endian))
}

/// The number of words that `n` bytes take, the last one perhaps in part.
pub open spec fn words_for(n: nat) -> nat {
    (n + 7) / 8
}

/// `u64::to_ne_bytes`: the bytes of `x` in the machine's byte order, which is one of
/// the two orders; which one is not stated.
#[verifier::external_body]
pub(crate) fn native_bytes_u64(x: u64) -> (r: [u8; 8])
    ensures
        r@ == u64_bytes(x, true) || r@ == u64_bytes(x, false),
{
    x.to_ne_bytes()
}

/// `u128::to_ne_bytes`: the bytes of `x` in the machine's byte order, which is one of
/// the two orders; which one is not stated.
#[verifier::external_body]
pub(crate) fn native_bytes_u128(x: u128) -> (r: [u8; 16])
    ensures
        r@ == u128_bytes(x, true) || r@ == u128_bytes(x, false),
{
    x.to_ne_bytes()
}

/// `bytemuck::cast_slice` from `u64` to `u8`, copied: the memory of the words as bytes,
/// each word in the machine's byte order (one of the two, the same for every word).
#[verifier::external_body]
pub(crate) fn native_words_as_bytes(s: &[u64]) -> (r: Vec<u8>)
    ensures
        r@ == words_as_bytes(s@, true) || r@ == words_as_bytes(s@, false),
{
    bytemuck::cast_slice::<u64, u8>(s).to_vec()
}

/// `bytemuck::pod_align_to` from `u8` to `u64`: the length of the unaligned prefix of
/// `bytes` and the number of aligned words after it. Both depend on the address of
/// `bytes`; only that they fit in it is stated.
#[verifier::external_body]
pub(crate) fn aligned_layout(bytes: &[u8]) -> (r: (usize, usize))
    ensures
        r.0 + 8 * r.1 <= bytes@.len(),
{
    let (prefix, words, _suffix) = bytemuck::pod_align_to::<u8, u64>(bytes);
    (prefix.len(), words.len())
}

/// Whether this machine stores the least significant byte of a word first.
pub fn native_is_little_endian() -> bool {
    let probe = native_bytes_u64(1);
    probe[0] == 1
}

/// The eight bytes of `x`, least significant first.
pub fn le_bytes_u64(x: u64) -> (r: [u8; 8])
    ensures
        r@ == u64_bytes(x, true),
{
    let mut r = [0u8; 8];
    let mut i: usize = 0;
    while i < 8
        invariant
            i <= 8,
            forall|j: int| 0 <= j < i ==> r[j] == le_byte(x, j),
        decreases 8 - i,
    {
        let shift: u64 = 8 * (i as u64);
        #[verifier::truncate]
        let b = ((x >> shift) & 0xff) as u8;
        r[i] = b;
        i += 1;
    }
    assert(r@ =~= u64_bytes(x, true));
    r
}

/// The sixteen bytes of `x`, least significant first.
pub fn le_bytes_u128(x: u128) -> (r: [u8; 16])
    ensures
        r@ == u128_bytes(x, true),
{
    let mut r = [0u8; 16];
    let mut i: usize = 0;
    while i < 16
        invariant
            i <= 16,
            forall|j: int| 0 <= j < i ==> r[j] == le_byte128(x, j),
        decreases 16 - i,
    {
        let shift: u128 = 8 * (i as u128);
        #[verifier::truncate]
        let b = ((x >> shift) & 0xff) as u8;
        r[i] = b;
        i += 1;
    }
    assert(r@ =~= u128_bytes(x, true));
    r
}

/// The bytes of the words of `s`, each least significant first.
pub fn le_words_as_bytes(s: &[u64]) -> (r: Vec<u8>)
    requires
        8 * s@.len() <= usize::MAX,
    ensures
        r@ == words_as_bytes(s@, true),
{
    let mut r: Vec<u8> = Vec::new();
    let mut k: usize = 0;
    while k < s.len()
        invariant
            k <= s@.len(),
            8 * s@.len() <= usize::MAX,
            r@.len() == 8 * k,
            forall|i: int| 0 <= i < 8 * k ==> r@[i] == ordered_byte(s@[i / 8], i % 8, true),
        decreases s@.len() - k,
    {
        let b = le_bytes_u64(s[k]);
        let mut j: usize = 0;
        while j < 8
            invariant
                j <= 8,
                k < s@.len(),
                b@ == u64_bytes(s@[k as int], true),
                r@.len() == 8 * k + j,
                forall|i: int| 0 <= i < 8 * k ==> r@[i] == ordered_byte(s@[i / 8], i % 8, true),
                forall|i: int|
                    8 * k <= i < 8 * k + j ==> r@[i] == ordered_byte(s@[k as int], i - 8 * k, true),
            decreases 8 - j,
        {
            r.push(b[j]);
            j += 1;
        }
        assert forall|i: int| 8 * k <= i < 8 * k + 8 implies r@[i] == ordered_byte(
            s@[i / 8],
            i % 8,
            true,
        ) by {
            vstd::arithmetic::div_mod::lemma_fundamental_div_mod_converse(
                i,
                8,
                k as int,
                i - 8 * k,
            );
        }
        k += 1;
    }
    assert(r@ =~= words_as_bytes(s@, true));
    r
}

} // verus!
