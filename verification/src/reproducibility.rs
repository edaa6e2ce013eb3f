//! Levels of reproducibility of the byte output.
use vstd::prelude::*;
use crate::bytes::{
    le_bytes_u128, le_bytes_u64, le_words_as_bytes, native_bytes_u128, native_bytes_u64,
    native_words_as_bytes, u128_bytes, u64_bytes, words_as_bytes,
};

verus! {

/// How `TripleMixPrng::fill_bytes` lays the words of the generator out in a byte
/// slice.
#[derive(Copy, Clone, Debug, PartialEq, Eq)]
pub enum ByteLayout {
    /// The bytes up to the first aligned word come from one word; the aligned words
    /// are written whole in the machine's byte order; the bytes after them come from
    /// the next words. Without a whole aligned word, the bytes come from the
    /// little-endian byte stream of the words.
    SplitAtAlignment,
    /// Whole words in the machine's byte order from the start of the slice, wherever
    /// it lies in memory, then the bytes after them from the little-endian byte stream
    /// of the next word.
    AlignedWordsOnly,
    /// Always the little-endian byte stream of the words.
    LittleEndianStream,
}

/// Levels of reproducibility for the output of `TripleMixPrng::fill_bytes` and for
/// the output after `fill_bytes` has been called.
pub trait Reproducibility: Clone + Copy {
    /// The byte layout of this level.
    spec fn layout_spec() -> ByteLayout;

    /// The byte layout of this level.
    fn byte_layout() -> (r: ByteLayout)
        ensures
            r == Self::layout_spec(),
    ;

    /// The memory of the words of `slice` as bytes: each word in the machine's byte
    /// order, or least significant byte first at the level `LittleEndianStream`.
    fn cast_u64_slice_as_u8(slice: &[u64]) -> (r: Vec<u8>)
        requires
            8 * slice@.len() <= usize::MAX,
        ensures
            r@ == words_as_bytes(slice@, true) || r@ == words_as_bytes(slice@, false),
            Self::layout_spec() == ByteLayout::LittleEndianStream ==> r@ == words_as_bytes(
                slice@,
                true,
            ),
    ;

    /// The bytes of `input`, in the machine's byte order, or least significant byte
    /// first at the level `LittleEndianStream`.
    fn u64_as_bytes(input: u64) -> (r: [u8; 8])
        ensures
            r@ == u64_bytes(input, true) || r@ == u64_bytes(input, false),
            Self::layout_spec() == ByteLayout::LittleEndianStream ==> r@ == u64_bytes(input, true),
    ;

    /// The bytes of `input`, in the machine's byte order, or least significant byte
    /// first at the level `LittleEndianStream`.
    fn u128_as_bytes(input: u128) -> (r: [u8; 16])
        ensures
            r@ == u128_bytes(input, true) || r@ == u128_bytes(input, false),
            Self::layout_spec() == ByteLayout::LittleEndianStream ==> r@ == u128_bytes(
                input,
                true,
            ),
    ;
}

/// Output of `TripleMixPrng::fill_bytes` and the state of the PRNG afterward may
/// depend on the address alignment where the byte slice starts and ends and on the
/// machine endianness.
#[derive(Copy, Clone, Debug)]
pub struct NotReproducible;

impl Reproducibility for NotReproducible {
    open spec fn layout_spec() -> ByteLayout {
        ByteLayout::SplitAtAlignment
    }

    fn byte_layout() -> (r: ByteLayout) {
        ByteLayout::SplitAtAlignment
    }

    fn cast_u64_slice_as_u8(slice: &[u64]) -> (r: Vec<u8>) {
        native_words_as_bytes(slice)
    }

    fn u64_as_bytes(input: u64) -> (r: [u8; 8]) {
        native_bytes_u64(input)
    }

    fn u128_as_bytes(input: u128) -> (r: [u8; 16]) {
        native_bytes_u128(input)
    }
}

/// Output of the PRNG will be the same as for an instance created with the same seed
/// and receiving the same calls (counting two `fill_bytes` as the same when they write
/// to slices of the same length), as long as both instances are created on machines
/// with the same endianness.
#[derive(Copy, Clone, Debug)]
pub struct SameEndianness;

impl Reproducibility for SameEndianness {
    open spec fn layout_spec() -> ByteLayout {
        ByteLayout::AlignedWordsOnly
    }

    fn byte_layout() -> (r: ByteLayout) {
        ByteLayout::AlignedWordsOnly
    }

    fn cast_u64_slice_as_u8(slice: &[u64]) -> (r: Vec<u8>) {
        native_words_as_bytes(slice)
    }

    fn u64_as_bytes(input: u64) -> (r: [u8; 8]) {
        native_bytes_u64(input)
    }

    fn u128_as_bytes(input: u128) -> (r: [u8; 16]) {
        native_bytes_u128(input)
    }
}

/// Output of the PRNG will be the same as for an instance created with the same seed
/// and receiving the same calls (counting two `fill_bytes` as the same when they write
/// to slices of the same length) on another machine, even if that machine has a
/// different CPU architecture.
#[derive(Copy, Clone, Debug)]
pub struct CrossPlatform;

impl Reproducibility for CrossPlatform {
    open spec fn layout_spec() -> ByteLayout {
        ByteLayout::LittleEndianStream
    }

    fn byte_layout() -> (r: ByteLayout) {
        ByteLayout::LittleEndianStream
    }

    fn cast_u64_slice_as_u8(slice: &[u64]) -> (r: Vec<u8>) {
        le_words_as_bytes(slice)
    }

    fn u64_as_bytes(input: u64) -> (r: [u8; 8]) {
        le_bytes_u64(input)
    }

    fn u128_as_bytes(input: u128) -> (r: [u8; 16]) {
        le_bytes_u128(input)
    }
}

/// The reproducibility level used when none is named.
pub type DefaultReproducibility = NotReproducible;

} // verus!
