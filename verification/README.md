# rand_triplemix

A vectorized pseudorandom number generator that combines, in each of four lanes, a
PCG64, a TinyMT64 and a 128-bit multiply-with-carry generator, with a scalar
xoshiro256** generator and a Weyl counter modulo 2^64 - 59, through a nonlinear mixing
function whose 32-bit lanes start from lane-specific constants. Each step of the
sub-generators (the Weyl counter included, which moves by one) yields a block of
twelve `u64` words: the three four-lane vectors that the mix produces. It has not been
evaluated for cryptographic use.

The library is written in Verus, and its functions carry contracts that Verus proves.

Layout:

- `src/simd.rs`: four-lane words and 128-bit arithmetic on 64-bit words.
- `src/mix.rs`: the mixing function, as 32-bit lane operations.
- `src/avx2.rs`: the mixing function of the AVX2 path and its multiplies, with the
  lane movements of the AVX2 instructions written out on eight 32-bit lanes.
- `src/generate.rs`: the core state, one step of every sub-generator, and the block
  of output of a step.
- `src/gf2.rs`, `src/gf2_256.rs`: GF(2) matrices of the TinyMT64 and xoshiro256 steps
  and their powers.
- `src/jump.rs`: jumping the core ahead by any number of steps, and the laws that tie a
  jump to stepping.
- `src/prng.rs`: the generator as a stream of words: buffering, `next_u64`,
  `next_u32`, `fill_bytes`, serialization support.
- `src/reproducibility.rs`: the reproducibility levels of the byte output.
- `src/bytes.rs`: bytes of words in either order, and the calls that depend on the
  machine (byte order, alignment).
- `app/lib.rs`: the generator behind the `rand_core` traits, with serde and zeroize.
