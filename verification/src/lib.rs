//! A vectorized pseudorandom number generator combining, in each of four lanes, a
//! PCG64, a TinyMT64 and a 128-bit multiply-with-carry generator, with a scalar
//! xoshiro256** generator, through a nonlinear mixing function.
use vstd::prelude::*;

pub mod avx2;
pub mod bytes;
pub mod generate;
pub mod gf2;
pub mod gf2_256;
pub mod jump;
pub mod mix;
pub mod prng;
pub mod reproducibility;
pub mod simd;

verus! {
} // verus!
