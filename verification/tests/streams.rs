use rand_triplemix::generate::BLOCK_SIZE;
use rand_triplemix::prng::TripleMixPrng;
use rand_triplemix::reproducibility::{DefaultReproducibility, NotReproducible, Reproducibility};

/// Generators spread over the state space: the all-but-zero state carried forward by
/// different distances.
fn create_rngs<R: Reproducibility>(count: usize) -> Vec<TripleMixPrng<R>> {
    let mut rngs = Vec::with_capacity(count);
    for i in 0..count {
        let mut prng = TripleMixPrng::<R>::almost_all_zeroes_state();
        let distance = (i as u128) * 0x9e37_79b9_7f4a_7c15_f39c_c060_5ced_c835 + (i as u128);
        prng.advance(distance);
        rngs.push(prng);
    }
    rngs
}

#[test]
fn test_fractional_spectral() {
    for mut rng in create_rngs::<NotReproducible>(2) {
        const N: usize = 1 << 21;

        let mut prev = rng.next_u64();
        let mut min_gap = f64::MAX;

        for _ in 0..N {
            let curr = rng.next_u64();
            let diff = (curr.wrapping_sub(prev) as f64).abs();
            if diff < min_gap {
                min_gap = diff;
            }
            prev = curr;
        }

        assert!(min_gap > 1.0, "Spectral lattice behavior suspected");
    }
}

#[test]
fn test_jump_ahead_miri_xslow() {
    const ITERATIONS_AFTER_LEAP: usize = 10_000;
    const BASIC_ADVANCE_BLOCKS: u128 = 12;

    for mut prng in create_rngs::<DefaultReproducibility>(7) {
        let prng_large_jmp = prng.clone();
        let mut prng_jmp = prng.clone();

        // Advance sequentially by 12 steps (12 blocks of next_u64 calls)
        for _ in 0..BASIC_ADVANCE_BLOCKS {
            for _ in 0..BLOCK_SIZE {
                prng.next_u64();
            }
        }

        // Advance by jumping BASIC_ADVANCE_BLOCKS steps
        prng_jmp.advance(BASIC_ADVANCE_BLOCKS);
        prng.discard_buffer();
        prng_jmp.discard_buffer();

        for _ in 0..BLOCK_SIZE {
            assert_eq!(prng.next_u64(), prng_jmp.next_u64());
        }

        let prng = prng_large_jmp.clone();

        // advance_2_128 agrees with advance
        let mut base_a_for_2_128 = prng.clone();
        base_a_for_2_128.advance(1u128 << 127);
        base_a_for_2_128.advance(1u128 << 127);
        let mut base_b_for_2_128 = prng.clone();
        base_b_for_2_128.advance(1);
        base_b_for_2_128.advance(u128::MAX);

        let mut prng_2_128 = prng.clone();
        prng_2_128.advance_2_128(1);

        println!("base_a_for_2_128={:?}", base_a_for_2_128);
        println!("base_b_for_2_128={:?}", base_b_for_2_128);
        println!("prng_2_128={:?}", prng_2_128);

        for _ in 0..ITERATIONS_AFTER_LEAP {
            let prng_2_128_u64 = prng_2_128.next_u64();
            assert_eq!(base_a_for_2_128.next_u64(), prng_2_128_u64);
            assert_eq!(base_b_for_2_128.next_u64(), prng_2_128_u64);
        }

        // advance_2_256 agrees with advance_2_128
        let mut base_a_for_2_256 = prng.clone();
        base_a_for_2_256.advance_2_128(1u128 << 127);
        base_a_for_2_256.advance_2_128(1u128 << 127);
        let mut base_b_for_2_256 = prng.clone();
        base_b_for_2_256.advance_2_128(1u128 << 127);
        base_b_for_2_256.advance_2_128(1u128 << 127);

        let mut prng_2_256 = prng.clone();
        prng_2_256.advance_2_256(1);

        for _ in 0..ITERATIONS_AFTER_LEAP {
            let prng_2_256_u64 = prng_2_256.next_u64();
            assert_eq!(base_a_for_2_256.next_u64(), prng_2_256_u64);
            assert_eq!(base_b_for_2_256.next_u64(), prng_2_256_u64);
        }
    }
}

#[test]
fn test_double_differential() {
    for mut rng in create_rngs::<NotReproducible>(2) {
        const N: usize = 1 << 21;

        let mut x = vec![0u64; N];
        rng.fill_bytes(bytemuck::cast_slice_mut(&mut x));

        // first difference
        for i in 0..N - 1 {
            x[i] ^= x[i + 1];
        }

        // second difference
        for i in 0..N - 2 {
            x[i] ^= x[i + 2];
        }

        // check bit bias
        let ones = x.iter().map(|v| v.count_ones() as u64).sum::<u64>();
        let total_bits = (N as u64) * 64;
        let bias = (ones as f64 / total_bits as f64) - 0.5;

        assert!(bias.abs() < 1e-3, "Differential bias detected: {}", bias);
    }
}

fn gf2_rank(mut rows: [u64; 64]) -> u32 {
    let mut rank = 0;
    for col in (0..64).rev() {
        if let Some(pivot) = (rank..64).find(|&r| (rows[r] >> col) & 1 == 1) {
            rows.swap(rank, pivot);
            for r in 0..64 {
                if r != rank && ((rows[r] >> col) & 1) == 1 {
                    rows[r] ^= rows[rank];
                }
            }
            rank += 1;
        }
    }
    rank.try_into().unwrap()
}

#[test]
fn test_lowbit_rank() {
    const N: usize = 10000;

    for mut rng in create_rngs::<NotReproducible>(2) {
        let mut rank60_count = 0;

        for _ in 0..N {
            let mut matrix = [0u64; 64];
            rng.fill_bytes(bytemuck::cast_slice_mut(&mut matrix));
            let rank = gf2_rank(matrix);
            assert!(rank >= 60, "Low-bit rank deficiency: {}", rank);
            if rank == 60 {
                rank60_count += 1;
                assert!(rank60_count <= 2, "Too many low-bit rank deficiencies (rank 60)");
            }
        }
    }
}
