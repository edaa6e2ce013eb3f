use rand_triplemix::bytes::{le_bytes_u128, le_bytes_u64, le_words_as_bytes, native_is_little_endian};
use rand_triplemix::generate::{TripleMixSimdCore, BLOCK_SIZE};
use rand_triplemix::jump::{mul_mod, simd_wrapping_mul, WEYL_JUMP_2_128, WEYL_JUMP_2_256};
use rand_triplemix::prng::TripleMixPrng;
use rand_triplemix::reproducibility::{
    ByteLayout, CrossPlatform, NotReproducible, Reproducibility, SameEndianness,
};

fn machine_is_little_endian() -> bool {
    u16::from_ne_bytes([1, 0]) == 1
}

/// The little-endian byte stream of the next words of `prng`, `len` bytes long.
fn expected_stream<R: Reproducibility>(prng: &mut TripleMixPrng<R>, len: usize) -> Vec<u8> {
    let mut out = Vec::new();
    while out.len() < len {
        let w = prng.next_u64();
        for b in w.to_le_bytes() {
            if out.len() < len {
                out.push(b);
            }
        }
    }
    out
}

#[test]
fn next_u32_folds_the_next_u64() {
    let mut a = TripleMixPrng::<NotReproducible>::almost_all_zeroes_state();
    let mut b = a.clone();
    for _ in 0..40 {
        let x = a.next_u64();
        assert_eq!(b.next_u32(), ((x >> 32) ^ x) as u32);
    }
}

#[test]
fn advance_by_twelve_equals_twelve_blocks() {
    let mut stepped = TripleMixPrng::<NotReproducible>::almost_all_zeroes_state();
    let mut jumped = stepped.clone();
    for _ in 0..12 * BLOCK_SIZE {
        stepped.next_u64();
    }
    jumped.advance(12);
    for _ in 0..100 {
        assert_eq!(stepped.next_u64(), jumped.next_u64());
    }
}

#[test]
fn advance_discards_the_buffer() {
    let mut a = TripleMixPrng::<NotReproducible>::almost_all_zeroes_state();
    a.next_u64();
    assert_eq!(a.remaining_results().len(), BLOCK_SIZE - 1);
    a.advance(3);
    assert_eq!(a.remaining_results().len(), 0);
    let mut b = TripleMixPrng::<NotReproducible>::almost_all_zeroes_state();
    for _ in 0..4 * BLOCK_SIZE {
        b.next_u64();
    }
    assert_eq!(a.next_u64(), b.next_u64());
}

#[test]
fn advance_zero_changes_nothing_but_the_buffer() {
    let mut a = TripleMixPrng::<NotReproducible>::almost_all_zeroes_state();
    let mut b = a.clone();
    a.advance(0);
    for _ in 0..30 {
        assert_eq!(a.next_u64(), b.next_u64());
    }
}

#[test]
fn advances_add_up() {
    let mut a = TripleMixPrng::<NotReproducible>::almost_all_zeroes_state();
    let mut b = a.clone();
    a.advance(1_000_003);
    a.advance(77);
    b.advance(1_000_080);
    assert_eq!(a.core_copy().to_state_words(), b.core_copy().to_state_words());
    for _ in 0..50 {
        assert_eq!(a.next_u64(), b.next_u64());
    }
}

#[test]
fn advance_after_partly_used_block_is_the_buffered_words_and_whole_blocks() {
    let mut jumped = TripleMixPrng::<NotReproducible>::almost_all_zeroes_state();
    for _ in 0..5 {
        jumped.next_u64();
    }
    let mut stepped = jumped.clone();
    let buffered = jumped.remaining_results().len();
    assert_eq!(buffered, BLOCK_SIZE - 5);
    for _ in 0..buffered + 4 * BLOCK_SIZE {
        stepped.next_u64();
    }
    jumped.advance(4);
    assert_eq!(stepped.remaining_results().len(), 0);
    assert_eq!(jumped.core_copy().to_state_words(), stepped.core_copy().to_state_words());
}

#[test]
fn remaining_results_round_trip() {
    let mut a = TripleMixPrng::<NotReproducible>::almost_all_zeroes_state();
    for _ in 0..5 {
        a.next_u64();
    }
    let remaining = a.remaining_results();
    assert_eq!(remaining.len(), BLOCK_SIZE - 5);
    let mut rebuilt = TripleMixPrng::reconstruct(a.core_copy(), &remaining).unwrap();
    for _ in 0..30 {
        assert_eq!(a.next_u64(), rebuilt.next_u64());
    }
}

#[test]
fn reconstruct_refuses_a_full_block() {
    let core = TripleMixSimdCore::<NotReproducible>::almost_all_zeroes_core();
    assert!(TripleMixPrng::reconstruct(core.clone(), &[0u64; BLOCK_SIZE]).is_none());
    assert!(TripleMixPrng::reconstruct(core.clone(), &[0u64; BLOCK_SIZE + 3]).is_none());
    let mut p = TripleMixPrng::reconstruct(core.clone(), &[7, 8, 9]).unwrap();
    assert_eq!(p.remaining_results(), vec![7, 8, 9]);
    assert_eq!(p.next_u64(), 7);
    assert_eq!(p.next_u64(), 8);
    assert_eq!(p.next_u64(), 9);
    let mut q = TripleMixPrng::<NotReproducible>::almost_all_zeroes_state();
    assert_eq!(p.next_u64(), q.next_u64());
}

#[test]
fn from_core_and_remaining_falls_back_to_an_empty_buffer() {
    let core = TripleMixSimdCore::<NotReproducible>::almost_all_zeroes_core();
    let mut p = TripleMixPrng::from_core_and_remaining(core.clone(), &[1u64; BLOCK_SIZE]);
    assert_eq!(p.remaining_results().len(), 0);
    let mut q = TripleMixPrng::<NotReproducible>::almost_all_zeroes_state();
    assert_eq!(p.next_u64(), q.next_u64());
    let mut r = TripleMixPrng::from_core_and_remaining(core, &[42u64]);
    assert_eq!(r.next_u64(), 42);
}

#[test]
fn cross_platform_fill_is_the_little_endian_stream() {
    for offset in 0..8 {
        for len in 0..41 {
            let mut prng = TripleMixPrng::<CrossPlatform>::almost_all_zeroes_state();
            prng.next_u64();
            let mut reference = prng.clone();
            let mut buffer = vec![0xAAu8; 64];
            prng.fill_bytes(&mut buffer[offset..offset + len]);
            let expected = expected_stream(&mut reference, len);
            assert_eq!(&buffer[offset..offset + len], &expected[..]);
            assert!(buffer[..offset].iter().all(|b| *b == 0xAA));
            assert!(buffer[offset + len..].iter().all(|b| *b == 0xAA));
            // One word is used per started eight bytes.
            assert_eq!(prng.next_u64(), reference.next_u64());
        }
    }
}

#[test]
fn same_endianness_state_depends_only_on_length() {
    for offset in 0..8 {
        let len = 37;
        let mut prng = TripleMixPrng::<SameEndianness>::almost_all_zeroes_state();
        let mut reference = prng.clone();
        let mut buffer = vec![0u8; 64];
        prng.fill_bytes(&mut buffer[offset..offset + len]);
        let expected = expected_stream(&mut reference, len);
        if machine_is_little_endian() {
            assert_eq!(&buffer[offset..offset + len], &expected[..]);
        }
        assert_eq!(prng.next_u64(), reference.next_u64());
    }
}

#[test]
fn split_layout_with_given_alignment() {
    // Three prefix bytes from word 0, two whole big-endian words 1 and 2, then the
    // rest from word 3.
    let mut prng = TripleMixPrng::<NotReproducible>::almost_all_zeroes_state();
    let mut reference = prng.clone();
    let words: Vec<u64> = (0..5).map(|_| reference.next_u64()).collect();
    let mut bytes = [0u8; 24];
    prng.fill_bytes_with_layout(&mut bytes, 3, 2, false);
    assert_eq!(&bytes[0..3], &words[0].to_le_bytes()[0..3]);
    assert_eq!(&bytes[3..11], &words[1].to_be_bytes()[..]);
    assert_eq!(&bytes[11..19], &words[2].to_be_bytes()[..]);
    assert_eq!(&bytes[19..24], &words[3].to_le_bytes()[0..5]);
    assert_eq!(prng.next_u64(), words[4]);
}

#[test]
fn split_layout_without_whole_words_is_the_stream() {
    let mut prng = TripleMixPrng::<NotReproducible>::almost_all_zeroes_state();
    let mut reference = prng.clone();
    let mut bytes = [0u8; 7];
    prng.fill_bytes_with_layout(&mut bytes, 3, 0, true);
    let expected = expected_stream(&mut reference, 7);
    assert_eq!(&bytes[..], &expected[..]);
    assert_eq!(prng.next_u64(), reference.next_u64());
}

#[test]
fn aligned_words_only_ignores_the_alignment() {
    // Whole big-endian words from the start of the slice, then the little-endian bytes
    // of the next word, whatever the prefix length and word count given.
    for (prefix, words) in [(0usize, 3usize), (5, 3), (3, 0), (7, 2)] {
        let mut prng = TripleMixPrng::<SameEndianness>::almost_all_zeroes_state();
        let mut reference = prng.clone();
        let w: Vec<u64> = (0..5).map(|_| reference.next_u64()).collect();
        let mut bytes = [0u8; 30];
        prng.fill_bytes_with_layout(&mut bytes, prefix, words, false);
        assert_eq!(&bytes[0..8], &w[0].to_be_bytes()[..]);
        assert_eq!(&bytes[8..16], &w[1].to_be_bytes()[..]);
        assert_eq!(&bytes[16..24], &w[2].to_be_bytes()[..]);
        assert_eq!(&bytes[24..30], &w[3].to_le_bytes()[0..6]);
        assert_eq!(prng.next_u64(), w[4]);
    }
}

#[test]
fn same_endianness_bytes_do_not_depend_on_alignment() {
    let mut first: Option<Vec<u8>> = None;
    for offset in 0..8 {
        let mut prng = TripleMixPrng::<SameEndianness>::almost_all_zeroes_state();
        let mut buffer = vec![0u8; 64];
        prng.fill_bytes(&mut buffer[offset..offset + 37]);
        let out = buffer[offset..offset + 37].to_vec();
        match &first {
            None => first = Some(out),
            Some(f) => assert_eq!(f, &out),
        }
    }
}

#[test]
fn fill_words_spans_several_blocks() {
    // 100 whole words: the buffered ones, whole blocks straight from the core, and a
    // tail from a new block.
    let mut prng = TripleMixPrng::<NotReproducible>::almost_all_zeroes_state();
    prng.next_u64();
    prng.next_u64();
    let mut reference = prng.clone();
    let mut bytes = vec![0u8; 800];
    prng.fill_bytes_with_layout(&mut bytes, 0, 100, true);
    let expected = expected_stream(&mut reference, 800);
    assert_eq!(bytes, expected);
    assert_eq!(prng.next_u64(), reference.next_u64());
}

#[test]
fn byte_layouts_of_the_levels() {
    assert_eq!(NotReproducible::byte_layout(), ByteLayout::SplitAtAlignment);
    assert_eq!(SameEndianness::byte_layout(), ByteLayout::AlignedWordsOnly);
    assert_eq!(CrossPlatform::byte_layout(), ByteLayout::LittleEndianStream);
}

#[test]
fn word_bytes_per_level() {
    let x = 0x0102_0304_0506_0708u64;
    let y = 0x1112_1314_1516_1718_191a_1b1c_1d1e_1f20u128;
    assert_eq!(CrossPlatform::u64_as_bytes(x), x.to_le_bytes());
    assert_eq!(NotReproducible::u64_as_bytes(x), x.to_ne_bytes());
    assert_eq!(SameEndianness::u64_as_bytes(x), x.to_ne_bytes());
    assert_eq!(CrossPlatform::u128_as_bytes(y), y.to_le_bytes());
    assert_eq!(NotReproducible::u128_as_bytes(y), y.to_ne_bytes());
    let words = [x, 7u64];
    let mut le = Vec::new();
    le.extend_from_slice(&x.to_le_bytes());
    le.extend_from_slice(&7u64.to_le_bytes());
    let mut ne = Vec::new();
    ne.extend_from_slice(&x.to_ne_bytes());
    ne.extend_from_slice(&7u64.to_ne_bytes());
    assert_eq!(CrossPlatform::cast_u64_slice_as_u8(&words), le);
    assert_eq!(NotReproducible::cast_u64_slice_as_u8(&words), ne);
    assert_eq!(le_bytes_u64(x), x.to_le_bytes());
    assert_eq!(le_bytes_u128(y), y.to_le_bytes());
    assert_eq!(le_words_as_bytes(&words), le);
    assert_eq!(native_is_little_endian(), machine_is_little_endian());
}

#[test]
fn mul_mod_values() {
    assert_eq!(mul_mod(3, 5, 7), 1);
    assert_eq!(mul_mod(0, 5, 7), 0);
    assert_eq!(mul_mod(u128::MAX, u128::MAX, 1_000_000_007), {
        let r = u128::MAX % 1_000_000_007;
        (r * r) % 1_000_000_007
    });
    let m = (1u128 << 127) - 1;
    assert_eq!(mul_mod(1u128 << 126, 4, m), 2);
    assert_eq!(mul_mod(10, 10, 1), 0);
}

#[test]
fn lane_products() {
    let a = [3u64, u64::MAX, 1 << 63, 12345];
    let b = [5u64, 2, 2, 0];
    assert_eq!(simd_wrapping_mul(a, b), [15, u64::MAX - 1, 0, 0]);
    let (lo, hi) = TripleMixSimdCore::<NotReproducible>::simd_mulsmall(
        [u64::MAX, 1 << 40, 7, 0],
        [0xffff_ffff, 1 << 30, 6, 99],
    );
    for (i, (x, y)) in [(u64::MAX, 0xffff_ffffu64), (1 << 40, 1 << 30), (7, 6), (0, 99)]
        .iter()
        .enumerate()
    {
        let p = (*x as u128) * (*y as u128);
        assert_eq!(lo[i], p as u64);
        assert_eq!(hi[i], (p >> 64) as u64);
    }
}

#[test]
fn weyl_jump_constants() {
    let m = 0xffff_ffff_ffff_ffc5u128;
    let two_64 = (1u128 << 64) % m;
    assert_eq!(two_64, 59);
    let two_128 = (two_64 * two_64) % m;
    assert_eq!(WEYL_JUMP_2_128 as u128, two_128);
    assert_eq!(WEYL_JUMP_2_256 as u128, (two_128 * two_128) % m);
}

#[test]
fn zeroized_generators_agree() {
    let mut a = TripleMixPrng::<NotReproducible>::almost_all_zeroes_state();
    let mut b = a.clone();
    a.next_u64();
    a.zeroize();
    b.advance(5);
    b.zeroize();
    assert_eq!(a.remaining_results().len(), 0);
    for _ in 0..20 {
        assert_eq!(a.next_u64(), b.next_u64());
    }
}

#[test]
fn mix_is_deterministic_and_sensitive() {
    type Core = TripleMixSimdCore<NotReproducible>;
    let x = [1u64, 2, 3, 4];
    let r1 = Core::mix(x, x, x, x, x, x, x, 5);
    let r2 = Core::mix(x, x, x, x, x, x, x, 5);
    assert_eq!(r1, r2);
    let r3 = Core::mix(x, x, x, x, x, x, x, 6);
    assert_ne!(r1, r3);
}

#[test]
fn fill_blocks_matches_the_stream() {
    let mut core = TripleMixSimdCore::<NotReproducible>::almost_all_zeroes_core();
    let mut blocks = [[0u64; BLOCK_SIZE]; 3];
    core.fill_blocks(&mut blocks);
    let mut prng = TripleMixPrng::<NotReproducible>::almost_all_zeroes_state();
    for block in blocks.iter() {
        for w in block.iter() {
            assert_eq!(*w, prng.next_u64());
        }
    }
    let mut next = [[0u64; BLOCK_SIZE]; 1];
    core.fill_blocks(&mut next);
    assert_eq!(next[0][0], prng.next_u64());
}

#[test]
fn state_words_round_trip() {
    let mut prng = TripleMixPrng::<NotReproducible>::almost_all_zeroes_state();
    prng.advance(12345);
    let (words, weyl) = prng.core_copy().to_state_words();
    assert_eq!(weyl, 12345);
    let core = TripleMixSimdCore::<NotReproducible>::from_state_words(words, weyl);
    assert_eq!(core.to_state_words(), (words, weyl));
    let mut rebuilt = TripleMixPrng::from_core_and_remaining(core, &[]);
    for _ in 0..30 {
        assert_eq!(prng.next_u64(), rebuilt.next_u64());
    }
}

#[test]
fn almost_all_zeroes_state_words() {
    let (words, weyl) = TripleMixSimdCore::<NotReproducible>::almost_all_zeroes_core().to_state_words();
    assert_eq!(words[0], [0; 4]);
    assert_eq!(words[2], [3, 5, 7, 9]);
    assert_eq!(words[5], [3, 5, 7, 9]);
    assert_eq!(words[6], [3, 5, 7, 9]);
    assert_eq!(words[8], [0, 0, 0, 1]);
    assert_eq!(weyl, 0);
}

#[test]
fn big_jumps_match_advances_word_for_word() {
    let mut base = TripleMixPrng::<NotReproducible>::almost_all_zeroes_state();
    base.advance(987_654_321);
    let (start_words, _) = base.core_copy().to_state_words();
    let mut jumped = base.clone();
    jumped.advance_2_128(1);
    let mut stepped = base.clone();
    stepped.advance(1u128 << 127);
    stepped.advance(1u128 << 127);
    let (jw, jweyl) = jumped.core_copy().to_state_words();
    let (sw, sweyl) = stepped.core_copy().to_state_words();
    assert_eq!(jw, sw);
    assert_eq!(jweyl, sweyl);
    // 2^128 steps bring every PCG lane back to where it was.
    assert_eq!(jw[0], start_words[0]);
    assert_eq!(jw[1], start_words[1]);
    let mut far = base.clone();
    far.advance_2_256(1);
    let mut near = base.clone();
    near.advance_2_128(1u128 << 127);
    near.advance_2_128(1u128 << 127);
    assert_eq!(far.core_copy().to_state_words(), near.core_copy().to_state_words());
}

#[test]
fn weyl_counter_moves_with_advance() {
    let m = 0xffff_ffff_ffff_ffc5u128;
    let mut p = TripleMixPrng::<NotReproducible>::almost_all_zeroes_state();
    p.advance(u128::MAX);
    let (_, weyl) = p.core_copy().to_state_words();
    assert_eq!(weyl as u128, u128::MAX % m);
    let mut q = TripleMixPrng::<NotReproducible>::almost_all_zeroes_state();
    q.advance_2_128(3);
    let (_, weyl) = q.core_copy().to_state_words();
    assert_eq!(weyl as u128, (3481 * 3) % m);
}

#[test]
fn word_by_word_output_leaves_the_core_of_advance() {
    let mut stepped = TripleMixPrng::<NotReproducible>::almost_all_zeroes_state();
    let mut jumped = stepped.clone();
    for _ in 0..5 * BLOCK_SIZE {
        stepped.next_u64();
    }
    assert_eq!(stepped.remaining_results().len(), 0);
    jumped.advance(5);
    let (sw, sweyl) = stepped.core_copy().to_state_words();
    let (jw, jweyl) = jumped.core_copy().to_state_words();
    assert_eq!(sw, jw);
    assert_eq!(sweyl, 5);
    assert_eq!(jweyl, 5);
    // One more word steps the core and leaves the rest of its block buffered.
    stepped.next_u64();
    assert_eq!(stepped.remaining_results().len(), BLOCK_SIZE - 1);
}

#[test]
fn byte_fill_leaves_the_state_of_word_by_word_output() {
    let mut filled = TripleMixPrng::<NotReproducible>::almost_all_zeroes_state();
    filled.next_u64();
    let mut reference = filled.clone();
    let mut bytes = vec![0u8; 8 * 40];
    filled.fill_bytes_with_layout(&mut bytes, 0, 40, true);
    for _ in 0..40 {
        reference.next_u64();
    }
    assert_eq!(filled.remaining_results(), reference.remaining_results());
    assert_eq!(filled.core_copy().to_state_words(), reference.core_copy().to_state_words());
}

#[test]
fn stepped_states_stay_on_the_cycles() {
    let multipliers: [u128; 4] = [
        0xffff_ffff_ffff_fd1a,
        0xffff_ffff_ffff_ea3c,
        0xffff_ffff_ffff_fa68,
        0xffff_ffff_ffff_fbac,
    ];
    let mut prng = TripleMixPrng::<NotReproducible>::almost_all_zeroes_state();
    for round in 0..50 {
        prng.advance(round * 7919 + 1);
        let (w, weyl) = prng.core_copy().to_state_words();
        assert!(weyl < 0xffff_ffff_ffff_ffc5);
        for i in 0..4 {
            let a = multipliers[i];
            let v = a * (w[6][i] as u128) + w[7][i] as u128;
            assert!(0 < v && v < (a << 64) - 1);
            assert!((w[7][i] as u128) < a);
            assert!(!((w[4][i] & 0x7fff_ffff_ffff_ffff) == 0 && w[5][i] == 0));
        }
        assert_ne!(w[8], [0u64; 4]);
    }
}

#[test]
fn weyl_counter_steps_once_per_block_and_wraps() {
    let m: u64 = 0xffff_ffff_ffff_ffc5;
    let (words, _) = TripleMixSimdCore::<NotReproducible>::almost_all_zeroes_core().to_state_words();
    let mut core = TripleMixSimdCore::<NotReproducible>::from_state_words(words, m - 2);
    let mut blocks = [[0u64; BLOCK_SIZE]; 1];
    core.fill_blocks(&mut blocks);
    assert_eq!(core.to_state_words().1, m - 1);
    core.fill_blocks(&mut blocks);
    assert_eq!(core.to_state_words().1, 0);
    let mut three = [[0u64; BLOCK_SIZE]; 3];
    core.fill_blocks(&mut three);
    assert_eq!(core.to_state_words().1, 3);
}

#[test]
fn mix_separates_lanes_with_equal_inputs() {
    type Core = TripleMixSimdCore<NotReproducible>;
    for v in [0u64, 1, 0x0123_4567_89ab_cdef, u64::MAX] {
        let x = [v; 4];
        for scalar in [0u64, 7] {
            let (a, b, c) = Core::mix(x, x, x, x, x, x, x, scalar);
            for out in [a, b, c] {
                for i in 0..4 {
                    for j in i + 1..4 {
                        assert_ne!(out[i], out[j], "lanes {i} and {j} of {out:?}");
                    }
                }
            }
        }
    }
}

#[test]
fn pcg_lanes_do_not_return_after_half_their_period() {
    let base = TripleMixPrng::<NotReproducible>::almost_all_zeroes_state();
    let (start, _) = base.core_copy().to_state_words();
    let mut half = base.clone();
    half.advance(1u128 << 127);
    let (w, _) = half.core_copy().to_state_words();
    for i in 0..4 {
        assert!(w[0][i] != start[0][i] || w[1][i] != start[1][i], "lane {i}");
    }
    let mut full = base.clone();
    full.advance(1u128 << 127);
    full.advance(1u128 << 127);
    let (w, _) = full.core_copy().to_state_words();
    assert_eq!(w[0], start[0]);
    assert_eq!(w[1], start[1]);
}
