use rand::RngExt;
use rand_triplemix::generate::TripleMixSimdCore;
use rand_triplemix::reproducibility::DefaultReproducibility;

const SIMD_WIDTH: usize = 4;
const MIX_INPUTS: usize = 7;
const MIX_OUTPUTS: usize = 3;
const MIX_INPUT_U64S: usize = SIMD_WIDTH * MIX_INPUTS + 1;
const RANDOM_INPUT_ITERATIONS: usize = 10;

type Lanes = [u64; 4];

fn mix_from_flat_array(mix_input: [u64; MIX_INPUT_U64S]) -> (Lanes, Lanes, Lanes) {
    let lanes = |k: usize| -> Lanes {
        [mix_input[4 * k], mix_input[4 * k + 1], mix_input[4 * k + 2], mix_input[4 * k + 3]]
    };
    TripleMixSimdCore::<DefaultReproducibility>::mix(
        lanes(0),
        lanes(1),
        lanes(2),
        lanes(3),
        lanes(4),
        lanes(5),
        lanes(6),
        mix_input[28],
    )
}

fn xor_weight(a: Lanes, b: Lanes) -> u64 {
    let mut w = 0u64;
    for i in 0..4 {
        w += (a[i] ^ b[i]).count_ones() as u64;
    }
    w
}

struct SecondDerivativeStats {
    min: u64,
    max: u64,
    mean: f64,
    stdev: f64,
}

fn evaluate_second_order_derivatives(mix_input: [u64; MIX_INPUT_U64S]) -> SecondDerivativeStats {
    let (base_out0, base_out1, base_out2) = mix_from_flat_array(mix_input);
    let mut weights = Vec::new();
    for var_idx_1 in 0..MIX_INPUTS {
        for var_idx_2 in var_idx_1..MIX_INPUTS {
            for lane_idx_1 in 0..SIMD_WIDTH {
                if var_idx_1 == 8 && lane_idx_1 > 0 {
                    break;
                }
                for lane_idx_2 in lane_idx_1..SIMD_WIDTH {
                    if var_idx_2 == 8 && lane_idx_2 > 0 {
                        break;
                    }
                    if lane_idx_1 == lane_idx_2 && var_idx_1 == var_idx_2 {
                        for bit_idx_1 in 0..63 {
                            for bit_idx_2 in bit_idx_1..64 {
                                let mut modified_input = mix_input;
                                modified_input[var_idx_1 * 4 + lane_idx_1] ^=
                                    1 << bit_idx_1 | 1 << bit_idx_2;
                                let (o0, o1, o2) = mix_from_flat_array(modified_input);
                                let weight = xor_weight(o0, base_out0)
                                    + xor_weight(o1, base_out1)
                                    + xor_weight(o2, base_out2);
                                weights.push(weight);
                            }
                        }
                    } else {
                        for bit_idx in 0..64 {
                            let mut modified_input = mix_input;
                            modified_input[var_idx_1 * 4 + lane_idx_1] ^= 1 << bit_idx;
                            modified_input[var_idx_2 * 4 + lane_idx_2] ^= 1 << bit_idx;
                            let (o0, o1, o2) = mix_from_flat_array(modified_input);
                            let weight = xor_weight(o0, base_out0)
                                + xor_weight(o1, base_out1)
                                + xor_weight(o2, base_out2);
                            weights.push(weight);
                        }
                    }
                }
            }
        }
    }
    let sample_size = weights.len();
    let min = weights.iter().copied().min().unwrap();
    let max = weights.iter().copied().max().unwrap();
    let mean = weights.iter().copied().sum::<u64>() as f64 / sample_size as f64;
    let variance_weight = weights
        .iter()
        .copied()
        .map(|weight| weight as f64 - mean)
        .map(|x| x * x)
        .sum::<f64>()
        / (sample_size - 1) as f64;
    let stdev = variance_weight.sqrt();
    println!("N={sample_size}, min={min}, max={max}, mean={mean}, sd={stdev}");
    SecondDerivativeStats { min, max, mean, stdev }
}

#[test]
fn test_second_derivative_random_inputs() {
    let mut rng = rand::rng();
    let mut random_inputs = [0u64; MIX_INPUT_U64S];
    for _ in 0..RANDOM_INPUT_ITERATIONS {
        rng.fill(&mut random_inputs[..]);
        let SecondDerivativeStats { min, max, mean, stdev } =
            evaluate_second_order_derivatives(random_inputs);
        assert!(min >= (MIX_OUTPUTS as u64 * 96), "Min weight {min} too low");
        assert!(max <= (MIX_OUTPUTS as u64 * 160), "Max weight {max} too high");
        assert!(mean >= (MIX_OUTPUTS as f64 * 127.0), "Mean weight {mean:.02} too low");
        assert!(mean <= (MIX_OUTPUTS as f64 * 129.0), "Mean weight {mean:.02} too high");
        assert!(stdev >= 11.0, "Stdev weight {stdev:.02} too low");
        assert!(stdev <= 14.1, "Stdev weight {stdev:.02} too high");
    }
}
