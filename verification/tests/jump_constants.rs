use rand_triplemix::generate::TripleMixSimdCore;
use rand_triplemix::gf2::pow_mat_2_exp;
use rand_triplemix::gf2_256::pow_mat_256_2_exp;
use rand_triplemix::reproducibility::DefaultReproducibility;

type Core = TripleMixSimdCore<DefaultReproducibility>;

#[test]
fn test_add128_with_carry_comprehensive() {
    let zero = [0u64; 4];
    let one = [1u64; 4];
    let mask = [u64::MAX; 4];
    let almost_max = [u64::MAX - 1; 4];
    let max = [u64::MAX; 4];

    // Basic addition without carry
    let (sum, c) = Core::add128_with_carry(one, one, zero);
    assert_eq!(sum[0], 2);
    assert_eq!(c[0], 0);

    // Addition with carry-in
    let (sum, c) = Core::add128_with_carry(one, one, mask);
    assert_eq!(sum[0], 3);
    assert_eq!(c[0], 0);

    // Addition that causes carry-out
    let (sum, c) = Core::add128_with_carry(max, one, zero);
    assert_eq!(sum[0], 0);
    assert_eq!(c[0], u64::MAX);

    // Addition that causes carry-out via carry-in
    let (sum, c) = Core::add128_with_carry(almost_max, one, mask);
    assert_eq!(sum[0], 0);
    assert_eq!(c[0], u64::MAX);

    // Adding two max values with carry-in: mask is effectively +1
    let (sum, c) = Core::add128_with_carry(max, max, mask);
    assert_eq!(sum[0], u64::MAX);
    assert_eq!(c[0], u64::MAX);
}

#[test]
fn test_jump_ahead_constants_miri_slow() {
    assert_eq!(
        Core::tinymt_jump_128_mat(),
        pow_mat_2_exp(Core::tinymt_jump_mat(), 128)
    );
    assert_eq!(
        Core::tinymt_jump_256_mat(),
        pow_mat_2_exp(Core::tinymt_jump_mat(), 256)
    );
    assert_eq!(
        Core::xoshiro256_jump_128_mat(),
        pow_mat_256_2_exp(Core::xoshiro256_jump_mat(), 128)
    );
    // 2^256 is 1 modulo 2^256 - 1, so M^(2^256) should equal M^1
    assert_eq!(Core::xoshiro256_jump_256_mat(), Core::xoshiro256_jump_mat());
}

#[test]
fn tinymt_period_holds() {
    assert!(rand_triplemix::jump::check_tinymt_period());
}

#[test]
fn xoshiro_period_holds() {
    assert!(rand_triplemix::jump::check_xoshiro_period());
}
