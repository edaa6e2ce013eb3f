use rand_triplemix::avx2::{mix7x3_avx2, mul_lo_hi_interleaved_avx2};

#[test]
fn interleaved_products_land_where_the_blends_put_them() {
    let a = [u32::MAX, 2, 0x8000_0000, 4, 5, 6, 0x1234_5678, 8];
    let b = [u32::MAX, 20, 4, 40, 50, 60, 0x1000, 80];
    let (lo, hi) = mul_lo_hi_interleaved_avx2(a, b);
    assert_eq!(lo, [0, 0, 160, 2, 0, 0x4567_8000, 640, 0x123]);
    assert_eq!(hi, [0xffff_fffe, 0, 2, 0, 0, 0, 0x123, 0]);
}

#[test]
fn mix7x3_known_answers() {
    let zeros = [0u32; 8];
    let (a, b, c) = mix7x3_avx2(zeros, zeros, zeros, zeros, zeros, zeros, zeros);
    assert_eq!(a, [0x93e9e8cf, 0x7ce80b11, 0xd5b540ad, 0x611d87ff, 0x93e9e8cf, 0x7ce80b11, 0xd5b540ad, 0x611d87ff]);
    assert_eq!(b, [0xf6569781, 0x124a2707, 0x6948da5f, 0xf9b90e9b, 0xf6569781, 0x124a2707, 0x6948da5f, 0xf9b90e9b]);
    assert_eq!(c, [0xad1debcd, 0xe71a5f57, 0x351722b7, 0xb303045b, 0xad1debcd, 0xe71a5f57, 0x351722b7, 0xb303045b]);
    let x: Vec<[u32; 8]> = (0..7u32)
        .map(|j| std::array::from_fn(|i| (j * 8 + i as u32).wrapping_mul(0x0101_0101)))
        .collect();
    let (a, b, c) = mix7x3_avx2(x[0], x[1], x[2], x[3], x[4], x[5], x[6]);
    assert_eq!(a, [0x48c12c37, 0xd5d8bc43, 0x70c52854, 0x4bf1bad5, 0x6f783ff1, 0x8301ddc0, 0x18eb36cc, 0x58065069]);
    assert_eq!(b, [0x27cd1212, 0xac8c8fe9, 0x08c717ad, 0xbf1e2882, 0xbd0c7413, 0xdfb2b2ea, 0xd0851697, 0xc98b8292]);
    assert_eq!(c, [0x5dd1846a, 0x76459bd1, 0x88346d8e, 0x52b93ad3, 0xfe69b033, 0x43fe951f, 0x282473a6, 0xd864c283]);
}
