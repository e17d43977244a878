//! Distortion measures against plain scalar code.

use rand::Rng;
use wasm_kernels::cpu_features::CpuFeatureLevel;
use wasm_kernels::dist::cdef_dist::cdef_dist_kernel_simd128;
use wasm_kernels::dist::satd::hadamard8_1d;
use wasm_kernels::dist::{cdef_dist_kernel, get_sad, get_satd, get_weighted_sse};
use wasm_kernels::plane::PlaneRegion;

fn whole<T>(data: &[T], width: usize) -> PlaneRegion<'_, T> {
    PlaneRegion { data, stride: width, origin: 0 }
}

fn scalar_sad(src: &[i64], dst: &[i64]) -> u32 {
    src.iter().zip(dst).map(|(s, d)| (s - d).unsigned_abs() as u32).sum()
}

/// The Hadamard coefficients of one row or column.
fn hadamard(x: &[i64]) -> Vec<i64> {
    (0..x.len())
        .map(|i| {
            (0..x.len())
                .map(|j| if (i & j).count_ones() % 2 == 1 { -x[j] } else { x[j] })
                .sum()
        })
        .collect()
}

fn scalar_satd(src: &[i64], dst: &[i64], w: usize, h: usize) -> u32 {
    let size = w.min(h).min(8);
    let mut total = 0;
    for y0 in (0..h).step_by(size) {
        for x0 in (0..w).step_by(size) {
            let rows: Vec<Vec<i64>> = (0..size)
                .map(|y| {
                    let line: Vec<i64> = (0..size)
                        .map(|x| {
                            let at = (y0 + y) * w + x0 + x;
                            src[at] - dst[at]
                        })
                        .collect();
                    hadamard(&line)
                })
                .collect();
            let mut sum = 0;
            for x in 0..size {
                let column: Vec<i64> = (0..size).map(|y| rows[y][x]).collect();
                sum += hadamard(&column).iter().map(|c| c.unsigned_abs()).sum::<u64>();
            }
            total += (sum + size as u64 / 2) / size as u64;
        }
    }
    total as u32
}

fn random_u8(n: usize) -> Vec<u8> {
    let mut rng = rand::rng();
    (0..n).map(|_| rng.random()).collect()
}

fn random_u16(n: usize, mask: u16) -> Vec<u16> {
    let mut rng = rand::rng();
    (0..n).map(|_| rng.random::<u16>() & mask).collect()
}

fn wide<T: Copy + Into<i64>>(x: &[T]) -> Vec<i64> {
    x.iter().map(|&v| v.into()).collect()
}

fn test_sad_size(width: usize, height: usize) {
    let src = random_u8(width * height);
    let dst = random_u8(width * height);
    let expected = scalar_sad(&wide(&src), &wide(&dst));
    for cpu in CpuFeatureLevel::all() {
        let got = get_sad(&whole(&src, width), &whole(&dst, width), width, height, 8, cpu);
        assert_eq!(got, expected, "SAD mismatch for {}x{}", width, height);
    }
}

fn test_satd_size(width: usize, height: usize) {
    let src = random_u8(width * height);
    let dst = random_u8(width * height);
    let expected = scalar_satd(&wide(&src), &wide(&dst), width, height);
    for cpu in CpuFeatureLevel::all() {
        let got = get_satd(&whole(&src, width), &whole(&dst, width), width, height, 8, cpu);
        assert_eq!(got, expected, "SATD mismatch for {}x{}", width, height);
    }
}

fn test_sad_hbd_size(width: usize, height: usize) {
    let src = random_u16(width * height, 0x3FF);
    let dst = random_u16(width * height, 0x3FF);
    let expected = scalar_sad(&wide(&src), &wide(&dst));
    for cpu in CpuFeatureLevel::all() {
        let got = get_sad(&whole(&src, width), &whole(&dst, width), width, height, 10, cpu);
        assert_eq!(got, expected, "SAD HBD mismatch for {}x{}", width, height);
    }
}

#[test]
fn test_sad_4x4() {
    test_sad_size(4, 4);
}

#[test]
fn test_sad_8x8() {
    test_sad_size(8, 8);
}

#[test]
fn test_sad_16x16() {
    test_sad_size(16, 16);
}

#[test]
fn test_sad_32x32() {
    test_sad_size(32, 32);
}

#[test]
fn test_sad_4x8() {
    test_sad_size(4, 8);
}

#[test]
fn test_sad_8x4() {
    test_sad_size(8, 4);
}

#[test]
fn test_sad_8x16() {
    test_sad_size(8, 16);
}

#[test]
fn test_sad_16x8() {
    test_sad_size(16, 8);
}

#[test]
fn test_sad_16x32() {
    test_sad_size(16, 32);
}

#[test]
fn test_sad_32x16() {
    test_sad_size(32, 16);
}

#[test]
fn test_sad_4x16() {
    test_sad_size(4, 16);
}

#[test]
fn test_sad_16x4() {
    test_sad_size(16, 4);
}

#[test]
fn test_satd_4x4() {
    test_satd_size(4, 4);
}

#[test]
fn test_satd_8x8() {
    test_satd_size(8, 8);
}

#[test]
fn test_satd_16x16() {
    test_satd_size(16, 16);
}

#[test]
fn test_satd_4x8() {
    test_satd_size(4, 8);
}

#[test]
fn test_satd_8x4() {
    test_satd_size(8, 4);
}

#[test]
fn test_satd_8x16() {
    test_satd_size(8, 16);
}

#[test]
fn test_satd_16x8() {
    test_satd_size(16, 8);
}

#[test]
fn test_sad_hbd_8x8() {
    test_sad_hbd_size(8, 8);
}

#[test]
fn test_sad_hbd_8x4() {
    test_sad_hbd_size(8, 4);
}

#[test]
fn test_sad_hbd_4x8() {
    test_sad_hbd_size(4, 8);
}

#[test]
fn test_sad_hbd_16x8() {
    test_sad_hbd_size(16, 8);
}

#[test]
fn test_sad_hbd_8x16() {
    test_sad_hbd_size(8, 16);
}

#[test]
fn satd_of_high_bit_depth() {
    for (w, h) in [(4, 4), (8, 8), (16, 8), (4, 16)] {
        let src = random_u16(w * h, 0xFFF);
        let dst = random_u16(w * h, 0xFFF);
        let expected = scalar_satd(&wide(&src), &wide(&dst), w, h);
        let got = get_satd(&whole(&src, w), &whole(&dst, w), w, h, 12, CpuFeatureLevel::SIMD128);
        assert_eq!(got, expected);
    }
}

#[test]
fn equal_blocks_have_no_distance() {
    let src = random_u8(64 * 64);
    let region = whole(&src, 64);
    assert_eq!(get_sad(&region, &region, 64, 64, 8, CpuFeatureLevel::SIMD128), 0);
    assert_eq!(get_satd(&region, &region, 64, 64, 8, CpuFeatureLevel::SIMD128), 0);
}

#[test]
fn the_transform_undoes_itself() {
    let top = 1 << 24;
    for x in [[1, 2, 3, 4, 5, 6, 7, 8], [-top; 8], [top, -3, 0, 99, -top, 7, 1, -1]] {
        let t = hadamard8_1d(&x);
        assert_eq!(t[0], x.iter().sum::<i32>());
        assert_eq!(hadamard8_1d(&t), x.map(|v| 8 * v));
    }
}

#[test]
fn one_difference_is_never_lost() {
    for (w, h) in [(4usize, 4usize), (8, 8), (16, 8), (9, 11), (4, 12), (5, 3)] {
        let src = random_u8(w * h);
        for at in [0, w - 1, w * h / 2, w * h - 1] {
            let mut dst = src.clone();
            dst[at] = dst[at].wrapping_add(128);
            let d = src[at].abs_diff(dst[at]) as u32;
            let satd =
                get_satd(&whole(&src, w), &whole(&dst, w), w, h, 8, CpuFeatureLevel::SIMD128);
            assert!(satd >= d);
            if w % 8 == 0 && h % 8 == 0 {
                assert!(satd >= 8 * d);
            }
        }
    }
}

#[test]
fn storage_does_not_change_distances() {
    let cpu = CpuFeatureLevel::SIMD128;
    let scale = vec![20_000u32; 64];
    for (w, h) in [(4usize, 4usize), (8, 8), (16, 24), (9, 11), (3, 7)] {
        let (a, b) = (random_u8(w * h), random_u8(w * h));
        let a16: Vec<u16> = a.iter().map(|&v| v as u16).collect();
        let b16: Vec<u16> = b.iter().map(|&v| v as u16).collect();
        let (s, d) = (whole(&a, w), whole(&b, w));
        let (s16, d16) = (whole(&a16, w), whole(&b16, w));
        assert_eq!(get_sad(&s, &d, w, h, 8, cpu), get_sad(&s16, &d16, w, h, 8, cpu));
        assert_eq!(get_satd(&s, &d, w, h, 8, cpu), get_satd(&s16, &d16, w, h, 8, cpu));
        assert_eq!(
            get_weighted_sse(&s, &d, &scale, 8, w, h, 8, cpu),
            get_weighted_sse(&s16, &d16, &scale, 8, w, h, 8, cpu)
        );
    }
}

#[test]
fn transformed_distance_adds_up_over_squares() {
    let cpu = CpuFeatureLevel::SIMD128;
    for (w, h, n) in [(16usize, 24usize, 8usize), (4, 16, 4)] {
        let (src, dst) = (random_u8(w * h), random_u8(w * h));
        let mut total = 0;
        for y in (0..h).step_by(n) {
            for x in (0..w).step_by(n) {
                let origin = y * w + x;
                let s = PlaneRegion { data: &src[..], stride: w, origin };
                let d = PlaneRegion { data: &dst[..], stride: w, origin };
                total += get_satd(&s, &d, n, n, 8, cpu);
            }
        }
        assert_eq!(get_satd(&whole(&src, w), &whole(&dst, w), w, h, 8, cpu), total);
    }
}

#[test]
fn distance_is_symmetric() {
    let a = random_u8(32 * 16);
    let b = random_u8(32 * 16);
    let (ra, rb) = (whole(&a, 32), whole(&b, 32));
    let cpu = CpuFeatureLevel::SIMD128;
    assert_eq!(get_sad(&ra, &rb, 32, 16, 8, cpu), get_sad(&rb, &ra, 32, 16, 8, cpu));
    assert_eq!(get_satd(&ra, &rb, 32, 16, 8, cpu), get_satd(&rb, &ra, 32, 16, 8, cpu));
}

#[test]
fn known_distances() {
    let a = [10u8; 16];
    let mut b = [10u8; 16];
    b[0] = 14;
    let (ra, rb) = (whole(&a, 4), whole(&b, 4));
    assert_eq!(get_sad(&ra, &rb, 4, 4, 8, CpuFeatureLevel::SIMD128), 4);
    // Every one of the sixteen coefficients is 4 or -4: (64 + 2) / 4.
    assert_eq!(get_satd(&ra, &rb, 4, 4, 8, CpuFeatureLevel::SIMD128), 16);
}

#[test]
fn blocks_of_no_standard_size() {
    let a = random_u8(7 * 5);
    let b = random_u8(7 * 5);
    let (ra, rb) = (whole(&a, 7), whole(&b, 7));
    let expected = scalar_sad(&wide(&a), &wide(&b));
    assert_eq!(get_sad(&ra, &rb, 7, 5, 8, CpuFeatureLevel::SIMD128), expected);
    assert_eq!(get_sad(&ra, &rb, 0, 5, 8, CpuFeatureLevel::SIMD128), 0);
}

#[test]
fn windows_are_read_with_their_stride() {
    let a = random_u8(40 * 12);
    let b = random_u8(24 * 12);
    let ra = PlaneRegion { data: &a, stride: 40, origin: 45 };
    let rb = PlaneRegion { data: &b, stride: 24, origin: 3 };
    let mut expected = 0u32;
    for y in 0..8 {
        for x in 0..16 {
            expected += a[45 + y * 40 + x].abs_diff(b[3 + y * 24 + x]) as u32;
        }
    }
    assert_eq!(get_sad(&ra, &rb, 16, 8, 8, CpuFeatureLevel::SIMD128), expected);
}

fn reference_weighted_sse(
    src: &[i64],
    dst: &[i64],
    scale: &[u32],
    scale_stride: usize,
    w: usize,
    h: usize,
) -> u64 {
    let mut total = 0u64;
    for y0 in (0..h).step_by(4) {
        for x0 in (0..w).step_by(4) {
            let mut sse = 0u64;
            for y in y0..(y0 + 4).min(h) {
                for x in x0..x0 + 4 {
                    let d = src[y * w + x] - dst[y * w + x];
                    sse += (d * d) as u64;
                }
            }
            total += (sse * scale[y0 / 4 * scale_stride + x0 / 4] as u64 + 128) >> 8;
        }
    }
    (total + 32) / 64
}

#[test]
fn weighted_sse_of_eight_bits() {
    let mut rng = rand::rng();
    for (w, h) in [(4, 4), (8, 8), (16, 4), (32, 16), (64, 64), (8, 6)] {
        let src = random_u8(w * h);
        let dst = random_u8(w * h);
        let scale_stride = w / 4 + 3;
        let scale: Vec<u32> =
            (0..scale_stride * (h / 4 + 1)).map(|_| rng.random_range(0..1 << 20)).collect();
        let expected =
            reference_weighted_sse(&wide(&src), &wide(&dst), &scale, scale_stride, w, h);
        for cpu in CpuFeatureLevel::all() {
            let got = get_weighted_sse(
                &whole(&src, w),
                &whole(&dst, w),
                &scale,
                scale_stride,
                w,
                h,
                8,
                cpu,
            );
            assert_eq!(got, expected, "weighted SSE mismatch for {}x{}", w, h);
        }
    }
}

#[test]
fn weighted_sse_of_high_bit_depth() {
    let (w, h) = (16, 8);
    let src = random_u16(w * h, 0xFFFF);
    let dst = random_u16(w * h, 0xFFFF);
    let scale = vec![1 << 14; 8];
    let expected = reference_weighted_sse(&wide(&src), &wide(&dst), &scale, 4, w, h);
    let cpu = CpuFeatureLevel::SIMD128;
    assert_eq!(get_weighted_sse(&whole(&src, w), &whole(&dst, w), &scale, 4, w, h, 12, cpu), expected);
    assert_eq!(get_weighted_sse(&whole(&src, w), &whole(&src, w), &scale, 4, w, h, 12, cpu), 0);
    assert_eq!(get_weighted_sse(&whole(&dst, w), &whole(&src, w), &scale, 4, w, h, 12, cpu), expected);
}

#[test]
fn a_weight_of_one_counts_once() {
    let src = [10u8; 16];
    let mut dst = [10u8; 16];
    dst[5] = 13;
    let cpu = CpuFeatureLevel::SIMD128;
    assert_eq!(get_weighted_sse(&whole(&src, 4), &whole(&dst, 4), &[1 << 14], 1, 4, 4, 8, cpu), 9);
    assert_eq!(get_weighted_sse(&whole(&src, 4), &whole(&dst, 4), &[1 << 15], 1, 4, 4, 8, cpu), 18);
}

#[test]
fn columns_that_are_left_are_weighted_alone() {
    let src = [10u8; 5];
    let dst = [10u8, 10, 10, 10, 12];
    // The fifth column has the second weight.
    let cpu = CpuFeatureLevel::SIMD128;
    let got = get_weighted_sse(&whole(&src, 5), &whole(&dst, 5), &[0, 1 << 14], 2, 5, 1, 8, cpu);
    assert_eq!(got, 4);
}

const AREA_DIVISORS: [u64; 64] = [
    16384, 8192, 5461, 4096, 3277, 2731, 2341, 2048, 1820, 1638, 1489, 1365, 1260, 1170, 1092,
    1024, 964, 910, 862, 819, 780, 745, 712, 683, 655, 630, 607, 585, 565, 546, 529, 512, 496, 482,
    468, 455, 443, 431, 420, 410, 400, 390, 381, 372, 364, 356, 349, 341, 334, 328, 321, 315, 309,
    303, 298, 293, 287, 282, 278, 273, 269, 264, 260, 256,
];

fn reference_variance(v: &[i64]) -> u32 {
    let div = AREA_DIVISORS[v.len() - 1];
    let sum = v.iter().sum::<i64>() as u64;
    let squares = v.iter().map(|x| (x * x) as u64).sum::<u64>() as u32;
    let var = squares.saturating_sub(((sum * sum * div + (1 << 13)) >> 14) as u32);
    ((var as u64 * div + (1 << 7)) >> 8) as u32
}

#[test]
fn moments_of_small_blocks() {
    for w in 1..=8 {
        for h in 1..=8 {
            let src = random_u8(w * h);
            let dst = random_u8(w * h);
            let (s, d) = (wide(&src), wide(&dst));
            let sse: i64 = s.iter().zip(&d).map(|(a, b)| (a - b) * (a - b)).sum();
            let got = cdef_dist_kernel_simd128(&whole(&src, w), &whole(&dst, w), w, h);
            assert_eq!(got, (reference_variance(&s), reference_variance(&d), sse as u32));
        }
    }
}

#[test]
fn moments_of_high_bit_depth() {
    let src = random_u16(64, 0xFFFF);
    let dst = random_u16(64, 0xFFF);
    let (s, d) = (wide(&src), wide(&dst));
    let sse: i64 = s.iter().zip(&d).map(|(a, b)| (a - b) * (a - b)).sum();
    let got = cdef_dist_kernel_simd128(&whole(&src, 8), &whole(&dst, 8), 8, 8);
    assert_eq!(got, (reference_variance(&s), reference_variance(&d), sse as u32));
}

#[test]
fn the_boost_is_handed_the_moments() {
    let src = [1u8, 2, 3, 4, 5, 6, 7, 8, 9, 10, 11, 12, 13, 14, 15, 16];
    let dst = [8u8; 16];
    let boost = |sse: u32, svar: u32, dvar: u32, bd: usize| {
        // Sixteen samples count as sixty-four.
        assert_eq!((sse, svar, dvar, bd), (344, 4 * 340, 0, 8));
        sse + svar
    };
    let cpu = CpuFeatureLevel::SIMD128;
    let got = cdef_dist_kernel(&whole(&src, 4), &whole(&dst, 4), 4, 4, 8, cpu, boost);
    assert_eq!(got, 344 + 1360);
}
