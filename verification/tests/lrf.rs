//! The box sums of the self-guided filter against plain scalar code.

use rand::Rng;
use wasm_kernels::arch::u32x4;
use wasm_kernels::cpu_features::CpuFeatureLevel;
use wasm_kernels::lrf::{
    sgrproj_box_ab_r1, sgrproj_box_ab_r2, sgrproj_box_ab_simd, sgrproj_box_f_r0, sgrproj_box_f_r1,
    sgrproj_box_f_r2, sgrproj_sum_finish_scalar, sgrproj_sum_finish_simd,
};
use wasm_kernels::plane::PlaneRegion;

struct Images {
    samples: Vec<u64>,
    iimg: Vec<u32>,
    iimg_sq: Vec<u32>,
    stride: usize,
}

/// A picture and the integral images of its samples and their squares.
fn images(w: usize, h: usize, top: u64) -> Images {
    let mut rng = rand::rng();
    let samples: Vec<u64> = (0..w * h).map(|_| rng.random_range(0..top)).collect();
    let stride = w + 1;
    let mut iimg = vec![0u32; stride * (h + 1)];
    let mut iimg_sq = vec![0u32; stride * (h + 1)];
    for y in 0..h {
        for x in 0..w {
            let v = samples[y * w + x] as u32;
            for (image, value) in [(&mut iimg, v), (&mut iimg_sq, v.wrapping_mul(v))] {
                image[(y + 1) * stride + x + 1] = value
                    .wrapping_add(image[y * stride + x + 1])
                    .wrapping_add(image[(y + 1) * stride + x])
                    .wrapping_sub(image[y * stride + x]);
            }
        }
    }
    Images { samples, iimg, iimg_sq, stride }
}

fn reference(images: &Images, x: usize, y: usize, r: usize, s: u64, bd: u32) -> (u32, u32) {
    let d = 2 * r + 1;
    let n = (d * d) as u64;
    let w = images.stride - 1;
    let (mut sum, mut ssq) = (0u64, 0u64);
    for j in y..y + d {
        for i in x..x + d {
            let v = images.samples[j * w + i];
            sum += v;
            ssq += v * v;
        }
    }
    let k = bd - 8;
    let scaled_ssq = (ssq + ((1 << (2 * k)) >> 1)) >> (2 * k);
    let scaled_sum = (sum + ((1 << k) >> 1)) >> k;
    let p = (scaled_ssq * n).saturating_sub(scaled_sum * scaled_sum);
    let z = (p * s + (1 << 19)) >> 20;
    let a = if z >= 255 {
        256
    } else if z == 0 {
        1
    } else {
        ((z << 8) + z / 2) / (z + 1)
    };
    let one_over_n = if r == 1 { 455 } else { 164 };
    let b = ((256 - a) * sum * one_over_n + (1 << 11)) >> 12;
    (a as u32, b as u32)
}

#[test]
fn boxes_of_eight_bits() {
    let images = images(40, 9, 256);
    for (y, stripe_w) in [(0, 32), (2, 29), (4, 3)] {
        let mut af = vec![7u32; 40];
        let mut bf = vec![7u32; 40];
        for s in [140u32, 1, 30] {
            sgrproj_box_ab_r1::<8>(
                &mut af, &mut bf, &images.iimg, &images.iimg_sq, images.stride, y, stripe_w, s,
                CpuFeatureLevel::SIMD128,
            );
            for x in 0..stripe_w + 2 {
                assert_eq!((af[x], bf[x]), reference(&images, x, y, 1, s as u64, 8));
            }
            sgrproj_box_ab_r2::<8>(
                &mut af, &mut bf, &images.iimg, &images.iimg_sq, images.stride, y, stripe_w, s,
                CpuFeatureLevel::RUST,
            );
            for x in 0..stripe_w + 2 {
                assert_eq!((af[x], bf[x]), reference(&images, x, y, 2, s as u64, 8));
            }
        }
        assert_eq!(&af[stripe_w + 2..], &vec![7u32; 38 - stripe_w][..]);
    }
}

#[test]
fn boxes_of_ten_bits() {
    let images = images(24, 6, 1024);
    let mut af = vec![0u32; 18];
    let mut bf = vec![0u32; 18];
    sgrproj_box_ab_r2::<10>(
        &mut af, &mut bf, &images.iimg, &images.iimg_sq, images.stride, 1, 16, 12,
        CpuFeatureLevel::SIMD128,
    );
    for x in 0..18 {
        assert_eq!((af[x], bf[x]), reference(&images, x, 1, 2, 12, 10));
    }
}

#[test]
fn boxes_from_a_column_on() {
    let images = images(40, 9, 256);
    for r in [1usize, 2] {
        for start_x in [0usize, 1, 5, 17, 18] {
            let mut af = vec![7u32; 20];
            let mut bf = vec![8u32; 20];
            sgrproj_box_ab_simd::<8>(
                r, &mut af, &mut bf, &images.iimg, &images.iimg_sq, images.stride, start_x, 2, 16,
                30,
            );
            for x in 0..20 {
                let want = if (start_x..18).contains(&x) {
                    reference(&images, x, 2, r, 30, 8)
                } else {
                    (7, 8)
                };
                assert_eq!((af[x], bf[x]), want);
            }
        }
    }
}

#[test]
fn lanes_are_finished_as_single_boxes() {
    let ssq = [9 * 25u32, 40_000, 123_456, 585_225];
    let sum = [9 * 5u32, 300, 999, 2295];
    let (a, b) = sgrproj_sum_finish_simd::<8>(
        u32x4(ssq[0], ssq[1], ssq[2], ssq[3]),
        u32x4(sum[0], sum[1], sum[2], sum[3]),
        9,
        455,
        140,
    );
    let lanes: Vec<(u32, u32)> =
        (0..4).map(|k| sgrproj_sum_finish_scalar::<8>(ssq[k], sum[k], 9, 455, 140)).collect();
    assert_eq!(a, u32x4(lanes[0].0, lanes[1].0, lanes[2].0, lanes[3].0));
    assert_eq!(b, u32x4(lanes[0].1, lanes[1].1, lanes[2].1, lanes[3].1));
    assert_eq!(lanes[0], (1, (255 * 45 * 455 + 2048) >> 12));
    assert!(lanes.iter().all(|&(a, _)| (1..=256).contains(&a)));
}

#[test]
fn integral_images_may_wrap() {
    // A flat picture of fives. The corners wrap around zero; the sum over a box is 9 times 5.
    let stride = 5;
    let offset = u32::MAX - 20;
    let mut iimg = vec![0u32; 20];
    let mut iimg_sq = vec![0u32; 20];
    for y in 0..4 {
        for x in 0..5 {
            iimg[y * stride + x] = offset.wrapping_add((x * y * 5) as u32);
            iimg_sq[y * stride + x] = offset.wrapping_add((x * y * 25) as u32);
        }
    }
    let (mut af, mut bf) = (vec![0u32; 2], vec![0u32; 2]);
    let cpu = CpuFeatureLevel::SIMD128;
    sgrproj_box_ab_r1::<8>(&mut af, &mut bf, &iimg, &iimg_sq, stride, 0, 0, 140, cpu);
    assert_eq!(af, [1, 1]);
    assert_eq!(bf, [(255 * 45 * 455 + 2048) >> 12; 2]);
}

#[test]
fn the_reciprocal_need_only_fit_the_product() {
    // With the largest weight nothing is left for the product.
    let (a, b) = sgrproj_sum_finish_scalar::<8>(1 << 20, 0, 9, u32::MAX, 140);
    assert_eq!((a, b), (256, 0));
    let (a, b) = sgrproj_sum_finish_scalar::<8>(0, 3, 9, u32::MAX, 140);
    assert_eq!((a, b), (1, (((255u64 * 3 * u32::MAX as u64) + 2048) >> 12) as u32));
}

#[test]
fn filtered_rows_are_stored() {
    let data = [5u16, 6, 7, 8];
    let cdeffed = PlaneRegion { data: &data[..], stride: 2, origin: 3 };
    let (simd, rust) = (CpuFeatureLevel::SIMD128, CpuFeatureLevel::RUST);
    let mut f = vec![9u32; 5];
    sgrproj_box_f_r0(&mut f, 3, 4, &cdeffed, simd, |y, w, c, cpu| {
        assert_eq!((c.data[c.origin], cpu), (8, simd));
        vec![y as u32; w]
    });
    assert_eq!(f, [3, 3, 3, 3, 9]);
    let (one, two) = ([1u32], [2u32]);
    let (af, bf) = ([&one[..], &two[..], &two[..]], [&two[..], &one[..], &one[..]]);
    sgrproj_box_f_r1(&af, &bf, &mut f, 2, 3, &cdeffed, rust, |a, b, y, w, c, cpu| {
        assert_eq!((c.data[c.origin], cpu), (8, rust));
        vec![100 * a[2][0] + 10 * b[0][0] + y as u32; w]
    });
    assert_eq!(f, [222, 222, 222, 3, 9]);
    let mut g = vec![0u32; 2];
    let (af, bf) = ([&one[..], &two[..]], [&two[..], &one[..]]);
    sgrproj_box_f_r2(&af, &bf, &mut f, &mut g, 1, 2, &cdeffed, simd, |a, b, y, w, c, cpu| {
        assert_eq!((y, c.data[c.origin], cpu), (1, 8, simd));
        (vec![a[0][0]; w], vec![b[0][0] + 5; w])
    });
    assert_eq!(f, [1, 1, 222, 3, 9]);
    assert_eq!(g, [7, 7]);
}
