//! Motion compensation against plain scalar code.

use rand::Rng;
use wasm_kernels::arch::i32x4;
use wasm_kernels::cpu_features::CpuFeatureLevel;
use wasm_kernels::mc::{
    filter_8tap_horiz_8, get_filter, mc_avg, prep_8tap, put_8tap, FilterMode, SUBPEL_FILTERS,
};
use wasm_kernels::plane::{PlaneRegion, PlaneRegionMut};

fn reference(t1: i16, t2: i16, bit_depth: usize) -> u16 {
    let bits = if bit_depth == 12 { 2 } else { 4 };
    let bias = if bit_depth == 8 { 0 } else { 16384 };
    let sum = t1 as i32 + t2 as i32 + bias;
    ((sum + (1 << bits)) >> (bits + 1)).clamp(0, (1 << bit_depth) - 1) as u16
}

#[test]
fn test_mc_avg_8bit() {
    let mut rng = rand::rng();

    for &(width, height) in &[(4, 4), (8, 8), (16, 16), (32, 32)] {
        let tmp1: Vec<i16> =
            (0..width * height).map(|_| rng.random_range(-2048..2048)).collect();
        let tmp2: Vec<i16> =
            (0..width * height).map(|_| rng.random_range(-2048..2048)).collect();

        let mut dst = vec![0u8; width * height];
        let mut region = PlaneRegionMut { data: &mut dst, stride: width, origin: 0 };
        mc_avg(&mut region, &tmp1, &tmp2, width, height, 8, CpuFeatureLevel::SIMD128);

        for r in 0..height {
            for c in 0..width {
                let at = r * width + c;
                assert_eq!(
                    reference(tmp1[at], tmp2[at], 8),
                    dst[at] as u16,
                    "Mismatch at ({}, {}) for {}x{}",
                    c, r, width, height
                );
            }
        }
    }
}

#[test]
fn test_mc_avg_10bit() {
    let mut rng = rand::rng();

    for &(width, height) in &[(4, 4), (8, 8), (16, 16)] {
        let tmp1: Vec<i16> =
            (0..width * height).map(|_| rng.random_range(-8192..8192)).collect();
        let tmp2: Vec<i16> =
            (0..width * height).map(|_| rng.random_range(-8192..8192)).collect();

        let mut dst = vec![0u16; width * height];
        let mut region = PlaneRegionMut { data: &mut dst, stride: width, origin: 0 };
        mc_avg(&mut region, &tmp1, &tmp2, width, height, 10, CpuFeatureLevel::RUST);

        for r in 0..height {
            for c in 0..width {
                let at = r * width + c;
                assert_eq!(
                    reference(tmp1[at], tmp2[at], 10),
                    dst[at],
                    "Mismatch at ({}, {}) for {}x{} 10-bit",
                    c, r, width, height
                );
            }
        }
    }
}

#[test]
fn averages_of_extreme_predictions() {
    let tmp1 = [i16::MAX, i16::MIN, 0, 8];
    let tmp2 = [i16::MAX, i16::MIN, 0, 8];
    let mut dst = [1u8; 6];
    let mut region = PlaneRegionMut { data: &mut dst, stride: 3, origin: 1 };
    mc_avg(&mut region, &tmp1, &tmp2, 2, 2, 8, CpuFeatureLevel::SIMD128);
    assert_eq!(dst, [1, 255, 0, 1, 0, 1]);
    let mut wide = [1u16; 4];
    let mut region = PlaneRegionMut { data: &mut wide, stride: 2, origin: 0 };
    mc_avg(&mut region, &tmp1, &tmp2, 2, 2, 12, CpuFeatureLevel::SIMD128);
    assert_eq!(wide, [4095, 0, 2048, 2050]);
}

#[test]
fn the_order_of_predictions_does_not_matter() {
    let tmp1: Vec<i16> = (0..16).map(|i| i * 100).collect();
    let tmp2: Vec<i16> = (0..16).map(|i| 3000 - i * 50).collect();
    let (mut a, mut b) = (vec![0u8; 16], vec![0u8; 16]);
    let cpu = CpuFeatureLevel::SIMD128;
    let mut region = PlaneRegionMut { data: &mut a, stride: 4, origin: 0 };
    mc_avg(&mut region, &tmp1, &tmp2, 4, 4, 8, cpu);
    let mut region = PlaneRegionMut { data: &mut b, stride: 4, origin: 0 };
    mc_avg(&mut region, &tmp2, &tmp1, 4, 4, 8, cpu);
    assert_eq!(a, b);
}

#[test]
fn filters_by_mode() {
    assert_eq!(get_filter(FilterMode::REGULAR, 0, 8), [0, 0, 0, 128, 0, 0, 0, 0]);
    assert_eq!(get_filter(FilterMode::REGULAR, 1, 8), [0, 2, -6, 126, 8, -2, 0, 0]);
    assert_eq!(get_filter(FilterMode::SHARP, 8, 16), [-4, 12, -24, 80, 80, -24, 12, -4]);
    // Small blocks have shorter filters, but for the bilinear ones.
    assert_eq!(get_filter(FilterMode::REGULAR, 1, 4), [0, 0, -4, 126, 8, -2, 0, 0]);
    assert_eq!(get_filter(FilterMode::SMOOTH, 1, 4), [0, 0, 30, 62, 34, 2, 0, 0]);
    assert_eq!(get_filter(FilterMode::SHARP, 1, 2), [0, 0, 30, 62, 34, 2, 0, 0]);
    assert_eq!(get_filter(FilterMode::BILINEAR, 4, 4), [0, 0, 0, 96, 32, 0, 0, 0]);
    assert_eq!(get_filter(FilterMode::SWITCHABLE, 2, 8), SUBPEL_FILTERS[4][2]);
}

#[test]
fn taps_add_up() {
    for table in SUBPEL_FILTERS {
        for taps in table {
            assert_eq!(taps.iter().sum::<i32>(), 128);
        }
    }
}

#[test]
fn filters_mirror_each_other() {
    let modes =
        [FilterMode::REGULAR, FilterMode::SMOOTH, FilterMode::SHARP, FilterMode::BILINEAR];
    for mode in modes {
        for length in [2, 4, 8, 64] {
            assert_eq!(get_filter(mode, 0, length), [0, 0, 0, 128, 0, 0, 0, 0]);
            for frac in 1..16 {
                let mut opposite = get_filter(mode, 16 - frac, length);
                opposite.reverse();
                assert_eq!(get_filter(mode, frac, length), opposite);
            }
        }
    }
}

#[test]
fn horizontal_filter() {
    let src: Vec<u8> = (0..15).map(|i| i * 10).collect();
    let (lo, hi) = filter_8tap_horiz_8(&src, &[0, 0, 0, 128, 0, 0, 0, 0]);
    assert_eq!(lo, i32x4(128 * 30, 128 * 40, 128 * 50, 128 * 60));
    assert_eq!(hi, i32x4(128 * 70, 128 * 80, 128 * 90, 128 * 100));
    let flat = [200u8; 15];
    let (lo, _) = filter_8tap_horiz_8(&flat, &get_filter(FilterMode::SHARP, 5, 8));
    assert_eq!(lo, i32x4(25600, 25600, 25600, 25600));
}

#[test]
fn interpolated_blocks_are_stored() {
    let data: Vec<u8> = (0..20).collect();
    let src = PlaneRegion { data: &data, stride: 5, origin: 6 };
    let mut dst = vec![9u8; 12];
    let mut region = PlaneRegionMut { data: &mut dst, stride: 4, origin: 1 };
    put_8tap(
        &mut region,
        &src,
        2,
        2,
        3,
        5,
        FilterMode::REGULAR,
        FilterMode::SMOOTH,
        8,
        CpuFeatureLevel::SIMD128,
        |src, w, h, cf, rf, mx, my, bd, cpu| {
            assert_eq!((w, h, cf, rf, bd, cpu), (2, 2, 3, 5, 8, CpuFeatureLevel::SIMD128));
            assert_eq!((mx, my), (FilterMode::REGULAR, FilterMode::SMOOTH));
            let mut out = src.row(0, 2).to_vec();
            out.extend_from_slice(src.row(1, 2));
            out
        },
    );
    assert_eq!(dst, [9, 6, 7, 9, 9, 11, 12, 9, 9, 9, 9, 9]);
    let mut tmp = vec![0i16; 5];
    prep_8tap(
        &mut tmp,
        &src,
        2,
        2,
        0,
        0,
        FilterMode::SHARP,
        FilterMode::SHARP,
        10,
        CpuFeatureLevel::RUST,
        |src, w, h, _, _, _, _, _, cpu| {
            assert_eq!(cpu, CpuFeatureLevel::RUST);
            vec![-(src.data[src.origin] as i16); w * h]
        },
    );
    assert_eq!(tmp, [-6, -6, -6, -6, 0]);
}
