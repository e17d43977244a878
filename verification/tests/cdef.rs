//! The direction search and the filter against plain scalar code.

use rand::Rng;
use v_frame::plane::{Plane, PlaneOffset, PlaneSlice};
use wasm_kernels::arch::i32x4;
use wasm_kernels::cdef::{
    cdef_filter_block, cdef_find_dir, constrain_simd, CDEF_HAVE_ALL, CDEF_VERY_LARGE,
};
use wasm_kernels::cpu_features::CpuFeatureLevel;
use wasm_kernels::frame::{cdef_find_dir_slice, SliceGeometry};
use wasm_kernels::plane::{PlaneRegion, PlaneRegionMut};

fn geometry<T: v_frame::pixel::Pixel>(slice: &PlaneSlice<'_, T>) -> SliceGeometry {
    SliceGeometry {
        stride: slice.plane.cfg.stride,
        xorigin: slice.plane.cfg.xorigin,
        yorigin: slice.plane.cfg.yorigin,
        x: slice.x,
        y: slice.y,
    }
}

#[test]
fn test_cdef_find_dir() {
    // Basic smoke test
    let mut plane = Plane::<u8>::new(16, 16, 0, 0, 0, 0);

    // Fill with a simple gradient pattern
    for y in 0..16 {
        for x in 0..16 {
            let at = y * plane.cfg.stride + x;
            plane.data[at] = ((x + y) % 256) as u8;
        }
    }

    let slice = plane.slice(PlaneOffset { x: 4, y: 4 });
    let mut var: u32 = 0;
    let dir = cdef_find_dir_slice(
        &slice.plane.data,
        geometry(&slice),
        &mut var,
        0,
        CpuFeatureLevel::RUST,
    )
    .unwrap();

    // Direction should be in [0, 7]
    assert!(dir >= 0 && dir < 8);
    // The lines of the pattern run along its first diagonal.
    assert_eq!(dir, 0);
}

fn line(d: usize, i: usize, j: usize) -> usize {
    match d {
        0 => i + j,
        1 => i + j / 2,
        2 => i,
        3 => 3 + i - j / 2,
        4 => 7 + i - j,
        5 => 3 - i / 2 + j,
        6 => j,
        _ => i / 2 + j,
    }
}

/// The sum of the squares of the sums of the lines, each divided by the length of its line.
fn reference_dir(x: &dyn Fn(usize, usize) -> i64) -> (i32, u32) {
    let mut cost = [0i64; 8];
    for d in 0..8 {
        let mut sums = [0i64; 15];
        let mut lengths = [0i64; 15];
        for i in 0..8 {
            for j in 0..8 {
                sums[line(d, i, j)] += x(i, j);
                lengths[line(d, i, j)] += 1;
            }
        }
        for k in 0..15 {
            if lengths[k] > 0 {
                cost[d] += sums[k] * sums[k] * (840 / lengths[k]);
            }
        }
    }
    let mut best = 0;
    for d in 1..8 {
        if cost[d] > cost[best] {
            best = d;
        }
    }
    (best as i32, ((cost[best] - cost[(best + 4) % 8]) >> 10) as u32)
}

#[test]
fn directions_of_random_blocks() {
    let mut rng = rand::rng();
    for _ in 0..50 {
        let data: Vec<u8> = (0..20 * 20).map(|_| rng.random()).collect();
        let img = PlaneRegion { data: &data, stride: 20, origin: 43 };
        let expected = reference_dir(&|i, j| data[43 + 20 * i + j] as i64 - 128);
        for cpu in CpuFeatureLevel::all() {
            let mut var = 0;
            let dir = cdef_find_dir(&img, &mut var, 0, cpu);
            assert_eq!((dir, var), expected);
        }
    }
}

#[test]
fn directions_of_high_bit_depth() {
    let mut rng = rand::rng();
    let data: Vec<u16> = (0..64).map(|_| rng.random::<u16>() & 0x3FF).collect();
    let img = PlaneRegion { data: &data, stride: 8, origin: 0 };
    let expected = reference_dir(&|i, j| (data[8 * i + j] >> 2) as i64 - 128);
    let mut var = 0;
    let dir = cdef_find_dir(&img, &mut var, 2, CpuFeatureLevel::SIMD128);
    assert_eq!((dir, var), expected);
}

#[test]
fn a_flat_block_has_no_direction() {
    let data = [77u8; 64];
    let img = PlaneRegion { data: &data, stride: 8, origin: 0 };
    let mut var = 9;
    assert_eq!(cdef_find_dir(&img, &mut var, 0, CpuFeatureLevel::SIMD128), 0);
    assert_eq!(var, 0);
}

#[test]
fn horizontal_and_vertical_stripes() {
    let rows: Vec<u8> = (0..64).map(|k| if (k / 8) % 2 == 0 { 0 } else { 255 }).collect();
    let columns: Vec<u8> = (0..64).map(|k| if k % 2 == 0 { 0 } else { 255 }).collect();
    let mut var = 0;
    let cpu = CpuFeatureLevel::SIMD128;
    let img = PlaneRegion { data: &rows, stride: 8, origin: 0 };
    assert_eq!(cdef_find_dir(&img, &mut var, 0, cpu), 2);
    let img = PlaneRegion { data: &columns, stride: 8, origin: 0 };
    assert_eq!(cdef_find_dir(&img, &mut var, 0, cpu), 6);
    assert!(var > 0);
}

#[test]
fn slices_without_a_block() {
    let plane = Plane::<u8>::new(16, 16, 0, 0, 8, 8);
    let cpu = CpuFeatureLevel::SIMD128;
    let mut var = 5;
    let mut find = |x, y| {
        let slice = plane.slice(PlaneOffset { x, y });
        cdef_find_dir_slice(&slice.plane.data, geometry(&slice), &mut var, 0, cpu)
    };
    assert_eq!(find(0, 0), Some(0));
    assert_eq!(find(-8, -8), Some(0));
    assert_eq!(find(-1000, 0), None);
    assert_eq!(find(0, -9), None);
    assert_eq!(find(0, 1000), None);
    assert_eq!(find(1000, 0), None);
}

#[test]
fn slices_with_too_many_bits() {
    let data = [60_000u16; 64];
    let geometry = SliceGeometry { stride: 8, xorigin: 0, yorigin: 0, x: 0, y: 0 };
    let cpu = CpuFeatureLevel::SIMD128;
    let mut var = 5;
    assert_eq!(cdef_find_dir_slice(&data, geometry, &mut var, 0, cpu), None);
    assert_eq!(var, 5);
    assert_eq!(cdef_find_dir_slice(&data, geometry, &mut var, 8, cpu), Some(0));
}

const STEPS: [[(isize, isize); 2]; 8] = [
    [(-1, 1), (-2, 2)],
    [(0, 1), (-1, 2)],
    [(0, 1), (0, 2)],
    [(0, 1), (1, 2)],
    [(1, 1), (2, 2)],
    [(1, 0), (2, 1)],
    [(1, 0), (2, 0)],
    [(1, 0), (2, -1)],
];

fn constrain(diff: i32, threshold: i32, damping: i32) -> i32 {
    if threshold == 0 {
        return 0;
    }
    let shift = (damping - (31 - threshold.leading_zeros() as i32)).max(0);
    let magnitude = (threshold - (diff.abs() >> shift)).clamp(0, diff.abs());
    diff.signum() * magnitude
}

fn reference_filter(
    at: &dyn Fn(isize, isize) -> i32,
    y: isize,
    x: isize,
    pri: i32,
    sec: i32,
    dir: usize,
    damping: i32,
    bit_depth: usize,
) -> i32 {
    let center = at(y, x);
    let pri_taps = if (pri >> (bit_depth - 8)) & 1 == 0 { [4, 2] } else { [3, 3] };
    let sec_taps = [2, 1];
    let (mut sum, mut max, mut min) = (0, center, center);
    for k in 0..2 {
        let lines = [
            (dir, pri_taps[k], pri),
            ((dir + 2) % 8, sec_taps[k], sec),
            ((dir + 6) % 8, sec_taps[k], sec),
        ];
        for (d, tap, strength) in lines {
            let (dy, dx) = STEPS[d][k];
            for sign in [1, -1] {
                let p = at(y + sign * dy, x + sign * dx);
                sum += tap * constrain(p - center, strength, damping);
                if p != CDEF_VERY_LARGE as i32 {
                    max = max.max(p);
                }
                min = min.min(p);
            }
        }
    }
    let v = center + ((8 + sum - (sum < 0) as i32) >> 4);
    v.max(min).min(max)
}

fn check_filter(pri: i32, sec: i32, damping: i32, bit_depth: usize, xdec: usize, ydec: usize) {
    let mut rng = rand::rng();
    let stride = 13;
    let origin = 2 * stride + 2;
    let mut data: Vec<u16> =
        (0..stride * 13).map(|_| rng.random::<u16>() & ((1 << bit_depth) - 1)).collect();
    data[origin + 8 * stride + 3] = CDEF_VERY_LARGE;
    data[origin - stride + 1] = CDEF_VERY_LARGE;
    let input = PlaneRegion { data: &data, stride, origin };
    for dir in 0..8 {
        let mut out = vec![9999u16; 8 * 8];
        let mut dst = PlaneRegionMut { data: &mut out, stride: 8, origin: 0 };
        cdef_filter_block(
            &mut dst,
            &input,
            pri,
            sec,
            dir,
            damping,
            bit_depth,
            xdec,
            ydec,
            CDEF_HAVE_ALL,
            CpuFeatureLevel::SIMD128,
            |_, _, _, _, _, _, _, _, _, _| unreachable!(),
        );
        let at = |y: isize, x: isize| {
            data[(origin as isize + y * stride as isize + x) as usize] as i32
        };
        for y in 0..8 {
            for x in 0..8 {
                let want = if y < 8 >> ydec && x < 8 >> xdec {
                    let (r, c) = (y as isize, x as isize);
                    reference_filter(&at, r, c, pri, sec, dir, damping, bit_depth)
                } else {
                    9999
                };
                assert_eq!(out[y * 8 + x] as i32, want, "dir {} at ({}, {})", dir, x, y);
            }
        }
    }
}

#[test]
fn limited_differences_are_odd() {
    let diff = [5, 70_000, -3, i32::MAX];
    for (threshold, shift, tap) in [(4, 0, 4), (100_000, 2, -7), (0, 3, 9), (20, 31, 1_000_000)] {
        let want = diff.map(|d: i32| {
            let magnitude = (threshold - (d.abs() >> shift)).clamp(0, d.abs());
            tap * if threshold == 0 { 0 } else { d.signum() * magnitude }
        });
        let [a, b, c, d] = diff;
        let [e, f, g, h] = want;
        assert_eq!(constrain_simd(i32x4(a, b, c, d), threshold, shift, tap), i32x4(e, f, g, h));
        let opposite = constrain_simd(i32x4(-a, -b, -c, -d), threshold, shift, tap);
        assert_eq!(opposite, i32x4(-e, -f, -g, -h));
    }
}

#[test]
fn filter_of_every_direction() {
    check_filter(4, 2, 5, 8, 0, 0);
    check_filter(5, 1, 6, 8, 1, 1);
    check_filter(0, 4, 3, 8, 1, 0);
    check_filter(7, 0, 4, 8, 0, 1);
    check_filter(32, 12, 7, 10, 0, 0);
    check_filter(12, 4, 5, 10, 2, 0);
    // The damping counts only as far as the highest bit of a strength leaves of it.
    check_filter(0, 0, 1000, 8, 0, 0);
    check_filter(64, 8, 34, 12, 0, 0);
    check_filter(4, 2, -5, 8, 0, 0);
}

#[test]
fn no_strength_changes_nothing() {
    let mut rng = rand::rng();
    let data: Vec<u16> = (0..144).map(|_| rng.random::<u16>() & 0xFF).collect();
    let input = PlaneRegion { data: &data, stride: 12, origin: 26 };
    let mut out = vec![0u8; 64];
    let mut dst = PlaneRegionMut { data: &mut out, stride: 8, origin: 0 };
    cdef_filter_block(
        &mut dst,
        &input,
        0,
        0,
        3,
        3,
        8,
        0,
        0,
        CDEF_HAVE_ALL,
        CpuFeatureLevel::SIMD128,
        |_, _, _, _, _, _, _, _, _, _| unreachable!(),
    );
    for y in 0..8 {
        for x in 0..8 {
            assert_eq!(out[y * 8 + x] as u16, data[26 + 12 * y + x]);
        }
    }
}

#[test]
fn other_blocks_are_filtered_portably() {
    let data: Vec<u16> = (0..144).collect();
    let input = PlaneRegion { data: &data, stride: 12, origin: 26 };
    for (edges, cpu) in [(14, CpuFeatureLevel::SIMD128), (CDEF_HAVE_ALL, CpuFeatureLevel::RUST)] {
        let mut out = vec![7u8; 100];
        let mut dst = PlaneRegionMut { data: &mut out, stride: 10, origin: 11 };
        cdef_filter_block(
            &mut dst,
            &input,
            4,
            2,
            5,
            6,
            8,
            1,
            0,
            edges,
            cpu,
            |input, pri, sec, dir, damping, bit_depth, xdec, ydec, e, level| {
                assert_eq!(input.data[input.origin], 26);
                assert_eq!((pri, sec, dir, damping, bit_depth), (4, 2, 5, 6, 8));
                assert_eq!((xdec, ydec, e, level), (1, 0, edges, cpu));
                (100..132).collect()
            },
        );
        for y in 0..10 {
            for x in 0..10 {
                let inside = (1..9).contains(&y) && (1..5).contains(&x);
                let want = if inside { 100 + 4 * (y - 1) + x - 1 } else { 7 };
                assert_eq!(out[10 * y + x] as usize, want);
            }
        }
    }
}
