//! Intra prediction against plain scalar code.

use rand::Rng;
use std::cell::Cell;
use wasm_kernels::cpu_features::CpuFeatureLevel;
use wasm_kernels::plane::PlaneRegionMut;
use wasm_kernels::predict::PredictionMode as Mode;
use wasm_kernels::predict::PredictionVariant as Edges;
use wasm_kernels::predict::{
    dispatch_predict_intra, pred_dc_128_simd, pred_dc_left_simd, pred_dc_simd, pred_dc_top_simd,
    pred_h_simd, pred_paeth_simd, pred_v_simd, sum_pixels_simd, IntraEdge,
};
use wasm_kernels::transform::TxSize;

fn random_edge(n: usize, top: u16) -> Vec<u8> {
    let mut rng = rand::rng();
    (0..n).map(|_| rng.random_range(0..top) as u8).collect()
}

fn test_dc_pred_matches(width: usize, height: usize, bit_depth: usize) {
    let edge = random_edge(4 * 64 + 1, ((1u32 << bit_depth) - 1) as u16);
    let (left, rest) = edge.split_at(2 * 64);
    let above = &rest[1..];
    let left = &left[left.len().saturating_sub(height)..];

    let total: u32 = above[..width].iter().chain(&left[..height]).map(|&p| p as u32).sum();
    let len = (width + height) as u32;
    let expected = ((total + (len >> 1)) / len) as u8;

    let stride = width + 16;
    let mut dst = vec![0u8; stride * (height + 16)];
    let mut region = PlaneRegionMut { data: &mut dst, stride, origin: 0 };
    pred_dc_simd(&mut region, above, left, width, height);

    for r in 0..height + 16 {
        for c in 0..stride {
            let want = if r < height && c < width { expected } else { 0 };
            assert_eq!(dst[r * stride + c], want, "DC pred mismatch at ({}, {})", c, r);
        }
    }
}

#[test]
fn test_dc_pred_4x4() {
    test_dc_pred_matches(4, 4, 8);
}

#[test]
fn test_dc_pred_8x8() {
    test_dc_pred_matches(8, 8, 8);
}

#[test]
fn test_dc_pred_16x16() {
    test_dc_pred_matches(16, 16, 8);
}

#[test]
fn test_dc_pred_32x32() {
    test_dc_pred_matches(32, 32, 8);
}

#[test]
fn dc_without_edges_is_the_middle() {
    let mut dst = vec![7u16; 20];
    pred_dc_128_simd(&mut PlaneRegionMut { data: &mut dst, stride: 5, origin: 1 }, 4, 2, 10);
    assert_eq!(&dst[..6], &[7, 512, 512, 512, 512, 7]);
    let mut low = vec![7u8; 16];
    pred_dc_128_simd(&mut PlaneRegionMut { data: &mut low, stride: 4, origin: 0 }, 4, 4, 8);
    assert_eq!(low, vec![128u8; 16]);
}

#[test]
fn dc_of_one_edge() {
    let edge = [1u8, 2, 3, 5];
    let mut dst = vec![0u8; 16];
    pred_dc_left_simd(&mut PlaneRegionMut { data: &mut dst, stride: 4, origin: 0 }, &edge, 4, 4);
    assert_eq!(dst, vec![3u8; 16]);
    let wide = [1000u16, 2000, 3000, 4001];
    let mut out = vec![0u16; 16];
    pred_dc_top_simd(&mut PlaneRegionMut { data: &mut out, stride: 4, origin: 0 }, &wide, 4, 4);
    assert_eq!(out, vec![2500u16; 16]);
}

#[test]
fn sums_of_edges() {
    let edge: Vec<u8> = (0..37).map(|i| (i * 7) as u8).collect();
    let expected: u32 = edge.iter().map(|&p| p as u32).sum();
    assert_eq!(sum_pixels_simd(&edge, 37), expected);
    let wide: Vec<u16> = (0..9).map(|i| i * 5000).collect();
    assert_eq!(sum_pixels_simd(&wide, 9), 180_000);
    assert_eq!(sum_pixels_simd(&wide, 0), 0);
}

#[test]
fn straight_directions() {
    let above = [1u8, 2, 3, 4];
    let left = [10u8, 20, 30, 40];
    let mut dst = vec![0u8; 16];
    pred_v_simd(&mut PlaneRegionMut { data: &mut dst, stride: 4, origin: 0 }, &above, 4, 4);
    assert_eq!(dst, [1, 2, 3, 4, 1, 2, 3, 4, 1, 2, 3, 4, 1, 2, 3, 4]);
    pred_h_simd(&mut PlaneRegionMut { data: &mut dst, stride: 4, origin: 0 }, &left, 4, 4);
    assert_eq!(dst, [40, 40, 40, 40, 30, 30, 30, 30, 20, 20, 20, 20, 10, 10, 10, 10]);
}

fn scalar_paeth(left: i32, top: i32, top_left: i32) -> i32 {
    let base = top + left - top_left;
    let (pl, pt, ptl) = ((base - left).abs(), (base - top).abs(), (base - top_left).abs());
    if pl <= pt && pl <= ptl {
        left
    } else if pt <= ptl {
        top
    } else {
        top_left
    }
}

#[test]
fn paeth_of_every_width() {
    for (w, h) in [(4usize, 4usize), (8, 16), (7, 3), (16, 8)] {
        let above = random_edge(w, 256);
        let left = random_edge(h, 256);
        let corner = random_edge(1, 256)[0];
        let mut dst = vec![0u8; w * h];
        let mut region = PlaneRegionMut { data: &mut dst, stride: w, origin: 0 };
        pred_paeth_simd(&mut region, &above, &left, corner, w, h);
        for y in 0..h {
            for x in 0..w {
                let want = scalar_paeth(left[h - 1 - y] as i32, above[x] as i32, corner as i32);
                assert_eq!(dst[y * w + x] as i32, want);
            }
        }
    }
}

#[test]
fn paeth_takes_the_corner() {
    // The gradients are 100, 298, 199 and 149.
    let mut dst = vec![0u8; 4];
    let mut region = PlaneRegionMut { data: &mut dst, stride: 4, origin: 0 };
    pred_paeth_simd(&mut region, &[1, 199, 100, 50], &[199], 100, 4, 1);
    assert_eq!(dst, [100, 199, 199, 100]);
}

#[test]
fn dispatch_by_mode() {
    let left = [10u8, 20, 30, 40, 50, 60];
    let above = [1u8, 2, 3, 4];
    let edge = IntraEdge { left: &left, top_left: &[9], above: &above };
    let run = |mode, variant, angle, cpu| {
        let mut dst = vec![0u8; 16];
        let mut region = PlaneRegionMut { data: &mut dst, stride: 4, origin: 0 };
        let by = Cell::new("vector");
        dispatch_predict_intra(
            mode,
            variant,
            &mut region,
            TxSize::TX_4X4,
            8,
            &[5, 6],
            angle,
            Some("filter"),
            &edge,
            cpu,
            |m, above, left, w, h| {
                assert_eq!((m, above, left), (mode, &[1, 2, 3, 4][..], &[30, 40, 50, 60][..]));
                assert_eq!((w, h), (4, 4));
                by.set("smooth");
                (1..17).collect()
            },
            |m, v, size, bit_depth, ac, a, ief, e, level| {
                assert_eq!((ief, level), (Some("filter"), cpu));
                assert_eq!((m, v, size, bit_depth, a), (mode, variant, TxSize::TX_4X4, 8, angle));
                assert_eq!((ac, e.left, e.top_left[0]), (&[5i16, 6][..], &left[..], 9));
                by.set("portable");
                vec![77; 16]
            },
        );
        (by.get(), dst[0], dst[15])
    };
    let (simd, rust) = (CpuFeatureLevel::SIMD128, CpuFeatureLevel::RUST);
    assert_eq!(run(Mode::DC_PRED, Edges::NONE, 0, simd), ("vector", 128, 128));
    assert_eq!(run(Mode::DC_PRED, Edges::LEFT, 0, simd), ("vector", 45, 45));
    assert_eq!(run(Mode::DC_PRED, Edges::TOP, 0, simd), ("vector", 3, 3));
    assert_eq!(run(Mode::DC_PRED, Edges::BOTH, 0, simd), ("vector", 24, 24));
    assert_eq!(run(Mode::V_PRED, Edges::BOTH, 90, simd), ("vector", 1, 4));
    assert_eq!(run(Mode::V_PRED, Edges::BOTH, 87, simd), ("portable", 77, 77));
    assert_eq!(run(Mode::H_PRED, Edges::BOTH, 180, simd), ("vector", 60, 30));
    assert_eq!(run(Mode::H_PRED, Edges::BOTH, 183, simd), ("portable", 77, 77));
    assert_eq!(run(Mode::PAETH_PRED, Edges::BOTH, 0, simd), ("vector", 60, 30));
    assert_eq!(run(Mode::SMOOTH_PRED, Edges::BOTH, 0, simd), ("smooth", 1, 16));
    assert_eq!(run(Mode::SMOOTH_V_PRED, Edges::BOTH, 0, simd), ("smooth", 1, 16));
    assert_eq!(run(Mode::SMOOTH_H_PRED, Edges::BOTH, 0, simd), ("smooth", 1, 16));
    assert_eq!(run(Mode::D45_PRED, Edges::BOTH, 45, simd), ("portable", 77, 77));
    assert_eq!(run(Mode::UV_CFL_PRED, Edges::BOTH, 0, simd), ("portable", 77, 77));
    assert_eq!(run(Mode::DC_PRED, Edges::BOTH, 0, rust), ("portable", 77, 77));
    assert_eq!(run(Mode::SMOOTH_PRED, Edges::BOTH, 0, rust), ("portable", 77, 77));
}

#[test]
fn high_bit_depth_is_portable() {
    let edge = IntraEdge { left: &[1u16; 4], top_left: &[1], above: &[1; 4] };
    let mut dst = vec![0u16; 20];
    let mut region = PlaneRegionMut { data: &mut dst, stride: 5, origin: 0 };
    dispatch_predict_intra(
        Mode::DC_PRED,
        Edges::BOTH,
        &mut region,
        TxSize::TX_4X4,
        10,
        &[],
        0,
        None::<u8>,
        &edge,
        CpuFeatureLevel::SIMD128,
        |_, _, _, _, _| unreachable!(),
        |_, _, _, bit_depth, _, _, _, _, _| (0..16).map(|i| (bit_depth * 100) as u16 + i).collect(),
    );
    for y in 0..4 {
        for x in 0..4 {
            assert_eq!(dst[5 * y + x] as usize, 1000 + 4 * y + x);
        }
        assert_eq!(dst[5 * y + 4], 0);
    }
}

#[test]
fn portable_routes_ask_nothing_of_the_edges() {
    let edge: IntraEdge<'_, u8> = IntraEdge { left: &[], top_left: &[], above: &[] };
    let mut dst = vec![0u8; 16];
    for (mode, cpu) in
        [(Mode::PAETH_PRED, CpuFeatureLevel::RUST), (Mode::SMOOTH_PRED, CpuFeatureLevel::SIMD128)]
    {
        let mut region = PlaneRegionMut { data: &mut dst, stride: 4, origin: 0 };
        dispatch_predict_intra(
            mode,
            Edges::NONE,
            &mut region,
            TxSize::TX_4X4,
            0,
            &[],
            0,
            None::<u8>,
            &edge,
            cpu,
            |_, above, left, _, _| vec![(above.len() + left.len() + 3) as u8; 16],
            |_, _, _, _, _, _, _, _, _| vec![4; 16],
        );
        let want = if cpu == CpuFeatureLevel::RUST { 4 } else { 3 };
        assert_eq!(dst, vec![want; 16]);
    }
}
