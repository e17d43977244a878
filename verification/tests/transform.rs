//! Transforms against plain scalar code.

use rand::Rng;
use wasm_kernels::arch::i32x4;
use wasm_kernels::cpu_features::CpuFeatureLevel;
use wasm_kernels::plane::PlaneRegionMut;
use wasm_kernels::transform::forward::{
    forward_transform, round_shift_array, shift_left, shift_right, transpose_4x4,
    transpose_4x8_to_8x4, transpose_8x4_to_4x8, transpose_8x8, Txfm2DFlipCfg, I32X4,
};
use wasm_kernels::transform::inverse::{inverse_transform_add, residuals_4x4};
use wasm_kernels::transform::{TxSize, TxType};

fn four(a: i32, b: i32, c: i32, d: i32) -> I32X4 {
    I32X4::new(i32x4(a, b, c, d))
}

fn lanes(v: I32X4) -> [i32; 4] {
    [v.data.e0, v.data.e1, v.data.e2, v.data.e3]
}

/// A stage of butterflies, a scaling and an average, on four lines at once.
fn vector_txfm(kind: i32, x: Vec<I32X4>) -> Vec<I32X4> {
    let n = x.len();
    (0..n)
        .map(|i| {
            let (a, b) = (x[i], x[n - 1 - i]);
            if i < n / 2 {
                a.add(b).tx_mul::<12>(kind + i as i32)
            } else if i % 2 == 0 {
                b.sub_avg(a)
            } else {
                a.sub(b).rshift1().add_avg(b)
            }
        })
        .collect()
}

/// The same on one line.
fn scalar_txfm(kind: i32, x: &[i32]) -> Vec<i32> {
    let n = x.len();
    (0..n)
        .map(|i| {
            let (a, b) = (x[i], x[n - 1 - i]);
            if i < n / 2 {
                (((a + b) as i64 * (kind as i64 + i as i64) + 2048) >> 12) as i32
            } else if i % 2 == 0 {
                (b - a) >> 1
            } else {
                ((a - b) / 2 + b) >> 1
            }
        })
        .collect()
}

fn round_shift(x: i32, bit: i8) -> i32 {
    if bit > 0 {
        (x + (1 << (bit - 1))) >> bit
    } else {
        x << -bit
    }
}

fn reference_forward(
    input: &[i16],
    stride: usize,
    w: usize,
    h: usize,
    cfg: &Txfm2DFlipCfg<i32>,
) -> Vec<i32> {
    let mut mid = vec![vec![0i32; w]; h];
    for c in 0..w {
        let column: Vec<i32> = (0..h)
            .map(|r| {
                let src = if cfg.ud_flip { h - 1 - r } else { r };
                (input[src * stride + c] as i32) << cfg.shift[0]
            })
            .collect();
        let out = scalar_txfm(cfg.txfm_type_col, &column);
        let to = if cfg.lr_flip { w - 1 - c } else { c };
        for r in 0..h {
            mid[r][to] = round_shift(out[r], -cfg.shift[1]);
        }
    }
    let mut output = vec![0i32; w * h];
    for r in 0..h {
        let out = scalar_txfm(cfg.txfm_type_row, &mid[r]);
        let stride = h.min(32);
        for c in 0..w {
            let base = if r >= 32 { stride * w.min(32) } else { 0 } + h * (c / 32 * 32);
            output[base + (c % 32) * stride + r % 32] = round_shift(out[c], -cfg.shift[2]);
        }
    }
    output
}

fn copy_of(cfg: &Txfm2DFlipCfg<i32>) -> Txfm2DFlipCfg<i32> {
    Txfm2DFlipCfg { ..*cfg }
}

fn test_forward_transform_matches(tx_size: TxSize, cfg: &Txfm2DFlipCfg<i32>) {
    let mut rng = rand::rng();
    let (w, h) = (tx_size.width(), tx_size.height());
    let input: Vec<i16> = (0..w * h).map(|_| rng.random_range(-255..256)).collect();

    let expected = reference_forward(&input, w, w, h, cfg);
    let mut output = vec![0i16; w * h];
    forward_transform(
        &input,
        &mut output,
        w,
        tx_size,
        TxType::DCT_DCT,
        8,
        CpuFeatureLevel::SIMD128,
        |_, tx_type| tx_type == TxType::DCT_DCT,
        |kind, size, bd| {
            assert_eq!((kind, size, bd), (TxType::DCT_DCT, tx_size, 8));
            copy_of(cfg)
        },
        vector_txfm,
    );
    let expected: Vec<i16> = expected.iter().map(|&v| v as i16).collect();
    assert_eq!(expected, output, "Mismatch for {:?} {:?}", tx_size, cfg);
}

/// The ways in which transforms flip their blocks.
fn configurations() -> Vec<Txfm2DFlipCfg<i32>> {
    let mut all = Vec::new();
    for ud_flip in [false, true] {
        for lr_flip in [false, true] {
            for shift in [[2, 0, 0], [2, -1, 0], [0, -2, 1]] {
                let (txfm_type_col, txfm_type_row) = (2896, 3784);
                all.push(Txfm2DFlipCfg { ud_flip, lr_flip, shift, txfm_type_col, txfm_type_row });
            }
        }
    }
    all
}

#[test]
fn test_forward_transform_4x4() {
    for cfg in configurations() {
        test_forward_transform_matches(TxSize::TX_4X4, &cfg);
    }
}

#[test]
fn test_forward_transform_8x8() {
    for cfg in configurations() {
        test_forward_transform_matches(TxSize::TX_8X8, &cfg);
    }
}

#[test]
fn test_forward_transform_16x16() {
    for cfg in configurations() {
        test_forward_transform_matches(TxSize::TX_16X16, &cfg);
    }
}

#[test]
fn test_forward_transform_32x32() {
    for cfg in configurations() {
        test_forward_transform_matches(TxSize::TX_32X32, &cfg);
    }
}

#[test]
fn test_forward_transform_4x8() {
    for cfg in configurations() {
        test_forward_transform_matches(TxSize::TX_4X8, &cfg);
    }
}

#[test]
fn test_forward_transform_8x4() {
    for cfg in configurations() {
        test_forward_transform_matches(TxSize::TX_8X4, &cfg);
    }
}

#[test]
fn test_forward_transform_8x16() {
    for cfg in configurations() {
        test_forward_transform_matches(TxSize::TX_8X16, &cfg);
    }
}

#[test]
fn test_forward_transform_16x8() {
    for cfg in configurations() {
        test_forward_transform_matches(TxSize::TX_16X8, &cfg);
    }
}

#[test]
fn test_forward_transform_16x32() {
    for cfg in configurations() {
        test_forward_transform_matches(TxSize::TX_16X32, &cfg);
    }
}

#[test]
fn test_forward_transform_32x16() {
    for cfg in configurations() {
        test_forward_transform_matches(TxSize::TX_32X16, &cfg);
    }
}

#[test]
fn forward_transforms_of_side_64() {
    for tx_size in [TxSize::TX_64X64, TxSize::TX_32X64, TxSize::TX_64X32, TxSize::TX_16X64] {
        for cfg in configurations() {
            test_forward_transform_matches(tx_size, &cfg);
        }
    }
}

#[test]
fn forward_transform_reads_with_its_stride() {
    let cfg = Txfm2DFlipCfg {
        ud_flip: false,
        lr_flip: true,
        shift: [2, 0, 0],
        txfm_type_col: 1567,
        txfm_type_row: 2896,
    };
    let input: Vec<i16> = (0..40).map(|i| i * 3 - 50).collect();
    let expected = reference_forward(&input, 9, 4, 4, &cfg);
    let mut output = vec![77i32; 20];
    forward_transform(
        &input,
        &mut output,
        9,
        TxSize::TX_4X4,
        TxType::ADST_ADST,
        10,
        CpuFeatureLevel::RUST,
        |tx_size, _| tx_size == TxSize::TX_4X4,
        |kind, _, bd| {
            assert_eq!((kind, bd), (TxType::ADST_ADST, 10));
            copy_of(&cfg)
        },
        vector_txfm,
    );
    assert_eq!(&output[..16], &expected[..]);
    assert_eq!(&output[16..], &[77; 4]);
}

#[test]
fn zeros_stay_zeros() {
    for cfg in configurations() {
        let mut output = vec![77i16; 130];
        forward_transform(
            &[0; 128],
            &mut output,
            8,
            TxSize::TX_8X16,
            TxType::IDTX,
            8,
            CpuFeatureLevel::SIMD128,
            |_, _| true,
            |_, _, _| copy_of(&cfg),
            vector_txfm,
        );
        assert_eq!(&output[..128], &[0; 128]);
        assert_eq!(&output[128..], &[77; 2]);
    }
}

#[test]
fn lane_arithmetic() {
    let a = four(7, -7, i32::MAX, i32::MIN);
    let b = four(2, 2, 1, 1);
    assert_eq!(lanes(I32X4::zero()), [0; 4]);
    assert_eq!(lanes(a.add(b)), [9, -5, i32::MIN, i32::MIN + 1]);
    assert_eq!(lanes(a.sub(b)), [5, -9, i32::MAX - 1, i32::MAX]);
    assert_eq!(lanes(a.rshift1()), [3, -3, i32::MAX / 2, i32::MIN / 2]);
    assert_eq!(lanes(four(7, -7, 0, 1).add_avg(b)), [4, -3, 0, 1]);
    assert_eq!(lanes(four(7, -7, 0, 1).sub_avg(b)), [2, -5, -1, 0]);
    assert_eq!(lanes(a.tx_mul::<1>(3)), [11, -10, -1073741825, 1073741824]);
}

#[test]
fn shifts() {
    let v = four(5, -5, 6, -6);
    assert_eq!(lanes(shift_left(v, 2)), [20, -20, 24, -24]);
    assert_eq!(lanes(shift_right(v, 0)), [5, -5, 6, -6]);
    assert_eq!(lanes(shift_right(v, 2)), [1, -1, 2, -1]);
    let mut list = vec![v, v];
    round_shift_array(&mut list, 1);
    assert_eq!(lanes(list[1]), [3, -2, 3, -3]);
    round_shift_array(&mut list, -3);
    assert_eq!(lanes(list[0]), [24, -16, 24, -24]);
    round_shift_array(&mut list, 0);
    assert_eq!(lanes(list[0]), [24, -16, 24, -24]);
}

fn numbered(n: usize) -> Vec<I32X4> {
    (0..n as i32).map(|i| four(4 * i, 4 * i + 1, 4 * i + 2, 4 * i + 3)).collect()
}

#[test]
fn transposed_squares() {
    let a = [four(0, 1, 2, 3), four(4, 5, 6, 7), four(8, 9, 10, 11), four(12, 13, 14, 15)];
    let mut b = [I32X4::zero(); 4];
    transpose_4x4(&a, &mut b);
    assert_eq!(lanes(b[0]), [0, 4, 8, 12]);
    assert_eq!(lanes(b[3]), [3, 7, 11, 15]);

    let wide: [I32X4; 16] = numbered(16).try_into().unwrap();
    let mut once = [I32X4::zero(); 16];
    let mut twice = [I32X4::zero(); 16];
    transpose_8x8(&wide, &mut once);
    assert_eq!(lanes(once[0]), [0, 8, 16, 24]);
    assert_eq!(lanes(once[15]), [39, 47, 55, 63]);
    transpose_8x8(&once, &mut twice);
    assert_eq!(twice, wide);
}

#[test]
fn transposed_rectangles() {
    let tall: [I32X4; 8] = numbered(8).try_into().unwrap();
    let mut wide = [I32X4::zero(); 8];
    let mut back = [I32X4::zero(); 8];
    transpose_8x4_to_4x8(&tall, &mut wide);
    assert_eq!(lanes(wide[0]), [0, 4, 8, 12]);
    assert_eq!(lanes(wide[1]), [16, 20, 24, 28]);
    transpose_4x8_to_8x4(&wide, &mut back);
    assert_eq!(back, tall);
}

fn half_btf(w0: i32, a: i32, w1: i32, b: i32) -> i32 {
    (a * w0 + b * w1 + 2048) >> 12
}

fn idct4(x: [i32; 4], range: i32) -> [i32; 4] {
    let s0 = half_btf(2896, x[0], 2896, x[2]);
    let s1 = half_btf(2896, x[0], -2896, x[2]);
    let s2 = half_btf(1567, x[1], -3784, x[3]);
    let s3 = half_btf(3784, x[1], 1567, x[3]);
    [s0 + s3, s1 + s2, s1 - s2, s0 - s3].map(|v| v.clamp(-(1 << range), (1 << range) - 1))
}

fn reference_residuals(coeffs: &[i32], bd: usize) -> [[i32; 4]; 4] {
    let mut mid = [[0; 4]; 4];
    for r in 0..4 {
        mid[r] = idct4([0, 1, 2, 3].map(|c| coeffs[4 * c + r]), bd as i32 + 8);
    }
    let mut out = [[0; 4]; 4];
    for c in 0..4 {
        let column = idct4([0, 1, 2, 3].map(|r| mid[r][c]), bd.max(10) as i32 + 6);
        for r in 0..4 {
            out[r][c] = (column[r] + 8) >> 4;
        }
    }
    out
}

#[test]
fn test_inverse_transform_4x4_matches_rust() {
    let tx_size = TxSize::TX_4X4;
    let (width, height) = (tx_size.width(), tx_size.height());
    let mut rng = rand::rng();

    // Create input coefficients
    let mut coeffs = vec![0i16; width * height];
    for c in coeffs.iter_mut() {
        *c = rng.random_range(-50..50);
    }
    let wide: Vec<i32> = coeffs.iter().map(|&c| c as i32).collect();
    let residuals = reference_residuals(&wide, 8);

    let stride = width + 16;
    let mut plane = vec![0u8; stride * (height + 16)];
    for y in 0..height {
        for x in 0..width {
            plane[y * stride + x] = 128u8;
        }
    }
    let mut region = PlaneRegionMut { data: &mut plane, stride, origin: 0 };
    inverse_transform_add(
        &coeffs,
        &mut region,
        16,
        tx_size,
        TxType::DCT_DCT,
        8,
        CpuFeatureLevel::SIMD128,
        |_, _, _, _, _, _, _| unreachable!(),
    );

    for y in 0..height + 16 {
        for x in 0..stride {
            let want = if y < height && x < width {
                (128 + residuals[y][x]).clamp(0, 255) as u8
            } else {
                0
            };
            let got = plane[y * stride + x];
            assert_eq!(want, got, "Mismatch at ({}, {}): rust={}, simd={}", x, y, want, got);
        }
    }
}

#[test]
fn test_inverse_transform_basic() {
    let tx_size = TxSize::TX_4X4;
    let (width, height) = (tx_size.width(), tx_size.height());
    let mut rng = rand::rng();

    // Create input coefficients (small values to avoid overflow)
    let mut coeffs = vec![0i16; width * height];
    coeffs[0] = rng.random_range(-100..100); // DC coefficient

    let stride = width + 16;
    let mut plane = vec![0u8; stride * (height + 16)];
    for y in 0..height {
        for x in 0..width {
            plane[y * stride + x] = 128;
        }
    }
    let mut region = PlaneRegionMut { data: &mut plane, stride, origin: 0 };
    inverse_transform_add(
        &coeffs,
        &mut region,
        1, // eob
        tx_size,
        TxType::DCT_DCT,
        8,
        CpuFeatureLevel::SIMD128,
        |_, _, _, _, _, _, _| unreachable!(),
    );

    // Just verify it didn't panic
}

#[test]
fn inverse_transform_of_high_bit_depth() {
    let mut rng = rand::rng();
    let coeffs: Vec<i32> = (0..16).map(|_| rng.random_range(-4000..4000)).collect();
    let residuals = reference_residuals(&coeffs, 10);
    let mut plane = vec![500u16; 16];
    let mut region = PlaneRegionMut { data: &mut plane, stride: 4, origin: 0 };
    inverse_transform_add(
        &coeffs,
        &mut region,
        16,
        TxSize::TX_4X4,
        TxType::DCT_DCT,
        10,
        CpuFeatureLevel::SIMD128,
        |_, _, _, _, _, _, _| unreachable!(),
    );
    for y in 0..4 {
        for x in 0..4 {
            assert_eq!(plane[y * 4 + x] as i32, (500 + residuals[y][x]).clamp(0, 1023));
        }
    }
}

#[test]
fn known_residuals() {
    let mut coeffs = [0i16; 16];
    coeffs[0] = 64;
    // 64 * 2896 / 4096 is 45, then 32; a sixteenth of it is 2.
    for row in residuals_4x4(&coeffs, 8) {
        assert_eq!(lanes(row), [2; 4]);
    }
    for row in residuals_4x4(&[0i16; 16], 8) {
        assert_eq!(lanes(row), [0; 4]);
    }
}

#[test]
fn other_inverse_transforms_are_portable() {
    let coeffs = [5i16; 64];
    let (simd, rust) = (CpuFeatureLevel::SIMD128, CpuFeatureLevel::RUST);
    for (size, kind, cpu) in [
        (TxSize::TX_8X8, TxType::DCT_DCT, simd),
        (TxSize::TX_4X4, TxType::ADST_ADST, simd),
        (TxSize::TX_4X4, TxType::DCT_DCT, rust),
    ] {
        let mut plane: Vec<u8> = (0..100).collect();
        let mut region = PlaneRegionMut { data: &mut plane, stride: 10, origin: 11 };
        inverse_transform_add(
            &coeffs,
            &mut region,
            9,
            size,
            kind,
            8,
            cpu,
            |input, prediction, eob, tx_size, tx_type, bd, level| {
                assert_eq!(level, cpu);
                assert_eq!((input.len(), eob, tx_size, tx_type, bd), (64, 9, size, kind, 8));
                let (w, h) = (tx_size.width(), tx_size.height());
                let mut out = Vec::new();
                for y in 0..h {
                    for x in 0..w {
                        let at = prediction.origin + y * prediction.stride + x;
                        out.push(prediction.data[at] + input[0] as u8);
                    }
                }
                out
            },
        );
        for y in 0..10 {
            for x in 0..10 {
                let (rows, columns) = (1..1 + size.height(), 1..1 + size.width());
                let inside = rows.contains(&y) && columns.contains(&x);
                let added = if inside { 5 } else { 0 };
                assert_eq!(plane[10 * y + x] as usize, 10 * y + x + added);
            }
        }
    }
}
