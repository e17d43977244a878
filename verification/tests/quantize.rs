//! Inverse quantization against plain scalar code.

use wasm_kernels::cpu_features::CpuFeatureLevel;
use wasm_kernels::quantize::{dequantize, dequantize_by};
use wasm_kernels::transform::TxSize;

/// The quantizers of an eight-bit stream for the indices that the tests use.
fn quantizers(qindex: u8) -> (u16, u16) {
    match qindex {
        50 => (49, 57),
        100 => (93, 112),
        _ => panic!("no quantizer for {}", qindex),
    }
}

fn reference(coeffs: &[i16], dc: u16, ac: u16, scale: u32) -> Vec<i16> {
    let offset = (1i32 << scale) - 1;
    coeffs
        .iter()
        .enumerate()
        .map(|(i, &c)| {
            let quant = if i == 0 { dc } else { ac } as i32;
            let c = c as i32;
            ((c * quant + ((c >> 31) & offset)) >> scale) as i16
        })
        .collect()
}

/// The coefficients of a block of the given size, dequantized with the quantizers of `qindex`.
fn dequantized(qindex: u8, coeffs: &[i16], tx_size: TxSize, cpu: CpuFeatureLevel) -> Vec<i16> {
    let mut rcoeffs = vec![0i16; coeffs.len()];
    dequantize(
        qindex,
        coeffs,
        coeffs.len() as u16,
        &mut rcoeffs,
        tx_size,
        8,
        0,
        0,
        cpu,
        |q, delta, bd| {
            assert_eq!((delta, bd), (0, 8));
            quantizers(q).0
        },
        |q, delta, bd| {
            assert_eq!((delta, bd), (0, 8));
            quantizers(q).1
        },
        |size| {
            assert_eq!(size, tx_size);
            0
        },
    );
    rcoeffs
}

#[test]
fn test_dequantize_8bit() {
    let tx_size = TxSize::TX_8X8;
    let qindex: u8 = 50;
    let area = tx_size.width() * tx_size.height();
    let (dc, ac) = quantizers(qindex);

    let mut coeffs = vec![0i16; area];
    for (i, coeff) in coeffs.iter_mut().enumerate() {
        *coeff = ((i as i16 % 20) - 10) * 2;
    }

    let rcoeffs_rust = reference(&coeffs, dc, ac, 0);
    let rcoeffs_simd = dequantized(qindex, &coeffs, tx_size, CpuFeatureLevel::SIMD128);

    for i in 0..area {
        let rust_val = rcoeffs_rust[i];
        let simd_val = rcoeffs_simd[i];
        assert_eq!(
            rust_val, simd_val,
            "Mismatch at index {}: rust={}, simd={}",
            i, rust_val, simd_val
        );
    }
}

#[test]
fn test_dequantize_various_sizes() {
    for &tx_size in
        &[TxSize::TX_4X4, TxSize::TX_8X8, TxSize::TX_16X16, TxSize::TX_4X8, TxSize::TX_8X4]
    {
        let qindex: u8 = 100;
        let area = tx_size.width() * tx_size.height();
        let (dc, ac) = quantizers(qindex);

        let mut coeffs = vec![0i16; area];
        for (i, coeff) in coeffs.iter_mut().enumerate() {
            *coeff = if i % 3 == 0 { -(i as i16) } else { i as i16 };
        }

        let rcoeffs_rust = reference(&coeffs, dc, ac, 0);
        let rcoeffs_simd = dequantized(qindex, &coeffs, tx_size, CpuFeatureLevel::SIMD128);

        for i in 0..area {
            let rust_val = rcoeffs_rust[i];
            let simd_val = rcoeffs_simd[i];
            assert_eq!(
                rust_val, simd_val,
                "Mismatch at index {} for {:?}: rust={}, simd={}",
                i, tx_size, rust_val, simd_val
            );
        }
    }
}

#[test]
fn each_quantizer_has_its_difference() {
    let coeffs = [7i32, 7, -7, 7, 7, 7];
    for cpu in CpuFeatureLevel::all() {
        let mut out = [0i32; 6];
        dequantize(
            33,
            &coeffs,
            6,
            &mut out,
            TxSize::TX_16X64,
            10,
            -4,
            5,
            cpu,
            |q, delta, bd| {
                assert_eq!((q, delta, bd), (33, -4, 10));
                10
            },
            |q, delta, bd| {
                assert_eq!((q, delta, bd), (33, 5, 10));
                21
            },
            |size| {
                assert_eq!(size, TxSize::TX_16X64);
                1
            },
        );
        assert_eq!(out, [35, 73, -73, 73, 73, 73]);
    }
}

#[test]
fn scaled_results_round_towards_zero() {
    let coeffs = [3i32, -3, 5, -5, 7, -7, 1, -1, 0];
    for cpu in CpuFeatureLevel::all() {
        let mut out = [0i32; 9];
        dequantize_by(5, 3, 2, &coeffs, &mut out, cpu);
        assert_eq!(out, [3, -2, 3, -3, 5, -5, 0, 0, 0]);
    }
}

#[test]
fn what_does_not_fit_16_bits() {
    let coeffs = [1000i16, 1000, -1000, 1, 2, 1000];
    let low = 100_000i32 as i16;
    let mut out = [0i16; 6];
    dequantize_by(100, 100, 0, &coeffs, &mut out, CpuFeatureLevel::SIMD128);
    // In a vector the result saturates, elsewhere it loses its high bits.
    assert_eq!(out, [low, i16::MAX, i16::MIN, 100, 200, low]);
    dequantize_by(100, 100, 0, &coeffs, &mut out, CpuFeatureLevel::RUST);
    assert_eq!(out, [low, low, -low, 100, 200, low]);
}

#[test]
fn nine_coefficients_fill_two_vectors() {
    let mut coeffs = [0i16; 9];
    coeffs[1] = 32767;
    coeffs[8] = -32768;
    let mut out = [5i16; 9];
    dequantize_by(1, 2, 0, &coeffs, &mut out, CpuFeatureLevel::SIMD128);
    assert_eq!(out, [0, 32767, 0, 0, 0, 0, 0, 0, -32768]);
}

#[test]
fn wide_products_wrap_in_a_vector() {
    let coeffs = [1i32, i32::MAX, 1, 1, 1];
    let mut out = [0i32; 5];
    dequantize_by(1, 2, 0, &coeffs, &mut out, CpuFeatureLevel::SIMD128);
    assert_eq!(out, [1, -2, 2, 2, 2]);
}

#[test]
fn only_what_both_slices_hold() {
    let coeffs = [1i16, 2, 3];
    let mut out = [9i16; 5];
    dequantize_by(10, 20, 0, &coeffs, &mut out, CpuFeatureLevel::SIMD128);
    assert_eq!(out, [10, 40, 60, 9, 9]);
    let mut short = [9i16; 1];
    dequantize_by(10, 20, 0, &coeffs, &mut short, CpuFeatureLevel::SIMD128);
    assert_eq!(short, [10]);
}
