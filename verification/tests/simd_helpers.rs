//! Vector helpers on given values.

use wasm_kernels::arch::{
    i16x8, i16x8_splat, i32x4, i32x4_extract_lane, i32x4_splat, i64x2_splat, to_bytes, to_halves,
    to_signed_halves, u16x8, u32x4, u8x16, u8x16_extract_lane,
};
use wasm_kernels::simd_helpers::{
    abs_diff_u16x8, abs_diff_u8x16, filter_8tap_2x_relaxed, horizontal_sum_i16x8,
    horizontal_sum_i32x4, horizontal_sum_i64x2, horizontal_sum_u16x8, horizontal_sum_u32x4,
    horizontal_sum_u8x16, load_u8x4_to_u16x8, load_u8x8_to_u16x8, pmaddwd_i16x8,
    relaxed_dot_i8x16, relaxed_dot_i8x16_add, relaxed_laneselect_i16x8, relaxed_laneselect_i32x4,
    relaxed_laneselect_i8x16, relaxed_q15mulr_i16x8, relaxed_swizzle_i8x16, rounding_shr_i16x8,
    rounding_shr_i32x4, sad_u8x16_relaxed, smooth_blend_relaxed,
};

#[test]
fn test_horizontal_sum_i32x4() {
    let v = i32x4(1, 2, 3, 4);
    assert_eq!(horizontal_sum_i32x4(v), 10);

    let v = i32x4(-1, -2, 3, 4);
    assert_eq!(horizontal_sum_i32x4(v), 4);
}

#[test]
fn test_horizontal_sum_i16x8() {
    let v = i16x8(1, 2, 3, 4, 5, 6, 7, 8);
    assert_eq!(horizontal_sum_i16x8(v), 36);
}

#[test]
fn test_abs_diff_u8x16() {
    let a = u8x16(10, 20, 30, 40, 50, 60, 70, 80, 90, 100, 110, 120, 130, 140, 150, 160);
    let b = u8x16(5, 25, 30, 35, 60, 50, 75, 85, 80, 110, 100, 130, 120, 150, 140, 170);
    let result = abs_diff_u8x16(a, b);

    assert_eq!(u8x16_extract_lane::<0>(result), 5); // |10-5|
    assert_eq!(u8x16_extract_lane::<1>(result), 5); // |20-25|
    assert_eq!(u8x16_extract_lane::<2>(result), 0); // |30-30|
}

#[test]
fn test_pmaddwd() {
    // Test: [1, 2, 3, 4, 5, 6, 7, 8] * [1, 1, 1, 1, 1, 1, 1, 1]
    // Result should be: [1+2, 3+4, 5+6, 7+8] = [3, 7, 11, 15]
    let a = i16x8(1, 2, 3, 4, 5, 6, 7, 8);
    let b = i16x8(1, 1, 1, 1, 1, 1, 1, 1);
    let result = pmaddwd_i16x8(a, b);

    assert_eq!(i32x4_extract_lane::<0>(result), 3);
    assert_eq!(i32x4_extract_lane::<1>(result), 7);
    assert_eq!(i32x4_extract_lane::<2>(result), 11);
    assert_eq!(i32x4_extract_lane::<3>(result), 15);
}

#[test]
fn other_horizontal_sums() {
    assert_eq!(horizontal_sum_u16x8(u16x8(65535, 65535, 65535, 65535, 65535, 65535, 65535, 65535)), 524_280);
    assert_eq!(horizontal_sum_u32x4(u32x4(1, 2, 3, 4_000_000_000)), 4_000_000_006);
    assert_eq!(horizontal_sum_i64x2(i64x2_splat(-3)), -6);
    assert_eq!(
        horizontal_sum_u8x16(u8x16(
            255, 255, 255, 255, 255, 255, 255, 255, 255, 255, 255, 255, 255, 255, 255, 255
        )),
        4080
    );
}

#[test]
fn wide_absolute_differences() {
    let a = u16x8(0, 65535, 7, 7, 1000, 2000, 3, 4);
    let b = u16x8(65535, 0, 7, 8, 999, 2001, 4, 3);
    assert_eq!(to_halves(abs_diff_u16x8(a, b)), [65535, 65535, 0, 1, 1, 1, 1, 1]);
}

#[test]
fn rounding_shifts() {
    let v = rounding_shr_i32x4(i32x4(5, 6, -5, -6), 2);
    assert_eq!(v, i32x4(1, 2, -1, -1));
    let h = rounding_shr_i16x8(i16x8(5, 6, -5, -6, 0, 1, 2, 3), 2);
    assert_eq!(to_signed_halves(h), [1, 2, -1, -1, 0, 0, 1, 1]);
}

#[test]
fn widening_loads() {
    let src = [1u8, 2, 3, 4, 5, 6, 7, 255];
    assert_eq!(to_halves(load_u8x8_to_u16x8(&src)), [1, 2, 3, 4, 5, 6, 7, 255]);
    assert_eq!(to_halves(load_u8x4_to_u16x8(&src)), [1, 2, 3, 4, 0, 0, 0, 0]);
}

#[test]
fn dot_products() {
    let a = u8x16(1, 2, 3, 4, 255, 255, 255, 255, 10, 0, 0, 0, 1, 1, 1, 1);
    let b = u8x16(1, 1, 1, 1, 1, 2, 3, 4, 63, 0, 0, 0, 2, 2, 2, 2);
    // Bytes from 128 on count as negative.
    assert_eq!(relaxed_dot_i8x16(a, b), i32x4(10, -10, 630, 8));
    assert_eq!(relaxed_dot_i8x16_add(a, b, i32x4(1, 2, 3, 4)), i32x4(11, -8, 633, 12));
}

#[test]
fn q15_products() {
    let a = i16x8(16384, -16384, 32767, -32768, 0, 1, 100, -100);
    let b = i16x8(16384, 16384, 32767, 32767, 5, 16384, 16384, 16384);
    let r = to_signed_halves(relaxed_q15mulr_i16x8(a, b));
    assert_eq!(r, [8192, -8192, 32766, -32767, 0, 1, 50, -50]);
}

#[test]
fn lane_selection() {
    let a = i32x4_splat(0x0102_0304);
    let b = i32x4_splat(0x0506_0708);
    let m = i32x4(-1, 0, -1, 0);
    let want = i32x4(0x0102_0304, 0x0506_0708, 0x0102_0304, 0x0506_0708);
    assert_eq!(relaxed_laneselect_i32x4(a, b, m), want);
    assert_eq!(relaxed_laneselect_i16x8(a, b, m), want);
    assert_eq!(relaxed_laneselect_i8x16(a, b, m), want);
}

#[test]
fn selection_of_narrow_lanes() {
    let a = i16x8(1, 2, 3, 4, 5, 6, 7, -8);
    let b = i16x8(-1, -2, -3, -4, -5, -6, -7, 8);
    let m = i16x8(-1, 0, 0, -1, -1, -1, 0, 0);
    let r = relaxed_laneselect_i16x8(a, b, m);
    assert_eq!(to_signed_halves(r), [1, -2, -3, 4, 5, 6, -7, 8]);
    let a = u8x16(1, 2, 3, 4, 5, 6, 7, 8, 9, 10, 11, 12, 13, 14, 15, 16);
    let b = u8x16(201, 202, 203, 204, 205, 206, 207, 208, 209, 210, 211, 212, 213, 214, 215, 216);
    let m = u8x16(255, 0, 0, 255, 0, 255, 0, 0, 0, 0, 255, 255, 0, 0, 0, 255);
    let want = [1, 202, 203, 4, 205, 6, 207, 208, 209, 210, 11, 12, 213, 214, 215, 16];
    assert_eq!(to_bytes(relaxed_laneselect_i8x16(a, b, m)), want);
}

#[test]
fn swizzle() {
    let a = u8x16(10, 11, 12, 13, 14, 15, 16, 17, 18, 19, 20, 21, 22, 23, 24, 25);
    let i = u8x16(15, 14, 13, 12, 11, 10, 9, 8, 7, 6, 5, 4, 3, 2, 1, 0);
    let want: Vec<u8> = (10..26).rev().collect();
    assert_eq!(to_bytes(relaxed_swizzle_i8x16(a, i)).to_vec(), want);
}

#[test]
fn eight_tap_pair() {
    let src = u8x16(1, 2, 3, 4, 5, 6, 7, 8, 9, 0, 0, 0, 0, 0, 0, 0);
    let taps = u8x16(1, 1, 1, 1, 1, 1, 1, 1, 1, 1, 1, 1, 1, 1, 1, 1);
    let r = filter_8tap_2x_relaxed(src, taps, i32x4(100, 200, 5, 5));
    assert_eq!(r, i32x4(136, 244, 0, 0));
}

#[test]
fn sums_of_byte_differences() {
    let a = u8x16(0, 0, 0, 0, 0, 0, 0, 0, 0, 0, 0, 0, 0, 0, 0, 255);
    let b = u8x16(1, 1, 1, 1, 1, 1, 1, 1, 1, 1, 1, 1, 1, 1, 1, 0);
    assert_eq!(sad_u8x16_relaxed(a, b), 270);
}

#[test]
fn weighted_blend() {
    let above = i16x8(100, 100, 100, 100, 0, 0, 255, 255);
    let below = i16x8(200, 200, 200, 200, 255, 255, 0, 0);
    let weight = i16x8(0, 255, 128, 64, 0, 255, 0, 255);
    let r = smooth_blend_relaxed(above, below, weight);
    assert_eq!(to_signed_halves(r), [200, 100, 150, 175, 255, 0, 0, 254]);
}

#[test]
fn blends_round_down() {
    let r = smooth_blend_relaxed(i16x8_splat(1), i16x8_splat(0), i16x8_splat(128));
    assert_eq!(r, i16x8_splat(0));
    let above = i16x8(1, -1, 3, -3, 32767, -32768, 32767, -32768);
    let below = i16x8(0, 0, 2, -2, 32767, -32768, -32768, 32767);
    let weight = i16x8(255, 1, 128, 128, 77, 77, 128, 255);
    let r = smooth_blend_relaxed(above, below, weight);
    assert_eq!(to_signed_halves(r), [0, -1, 2, -3, 32767, -32768, -1, -32513]);
}

#[test]
fn blends_with_weights_out_of_range() {
    let above = i16x8(10, 10, 10, 10, 10, 10, 10, -32768);
    let below = i16x8(20, 20, 20, 20, 20, 20, 20, 32767);
    let weight = i16x8(256, 512, -256, 257, -1, 32767, -32768, -32768);
    let r = smooth_blend_relaxed(above, below, weight);
    let want = [
        10,
        0,
        30,
        (257i32 * 10 - 20) >> 8,
        (-10i32 + 257 * 20) >> 8,
        (32767i32 * 10 - 32511 * 20) >> 8,
        (-32768i32 * 10 + 33024 * 20) >> 8,
        ((32768i64 * 32768 + 33024 * 32767) >> 8) as i32,
    ];
    assert_eq!(to_signed_halves(r), want.map(|v| v as i16));
}
