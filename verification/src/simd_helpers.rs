//! Vector operations that are more than one instruction: horizontal sums, absolute differences,
//! pairwise products, rounding shifts, widening loads and the operations of relaxed vectors.

use crate::arch::{
    from_bytes, from_signed_halves, i16x8_add, i16x8_shr, i16x8_splat, i32x4, i32x4_add,
    i32x4_extend_high_i16x8, i32x4_extend_low_i16x8, i32x4_extract_lane, i32x4_mul, i32x4_shr,
    i32x4_shuffle, i32x4_splat, i64x2_extract_lane, lemma_select_bits, lemma_select_bytes,
    lemma_select_halves, load_u8x4_zero, load_u8x8_zero,
    pair_lane, select_bits, to_bytes, to_signed_bytes, to_signed_halves, u16x8_extend_high_u8x16,
    u16x8_extend_low_u8x16, u16x8_max, u16x8_min, u16x8_sub, u32x4_extend_high_u16x8,
    u32x4_extend_low_u16x8, u32x4_extract_lane, u8x16_max, u8x16_min, u8x16_sub, v128,
    v128_bitselect,
};
use crate::math::{
    abs_int, lemma_wrap32_add, max_int, min_int, shr, shr_i32, shr_i64, wrap16, wrap32, wrap64,
    wrap_to_i16, wrapping_add_i64,
};
use crate::vector::{lemma_word_of_wrap, word_carry};
use vstd::arithmetic::power2::pow2;
use vstd::prelude::*;

verus! {

broadcast use {crate::math::group_wrap, crate::vector::group_lanes};

/// The sum of the four signed 32-bit lanes.
pub open spec fn sum_i32x4(v: v128) -> int {
    v.lane_i32(0) + v.lane_i32(1) + v.lane_i32(2) + v.lane_i32(3)
}

/// The sum of the four unsigned 32-bit lanes.
pub open spec fn sum_u32x4(v: v128) -> int {
    v.lane_u32(0) + v.lane_u32(1) + v.lane_u32(2) + v.lane_u32(3)
}

/// The sum of the eight signed 16-bit lanes.
pub open spec fn sum_i16x8(v: v128) -> int {
    v.lane_i16(0) + v.lane_i16(1) + v.lane_i16(2) + v.lane_i16(3)
        + v.lane_i16(4) + v.lane_i16(5) + v.lane_i16(6) + v.lane_i16(7)
}

/// The sum of the eight unsigned 16-bit lanes.
pub open spec fn sum_u16x8(v: v128) -> int {
    v.lane_u16(0) + v.lane_u16(1) + v.lane_u16(2) + v.lane_u16(3)
        + v.lane_u16(4) + v.lane_u16(5) + v.lane_u16(6) + v.lane_u16(7)
}

/// The sum of the sixteen bytes.
pub open spec fn sum_u8x16(v: v128) -> int {
    v.lane_u8(0) + v.lane_u8(1) + v.lane_u8(2) + v.lane_u8(3)
        + v.lane_u8(4) + v.lane_u8(5) + v.lane_u8(6) + v.lane_u8(7)
        + v.lane_u8(8) + v.lane_u8(9) + v.lane_u8(10) + v.lane_u8(11)
        + v.lane_u8(12) + v.lane_u8(13) + v.lane_u8(14) + v.lane_u8(15)
}

/// Sum of all signed 16-bit lanes.
pub fn horizontal_sum_i16x8(v: v128) -> (r: i32)
    ensures
        r == sum_i16x8(v),
{
    let lo = i32x4_extend_low_i16x8(v);
    let hi = i32x4_extend_high_i16x8(v);
    let sum1 = i32x4_add(lo, hi);
    assert(sum1.lane_i32(0) == v.lane_i16(0) + v.lane_i16(4));
    assert(sum1.lane_i32(1) == v.lane_i16(1) + v.lane_i16(5));
    assert(sum1.lane_i32(2) == v.lane_i16(2) + v.lane_i16(6));
    assert(sum1.lane_i32(3) == v.lane_i16(3) + v.lane_i16(7));
    horizontal_sum_i32x4(sum1)
}

/// Sum of all unsigned 16-bit lanes.
pub fn horizontal_sum_u16x8(v: v128) -> (r: u32)
    ensures
        r == sum_u16x8(v),
{
    let lo = u32x4_extend_low_u16x8(v);
    let hi = u32x4_extend_high_u16x8(v);
    let sum1 = i32x4_add(lo, hi);
    assert(sum1.lane_i32(0) == v.lane_u16(0) + v.lane_u16(4));
    assert(sum1.lane_i32(1) == v.lane_u16(1) + v.lane_u16(5));
    assert(sum1.lane_i32(2) == v.lane_u16(2) + v.lane_u16(6));
    assert(sum1.lane_i32(3) == v.lane_u16(3) + v.lane_u16(7));
    horizontal_sum_i32x4(sum1) as u32
}

/// Sum of all signed 32-bit lanes, wrapped to 32 bits.
pub fn horizontal_sum_i32x4(v: v128) -> (r: i32)
    ensures
        r == wrap32(sum_i32x4(v)),
{
    // [c, d, a, b] onto [a, b, c, d]
    let shuffled = i32x4_shuffle::<2, 3, 0, 1>(v, v);
    let sum1 = i32x4_add(v, shuffled);
    // [b + d, a + c, ..] onto [a + c, b + d, ..]
    let shuffled2 = i32x4_shuffle::<1, 0, 3, 2>(sum1, sum1);
    let sum2 = i32x4_add(sum1, shuffled2);
    assert(sum1.lane_i32(0) == wrap32(v.lane_i32(0) + v.lane_i32(2)));
    assert(sum1.lane_i32(1) == wrap32(v.lane_i32(1) + v.lane_i32(3)));
    assert(sum2.lane_i32(0) == wrap32(sum1.lane_i32(0) + sum1.lane_i32(1)));
    proof {
        lemma_wrap32_add(v.lane_i32(0) + v.lane_i32(2), v.lane_i32(1) + v.lane_i32(3));
    }
    i32x4_extract_lane::<0>(sum2)
}

/// Sum of all unsigned 32-bit lanes, wrapped to 32 bits.
pub fn horizontal_sum_u32x4(v: v128) -> (r: u32)
    ensures
        r == sum_u32x4(v) % 0x1_0000_0000,
{
    let s = i32x4_splat(horizontal_sum_i32x4(v));
    assert(s.lane_i32(0) == wrap32(sum_i32x4(v)));
    proof {
        lemma_word_of_wrap(
            s.lane_i32(0),
            sum_i32x4(v),
            sum_u32x4(v),
            word_carry(v.lane_i32(0)) + word_carry(v.lane_i32(1)) + word_carry(v.lane_i32(2))
                + word_carry(v.lane_i32(3)),
        );
    }
    u32x4_extract_lane::<0>(s)
}

/// Sum of both 64-bit lanes, wrapped to 64 bits.
pub fn horizontal_sum_i64x2(v: v128) -> (r: i64)
    ensures
        r == wrap64(v.lane_i64(0) + v.lane_i64(1)),
{
    let a: i64 = i64x2_extract_lane::<0>(v);
    let b: i64 = i64x2_extract_lane::<1>(v);
    wrapping_add_i64(a, b)
}

/// Sum of all bytes.
pub fn horizontal_sum_u8x16(v: v128) -> (r: u32)
    ensures
        r == sum_u8x16(v),
{
    let lo = u16x8_extend_low_u8x16(v);
    let hi = u16x8_extend_high_u8x16(v);
    let sum16 = i16x8_add(lo, hi);
    proof {
        assert forall|k: int| 0 <= k < 8 implies #[trigger] sum16.lane_u16(k) == v.lane_u8(k)
            + v.lane_u8(k + 8) by {
            assert(lo.lane_u16(k) == v.lane_u8(k));
            assert(hi.lane_u16(k) == v.lane_u8(k + 8));
            assert(sum16.lane_i16(k) == wrap16(lo.lane_i16(k) + hi.lane_i16(k)));
        }
    }
    horizontal_sum_u16x8(sum16)
}

/// Absolute differences of bytes.
pub fn abs_diff_u8x16(a: v128, b: v128) -> (r: v128)
    ensures
        forall|k: int|
            0 <= k < 16 ==> #[trigger] r.lane_u8(k) == abs_int(a.lane_u8(k) - b.lane_u8(k)),
{
    // The larger minus the smaller is the distance of unsigned numbers.
    let max_ab = u8x16_max(a, b);
    let min_ab = u8x16_min(a, b);
    let r = u8x16_sub(max_ab, min_ab);
    proof {
        assert forall|k: int| 0 <= k < 16 implies #[trigger] r.lane_u8(k) == abs_int(
            a.lane_u8(k) - b.lane_u8(k),
        ) by {
            assert(0 <= max_ab.lane_u8(k) - min_ab.lane_u8(k) <= 0xff);
        }
    }
    r
}

/// Absolute differences of unsigned 16-bit lanes.
pub fn abs_diff_u16x8(a: v128, b: v128) -> (r: v128)
    ensures
        forall|k: int|
            0 <= k < 8 ==> #[trigger] r.lane_u16(k) == abs_int(a.lane_u16(k) - b.lane_u16(k)),
{
    let max_ab = u16x8_max(a, b);
    let min_ab = u16x8_min(a, b);
    let r = u16x8_sub(max_ab, min_ab);
    proof {
        assert forall|k: int| 0 <= k < 8 implies #[trigger] r.lane_u16(k) == abs_int(
            a.lane_u16(k) - b.lane_u16(k),
        ) by {
            assert(0 <= max_ab.lane_u16(k) - min_ab.lane_u16(k) <= 0xffff);
        }
    }
    r
}

/// Products of adjacent pairs of signed 16-bit lanes, each pair summed to 32 bits.
///
/// Lane `i` is `a[2i] * b[2i] + a[2i + 1] * b[2i + 1]`. It wraps only where all four factors are
/// the most negative 16-bit number.
pub fn pmaddwd_i16x8(a: v128, b: v128) -> (r: v128)
    ensures
        forall|k: int|
            0 <= k < 4 ==> #[trigger] r.lane_i32(k) == wrap32(
                a.lane_i16(2 * k) * b.lane_i16(2 * k) + a.lane_i16(2 * k + 1) * b.lane_i16(
                    2 * k + 1,
                ),
            ),
{
    let a_lo = i32x4_extend_low_i16x8(a);
    let b_lo = i32x4_extend_low_i16x8(b);
    let a_hi = i32x4_extend_high_i16x8(a);
    let b_hi = i32x4_extend_high_i16x8(b);
    let prod_lo = i32x4_mul(a_lo, b_lo);
    let prod_hi = i32x4_mul(a_hi, b_hi);
    let odd = i32x4_shuffle::<1, 3, 5, 7>(prod_lo, prod_hi);
    let even = i32x4_shuffle::<0, 2, 4, 6>(prod_lo, prod_hi);
    let r = i32x4_add(even, odd);
    proof {
        assert forall|k: int| 0 <= k < 8 implies #[trigger] pair_lane(prod_lo, prod_hi, k)
            == a.lane_i16(k) * b.lane_i16(k) by {
            lemma_mul_i16(a.lane_i16(k), b.lane_i16(k));
            if k < 4 {
                assert(prod_lo.lane_i32(k) == wrap32(a_lo.lane_i32(k) * b_lo.lane_i32(k)));
            } else {
                assert(prod_hi.lane_i32(k - 4) == wrap32(
                    a_hi.lane_i32(k - 4) * b_hi.lane_i32(k - 4),
                ));
            }
        }
        assert forall|k: int| 0 <= k < 4 implies #[trigger] r.lane_i32(k) == wrap32(
            a.lane_i16(2 * k) * b.lane_i16(2 * k) + a.lane_i16(2 * k + 1) * b.lane_i16(2 * k + 1),
        ) by {
            assert(even.lane_i32(k) == pair_lane(prod_lo, prod_hi, 2 * k));
            assert(odd.lane_i32(k) == pair_lane(prod_lo, prod_hi, 2 * k + 1));
        }
    }
    r
}

/// The product of two 16-bit integers fits 32 bits.
pub proof fn lemma_mul_i16(x: int, y: int)
    requires
        -0x8000 <= x <= 0x7fff,
        -0x8000 <= y <= 0x7fff,
    ensures
        -0x4000_0000 <= x * y <= 0x4000_0000,
{
    assert(-0x4000_0000 <= x * y <= 0x4000_0000) by (nonlinear_arith)
        requires
            -0x8000 <= x <= 0x7fff,
            -0x8000 <= y <= 0x7fff,
    ;
}

/// Rounding right shift of signed 32-bit lanes: `(v + (1 << (shift - 1))) >> shift`, where the
/// sum wraps.
pub fn rounding_shr_i32x4(v: v128, shift: u32) -> (r: v128)
    requires
        0 < shift < 32,
    ensures
        forall|k: int|
            0 <= k < 4 ==> #[trigger] r.lane_i32(k) == shr(
                wrap32(v.lane_i32(k) + pow2((shift - 1) as nat)),
                shift as int,
            ),
{
    let rounding = i32x4_splat(crate::math::exp2_i32(shift - 1));
    let rounded = i32x4_add(v, rounding);
    i32x4_shr(rounded, shift)
}

/// Rounding right shift of signed 16-bit lanes: `(v + (1 << (shift - 1))) >> shift`, where the
/// sum wraps.
pub fn rounding_shr_i16x8(v: v128, shift: u32) -> (r: v128)
    requires
        0 < shift < 16,
    ensures
        forall|k: int|
            0 <= k < 8 ==> #[trigger] r.lane_i16(k) == shr(
                wrap16(v.lane_i16(k) + pow2((shift - 1) as nat)),
                shift as int,
            ),
{
    let e: i32 = crate::math::exp2_i32(shift - 1);
    proof {
        vstd::arithmetic::power2::lemma2_to64();
        if shift < 15 {
            vstd::arithmetic::power2::lemma_pow2_strictly_increases((shift - 1) as nat, 14);
        }
    }
    let rounding = i16x8_splat(e as i16);
    let rounded = i16x8_add(v, rounding);
    i16x8_shr(rounded, shift)
}

/// Loads eight bytes and zero-extends them to 16 bits.
pub fn load_u8x8_to_u16x8(src: &[u8]) -> (r: v128)
    requires
        src@.len() >= 8,
    ensures
        forall|k: int| 0 <= k < 8 ==> #[trigger] r.lane_u16(k) == src@[k],
{
    let v = load_u8x8_zero(src, 0);
    let r = u16x8_extend_low_u8x16(v);
    assert forall|k: int| 0 <= k < 8 implies #[trigger] r.lane_u16(k) == src@[k] by {
        assert(v.lane_u8(k) == src@[0 + k]);
    }
    r
}

/// Loads four bytes and zero-extends them to the four low 16-bit lanes; the others are zero.
pub fn load_u8x4_to_u16x8(src: &[u8]) -> (r: v128)
    requires
        src@.len() >= 4,
    ensures
        forall|k: int| 0 <= k < 4 ==> #[trigger] r.lane_u16(k) == src@[k],
        forall|k: int| 4 <= k < 8 ==> #[trigger] r.lane_u16(k) == 0,
{
    let v = load_u8x4_zero(src, 0);
    let r = u16x8_extend_low_u8x16(v);
    assert forall|k: int| 0 <= k < 4 implies #[trigger] r.lane_u16(k) == src@[k] by {
        assert(v.lane_u8(k) == src@[0 + k]);
    }
    assert forall|k: int| 4 <= k < 8 implies #[trigger] r.lane_u16(k) == 0 by {
        assert(v.lane_u8(k) == 0);
    }
    r
}

// ---------------------------------------------------------------------------
// Relaxed vectors
// ---------------------------------------------------------------------------

/// The sum of the four products of signed bytes that fall to 32-bit lane `i`.
pub open spec fn dot4(a: v128, b: v128, i: int) -> int {
    a.lane_i8(4 * i) * b.lane_i8(4 * i) + a.lane_i8(4 * i + 1) * b.lane_i8(4 * i + 1) + a.lane_i8(
        4 * i + 2,
    ) * b.lane_i8(4 * i + 2) + a.lane_i8(4 * i + 3) * b.lane_i8(4 * i + 3)
}

/// Whether the bytes that fall to 32-bit lane `i` are signed 7-bit numbers.
pub open spec fn is_i7(b: v128, i: int) -> bool {
    forall|j: int| 4 * i <= j < 4 * i + 4 ==> -64 <= #[trigger] b.lane_i8(j) <= 63
}

/// The product of two signed bytes.
proof fn lemma_mul_i8(x: int, y: int)
    requires
        -0x80 <= x <= 0x7f,
        -0x80 <= y <= 0x7f,
    ensures
        -0x4000 <= x * y <= 0x4000,
{
    assert(-0x4000 <= x * y <= 0x4000) by (nonlinear_arith)
        requires
            -0x80 <= x <= 0x7f,
            -0x80 <= y <= 0x7f,
    ;
}

/// The sum of `n` products of signed bytes, from `x[i]` and `y[j]` on.
fn dot_bytes(x: &[i8; 16], i: usize, y: &[i8; 16], j: usize, n: usize) -> (r: i32)
    requires
        i + n <= 16,
        j + n <= 16,
    ensures
        r == dot_seq(x@, i as int, y@, j as int, n as int),
        -0x4_0000 <= r <= 0x4_0000,
{
    let mut r: i32 = 0;
    let mut t: usize = 0;
    while t < n
        invariant
            t <= n <= 16,
            i + n <= 16,
            j + n <= 16,
            r == dot_seq(x@, i as int, y@, j as int, t as int),
            -0x4000 * t <= r <= 0x4000 * t,
        decreases n - t,
    {
        proof {
            lemma_mul_i8(x[i + t] as int, y[j + t] as int);
        }
        r = r + x[i + t] as i32 * y[j + t] as i32;
        t += 1;
    }
    r
}

/// The sum of `n` products, from `x[i]` and `y[j]` on.
pub open spec fn dot_seq(x: Seq<i8>, i: int, y: Seq<i8>, j: int, n: int) -> int
    decreases n,
{
    if n <= 0 {
        0
    } else {
        dot_seq(x, i, y, j, n - 1) + x[i + n - 1] * y[j + n - 1]
    }
}

/// Dot products of groups of four signed bytes, each added to a 32-bit lane of `acc`.
///
/// The result is exact where the bytes of `b` are signed 7-bit numbers. Processors are free to
/// differ on the lanes where they are not.
pub fn relaxed_dot_i8x16_add(a: v128, b: v128, acc: v128) -> (r: v128)
    ensures
        forall|i: int|
            0 <= i < 4 && is_i7(b, i) ==> #[trigger] r.lane_i32(i) == wrap32(
                acc.lane_i32(i) + dot4(a, b, i),
            ),
{
    let x = to_signed_bytes(a);
    let y = to_signed_bytes(b);
    let p = i32x4(
        dot_bytes(&x, 0, &y, 0, 4),
        dot_bytes(&x, 4, &y, 4, 4),
        dot_bytes(&x, 8, &y, 8, 4),
        dot_bytes(&x, 12, &y, 12, 4),
    );
    proof {
        reveal_with_fuel(dot_seq, 5);
        assert forall|i: int| 0 <= i < 4 implies #[trigger] p.lane_i32(i) == dot4(a, b, i) by {
            assert(p.lane_i32(i) == dot_seq(x@, 4 * i, y@, 4 * i, 4));
        }
    }
    i32x4_add(acc, p)
}

/// Dot products of groups of four signed bytes.
///
/// The result is exact where the bytes of `b` are signed 7-bit numbers. Processors are free to
/// differ on the lanes where they are not.
pub fn relaxed_dot_i8x16(a: v128, b: v128) -> (r: v128)
    ensures
        forall|i: int|
            0 <= i < 4 && is_i7(b, i) ==> #[trigger] r.lane_i32(i) == dot4(a, b, i),
{
    let r = relaxed_dot_i8x16_add(a, b, i32x4_splat(0));
    assert forall|i: int| 0 <= i < 4 && is_i7(b, i) implies #[trigger] r.lane_i32(i) == dot4(
        a,
        b,
        i,
    ) by {
        lemma_mul_i8(a.lane_i8(4 * i), b.lane_i8(4 * i));
        lemma_mul_i8(a.lane_i8(4 * i + 1), b.lane_i8(4 * i + 1));
        lemma_mul_i8(a.lane_i8(4 * i + 2), b.lane_i8(4 * i + 2));
        lemma_mul_i8(a.lane_i8(4 * i + 3), b.lane_i8(4 * i + 3));
    }
    r
}

/// The product of two Q15 numbers, rounded half up.
pub open spec fn q15_mul(x: int, y: int) -> int {
    (x * y + 0x4000) / 0x8000
}

/// Rounded products of Q15 numbers: `(a * b + 0x4000) >> 15` in each signed 16-bit lane.
///
/// Processors are free to differ on a lane where both factors are the most negative number,
/// since the product has no Q15 form.
pub fn relaxed_q15mulr_i16x8(a: v128, b: v128) -> (r: v128)
    ensures
        forall|k: int|
            0 <= k < 8 && !(a.lane_i16(k) == -0x8000 && b.lane_i16(k) == -0x8000)
                ==> #[trigger] r.lane_i16(k) == q15_mul(a.lane_i16(k), b.lane_i16(k)),
{
    let x = to_signed_halves(a);
    let y = to_signed_halves(b);
    let mut h: [i16; 8] = [0; 8];
    let mut i: usize = 0;
    while i < 8
        invariant
            i <= 8,
            forall|k: int| 0 <= k < 8 ==> #[trigger] x[k] == a.lane_i16(k),
            forall|k: int| 0 <= k < 8 ==> #[trigger] y[k] == b.lane_i16(k),
            forall|k: int|
                0 <= k < i && !(a.lane_i16(k) == -0x8000 && b.lane_i16(k) == -0x8000)
                    ==> #[trigger] h[k] == q15_mul(a.lane_i16(k), b.lane_i16(k)),
        decreases 8 - i,
    {
        proof {
            lemma_mul_i16(x[i as int] as int, y[i as int] as int);
            lemma_mul_i16_strict(x[i as int] as int, y[i as int] as int);
            vstd::arithmetic::power2::lemma2_to64();
        }
        h[i] = wrap_to_i16(shr_i32(x[i] as i32 * y[i] as i32 + 0x4000, 15));
        i += 1;
    }
    from_signed_halves(&h)
}

/// Only the most negative number squared reaches the end of the Q15 range.
proof fn lemma_mul_i16_strict(x: int, y: int)
    requires
        -0x8000 <= x <= 0x7fff,
        -0x8000 <= y <= 0x7fff,
    ensures
        x == -0x8000 && y == -0x8000 || x * y <= 0x3fff_8000,
{
    assert(x == -0x8000 && y == -0x8000 || x * y <= 0x3fff_8000) by (nonlinear_arith)
        requires
            -0x8000 <= x <= 0x7fff,
            -0x8000 <= y <= 0x7fff,
    ;
}

/// The lanes of `a` where the mask is set and the lanes of `b` where it is clear. With masks of
/// parts of lanes, a choice between bits.
pub fn relaxed_laneselect_i32x4(a: v128, b: v128, mask: v128) -> (r: v128)
    ensures
        forall|k: int|
            0 <= k < 4 ==> #[trigger] r.lane_i32(k) == select_bits(
                a.lane_i32(k),
                b.lane_i32(k),
                mask.lane_i32(k),
            ),
        forall|k: int|
            0 <= k < 4 && mask.lane_i32(k) == -1 ==> #[trigger] r.lane_i32(k) == a.lane_i32(k),
        forall|k: int|
            0 <= k < 4 && mask.lane_i32(k) == 0 ==> #[trigger] r.lane_i32(k) == b.lane_i32(k),
{
    let r = v128_bitselect(a, b, mask);
    assert forall|k: int| 0 <= k < 4 implies (mask.lane_i32(k) == -1 ==> #[trigger] r.lane_i32(k)
        == a.lane_i32(k)) && (mask.lane_i32(k) == 0 ==> r.lane_i32(k) == b.lane_i32(k)) by {
        lemma_select_bits(a.lane_i32(k), b.lane_i32(k));
    }
    r
}

/// The 16-bit lanes of `a` where the mask is set and those of `b` where it is clear. With masks of
/// parts of lanes, a choice between bits.
pub fn relaxed_laneselect_i16x8(a: v128, b: v128, mask: v128) -> (r: v128)
    ensures
        forall|k: int|
            0 <= k < 4 ==> #[trigger] r.lane_i32(k) == select_bits(
                a.lane_i32(k),
                b.lane_i32(k),
                mask.lane_i32(k),
            ),
        forall|k: int|
            0 <= k < 8 && mask.lane_i16(k) == -1 ==> #[trigger] r.lane_i16(k) == a.lane_i16(k),
        forall|k: int|
            0 <= k < 8 && mask.lane_i16(k) == 0 ==> #[trigger] r.lane_i16(k) == b.lane_i16(k),
{
    let r = v128_bitselect(a, b, mask);
    assert forall|k: int| 0 <= k < 8 implies (mask.lane_i16(k) == -1 ==> #[trigger] r.lane_i16(k)
        == a.lane_i16(k)) && (mask.lane_i16(k) == 0 ==> r.lane_i16(k) == b.lane_i16(k)) by {
        reveal(v128::lane_u16);
        let w = k / 2;
        lemma_select_halves(a.lane_i32(w), b.lane_i32(w), mask.lane_i32(w), k % 2);
        assert(r.lane_i32(w) == select_bits(a.lane_i32(w), b.lane_i32(w), mask.lane_i32(w)));
    }
    r
}

/// The bytes of `a` where the mask is set and those of `b` where it is clear. With masks of parts
/// of bytes, a choice between bits.
pub fn relaxed_laneselect_i8x16(a: v128, b: v128, mask: v128) -> (r: v128)
    ensures
        forall|k: int|
            0 <= k < 4 ==> #[trigger] r.lane_i32(k) == select_bits(
                a.lane_i32(k),
                b.lane_i32(k),
                mask.lane_i32(k),
            ),
        forall|k: int|
            0 <= k < 16 && mask.lane_i8(k) == -1 ==> #[trigger] r.lane_i8(k) == a.lane_i8(k),
        forall|k: int|
            0 <= k < 16 && mask.lane_i8(k) == 0 ==> #[trigger] r.lane_i8(k) == b.lane_i8(k),
{
    let r = v128_bitselect(a, b, mask);
    assert forall|k: int| 0 <= k < 16 implies (mask.lane_i8(k) == -1 ==> #[trigger] r.lane_i8(k)
        == a.lane_i8(k)) && (mask.lane_i8(k) == 0 ==> r.lane_i8(k) == b.lane_i8(k)) by {
        reveal(v128::lane_u8);
        let w = k / 4;
        lemma_select_bytes(a.lane_i32(w), b.lane_i32(w), mask.lane_i32(w), k % 4);
        assert(r.lane_i32(w) == select_bits(a.lane_i32(w), b.lane_i32(w), mask.lane_i32(w)));
    }
    r
}

/// The bytes of `a` that the bytes of `indices` name.
///
/// Processors are free to differ on a lane whose index is 16 or more.
pub fn relaxed_swizzle_i8x16(a: v128, indices: v128) -> (r: v128)
    ensures
        forall|k: int|
            0 <= k < 16 && indices.lane_u8(k) < 16 ==> #[trigger] r.lane_u8(k) == a.lane_u8(
                indices.lane_u8(k),
            ),
{
    let x = to_bytes(a);
    let y = to_bytes(indices);
    let mut c: [u8; 16] = [0; 16];
    let mut i: usize = 0;
    while i < 16
        invariant
            i <= 16,
            forall|k: int| 0 <= k < 16 ==> #[trigger] x[k] == a.lane_u8(k),
            forall|k: int| 0 <= k < 16 ==> #[trigger] y[k] == indices.lane_u8(k),
            forall|k: int|
                0 <= k < i && indices.lane_u8(k) < 16 ==> #[trigger] c[k] == a.lane_u8(
                    indices.lane_u8(k),
                ),
        decreases 16 - i,
    {
        if y[i] < 16 {
            c[i] = x[y[i] as usize];
        }
        i += 1;
    }
    from_bytes(&c)
}

/// The sum of eight products of signed bytes, from byte `i` of `src` and byte 0 of `filter` on.
pub open spec fn dot8(src: v128, i: int, filter: v128) -> int {
    src.lane_i8(i) * filter.lane_i8(0) + src.lane_i8(i + 1) * filter.lane_i8(1) + src.lane_i8(i + 2)
        * filter.lane_i8(2) + src.lane_i8(i + 3) * filter.lane_i8(3) + src.lane_i8(i + 4)
        * filter.lane_i8(4) + src.lane_i8(i + 5) * filter.lane_i8(5) + src.lane_i8(i + 6)
        * filter.lane_i8(6) + src.lane_i8(i + 7) * filter.lane_i8(7)
}

/// An 8-tap filter at two adjacent positions.
///
/// `src` holds sixteen consecutive samples as signed bytes, and `filter` the eight taps as signed
/// bytes. Lane 0 is the filter on samples 0 to 7 and lane 1 the filter on samples 1 to 8, each
/// added to its lane of `acc`. The other lanes are zero.
pub fn filter_8tap_2x_relaxed(src: v128, filter: v128, acc: v128) -> (r: v128)
    ensures
        r.lane_i32(0) == wrap32(acc.lane_i32(0) + dot8(src, 0, filter)),
        r.lane_i32(1) == wrap32(acc.lane_i32(1) + dot8(src, 1, filter)),
        r.lane_i32(2) == 0,
        r.lane_i32(3) == 0,
{
    let x = to_signed_bytes(src);
    let y = to_signed_bytes(filter);
    let p = i32x4(dot_bytes(&x, 0, &y, 0, 8), dot_bytes(&x, 1, &y, 0, 8), 0, 0);
    proof {
        reveal_with_fuel(dot_seq, 9);
        assert(p.lane_i32(0) == dot8(src, 0, filter));
        assert(p.lane_i32(1) == dot8(src, 1, filter));
    }
    let base = i32x4(i32x4_extract_lane::<0>(acc), i32x4_extract_lane::<1>(acc), 0, 0);
    i32x4_add(base, p)
}

/// The sum of the absolute differences of the bytes of two vectors.
pub open spec fn sad_u8x16(a: v128, b: v128) -> int {
    sum16(|k: int| abs_int(a.lane_u8(k) - b.lane_u8(k)))
}

/// The sum of sixteen terms.
pub open spec fn sum16(f: spec_fn(int) -> int) -> int {
    f(0) + f(1) + f(2) + f(3) + f(4) + f(5) + f(6) + f(7) + f(8) + f(9) + f(10) + f(11) + f(12) + f(
        13,
    ) + f(14) + f(15)
}

/// Sum of absolute differences of bytes.
pub fn sad_u8x16_relaxed(a: v128, b: v128) -> (r: u32)
    ensures
        r == sad_u8x16(a, b),
{
    let d = abs_diff_u8x16(a, b);
    assert(sum_u8x16(d) == sad_u8x16(a, b));
    horizontal_sum_u8x16(d)
}

/// One lane of `smooth_blend_relaxed`.
pub open spec fn smooth_blend(above: int, below: int, weight: int) -> int {
    wrap16(shr(weight * above + (256 - weight) * below, 8))
}

/// One lane of `smooth_blend_relaxed`.
fn blend_lane(above: i16, below: i16, weight: i16) -> (r: i16)
    ensures
        r == smooth_blend(above as int, below as int, weight as int),
{
    let inverse: i32 = 256 - weight as i32;
    proof {
        vstd::arithmetic::power2::lemma2_to64();
        assert(pow2(8) == 256);
        lemma_mul_i16(weight as int, above as int);
        assert(-0x4080_0000 <= inverse * below <= 0x4080_0000) by (nonlinear_arith)
            requires
                -0x7eff <= inverse <= 0x8100,
                -0x8000 <= below <= 0x7fff,
        ;
    }
    let total: i64 = (weight as i32 * above as i32) as i64 + (inverse * below as i32) as i64;
    assert(shr(total as int, 8) == total as int / 256);
    wrap_to_i16(shr_i64(total, 8) as i32)
}

/// Weighted sums of two rows: `weight` parts of `above` and what is left of 256 parts of `below`,
/// divided by 256 and rounded down.
///
/// A weight is 0 to 255; then a sum lies between the two samples. With other weights the sum is
/// reduced to 16 bits.
pub fn smooth_blend_relaxed(above: v128, below: v128, weight: v128) -> (r: v128)
    ensures
        forall|k: int|
            0 <= k < 8 ==> #[trigger] r.lane_i16(k) == smooth_blend(
                above.lane_i16(k),
                below.lane_i16(k),
                weight.lane_i16(k),
            ),
{
    let a = to_signed_halves(above);
    let b = to_signed_halves(below);
    let w = to_signed_halves(weight);
    let mut h: [i16; 8] = [0; 8];
    let mut i: usize = 0;
    while i < 8
        invariant
            i <= 8,
            forall|k: int| 0 <= k < 8 ==> #[trigger] a[k] == above.lane_i16(k),
            forall|k: int| 0 <= k < 8 ==> #[trigger] b[k] == below.lane_i16(k),
            forall|k: int| 0 <= k < 8 ==> #[trigger] w[k] == weight.lane_i16(k),
            forall|k: int|
                0 <= k < i ==> #[trigger] h[k] == smooth_blend(
                    above.lane_i16(k),
                    below.lane_i16(k),
                    weight.lane_i16(k),
                ),
        decreases 8 - i,
    {
        h[i] = blend_lane(a[i], b[i], w[i]);
        i += 1;
    }
    from_signed_halves(&h)
}

/// A blend with a weight in range lies between the two samples.
pub proof fn lemma_blend_range(above: int, below: int, weight: int)
    requires
        0 <= weight <= 255,
        -0x8000 <= above <= 0x7fff,
        -0x8000 <= below <= 0x7fff,
    ensures
        smooth_blend(above, below, weight) == shr(weight * above + (256 - weight) * below, 8),
        min_int(above, below) <= smooth_blend(above, below, weight) <= max_int(above, below),
{
    vstd::arithmetic::power2::lemma2_to64();
    assert(pow2(8) == 256);
    let lo = min_int(above, below);
    let hi = max_int(above, below);
    assert(256 * lo <= weight * above + (256 - weight) * below <= 256 * hi) by (nonlinear_arith)
        requires
            0 <= weight <= 255,
            lo <= above <= hi,
            lo <= below <= hi,
    ;
    let total = weight * above + (256 - weight) * below;
    assert(shr(total, 8) == total / 256);
    assert(lo <= total / 256 <= hi);
}

} // verus!
