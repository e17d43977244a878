//! Distortion between two blocks: sums of absolute differences, of transformed differences and
//! of squares.

pub mod cdef_dist;
pub mod satd;
pub mod sse;

pub use self::cdef_dist::cdef_dist_kernel;
pub use self::sse::get_weighted_sse;

use crate::arch::{
    u16x8, u16x8_extend_high_u8x16, u16x8_extend_low_u8x16, u32x4, u32x4_add,
    u32x4_extend_high_u16x8, u32x4_extend_low_u16x8, u32x4_splat, v128,
};
use crate::cpu_features::{cpu_function_lookup_table, CpuFeatureLevel};
use crate::math::{abs_int, unsigned_abs_i32};
use crate::partition::BlockSize;
use crate::pixel::{load16, load4, load8, PixelType, Sample};
use crate::plane::PlaneRegion;
use crate::simd_helpers::{abs_diff_u16x8, abs_diff_u8x16, horizontal_sum_u32x4, sum_u32x4};
use crate::sums::{
    block_sum, lemma_block_sum_bound, lemma_block_sum_eq, lemma_block_sum_mono, lemma_sum_16,
    row_of, sum,
};
use vstd::prelude::*;

verus! {

broadcast use {crate::math::group_wrap, crate::vector::group_lanes};

/// The absolute differences of the samples of two blocks.
pub open spec fn abs_diffs<T: Sample>(
    src: PlaneRegion<'_, T>,
    dst: PlaneRegion<'_, T>,
) -> spec_fn(int, int) -> int {
    |y: int, x: int| abs_int(src.at(y, x) - dst.at(y, x))
}

/// The sum of the absolute differences of two blocks of `w` columns and `h` rows.
pub open spec fn sad<T: Sample>(
    src: PlaneRegion<'_, T>,
    dst: PlaneRegion<'_, T>,
    w: int,
    h: int,
) -> int {
    block_sum(abs_diffs(src, dst), w, h)
}

/// The sixteen bytes of a vector, summed four and four into its 32-bit lanes.
fn spread_u8x16(diff: v128) -> (r: v128)
    ensures
        forall|k: int|
            0 <= k < 4 ==> #[trigger] r.lane_u32(k) == diff.lane_u8(k) + diff.lane_u8(k + 4)
                + diff.lane_u8(k + 8) + diff.lane_u8(k + 12),
{
    let lo16 = u16x8_extend_low_u8x16(diff);
    let hi16 = u16x8_extend_high_u8x16(diff);
    let lo32 = u32x4_add(u32x4_extend_low_u16x8(lo16), u32x4_extend_high_u16x8(lo16));
    let hi32 = u32x4_add(u32x4_extend_low_u16x8(hi16), u32x4_extend_high_u16x8(hi16));
    let r = u32x4_add(lo32, hi32);
    assert forall|k: int| 0 <= k < 4 implies #[trigger] r.lane_u32(k) == diff.lane_u8(k)
        + diff.lane_u8(k + 4) + diff.lane_u8(k + 8) + diff.lane_u8(k + 12) by {
        assert(lo16.lane_u16(k) == diff.lane_u8(k));
        assert(lo16.lane_u16(k + 4) == diff.lane_u8(k + 4));
        assert(hi16.lane_u16(k) == diff.lane_u8(k + 8));
        assert(hi16.lane_u16(k + 4) == diff.lane_u8(k + 12));
        assert(lo32.lane_u32(k) == diff.lane_u8(k) + diff.lane_u8(k + 4));
        assert(hi32.lane_u32(k) == diff.lane_u8(k + 8) + diff.lane_u8(k + 12));
    }
    r
}

/// Adding lanes that do not overflow in total adds their sums.
fn accumulate(acc: v128, d: v128) -> (r: v128)
    requires
        sum_u32x4(acc) + sum_u32x4(d) <= u32::MAX,
    ensures
        sum_u32x4(r) == sum_u32x4(acc) + sum_u32x4(d),
{
    let r = u32x4_add(acc, d);
    assert(r.lane_u32(0) == acc.lane_u32(0) + d.lane_u32(0));
    assert(r.lane_u32(1) == acc.lane_u32(1) + d.lane_u32(1));
    assert(r.lane_u32(2) == acc.lane_u32(2) + d.lane_u32(2));
    assert(r.lane_u32(3) == acc.lane_u32(3) + d.lane_u32(3));
    r
}

/// The sum of absolute differences of blocks of eight-bit samples, sixteen columns at a time.
fn sad_wxh_simd128<T: Sample>(
    src: &PlaneRegion<'_, T>,
    dst: &PlaneRegion<'_, T>,
    w: usize,
    h: usize,
) -> (r: u32)
    requires
        T::storage() == PixelType::U8,
        src.covers(w as int, h as int),
        dst.covers(w as int, h as int),
        sad(*src, *dst, w as int, h as int) <= u32::MAX,
    ensures
        r == sad(*src, *dst, w as int, h as int),
{
    let ghost f = abs_diffs(*src, *dst);
    let mut acc = u32x4_splat(0);
    assert(sum_u32x4(acc) == 0) by {
        assert(acc.lane_u32(0) == 0 && acc.lane_u32(1) == 0 && acc.lane_u32(2) == 0 && acc.lane_u32(
            3,
        ) == 0);
    }
    let mut y: usize = 0;
    while y < h
        invariant
            y <= h,
            T::storage() == PixelType::U8,
            src.covers(w as int, h as int),
            dst.covers(w as int, h as int),
            f == abs_diffs(*src, *dst),
            block_sum(f, w as int, h as int) <= u32::MAX,
            sum_u32x4(acc) == block_sum(f, w as int, y as int),
        decreases h - y,
    {
        proof {
            src.lemma_covers_fewer(w as int, h as int, y + 1);
            dst.lemma_covers_fewer(w as int, h as int, y + 1);
        }
        let s_row = src.row(y, w);
        let d_row = dst.row(y, w);
        let ghost g = row_of(f, y as int);
        let ghost done = block_sum(f, w as int, y as int);
        let mut x: usize = 0;
        while w - x >= 16
            invariant
                x <= w,
                y < h,
                T::storage() == PixelType::U8,
                s_row@.len() == w,
                d_row@.len() == w,
                f == abs_diffs(*src, *dst),
                g == row_of(f, y as int),
                done == block_sum(f, w as int, y as int),
                block_sum(f, w as int, h as int) <= u32::MAX,
                forall|i: int| 0 <= i < w ==> (#[trigger] s_row@[i]).val() == src.at(y as int, i),
                forall|i: int| 0 <= i < w ==> (#[trigger] d_row@[i]).val() == dst.at(y as int, i),
                sum_u32x4(acc) == done + sum(g, x as int),
            decreases w - x,
        {
            let s = load16(s_row, x);
            let d = load16(d_row, x);
            let diff = abs_diff_u8x16(s, d);
            let part = spread_u8x16(diff);
            proof {
                assert forall|k: int| 0 <= k < 16 implies #[trigger] diff.lane_u8(k) == g(x + k) by {
                    assert(s.lane_u8(k) == s_row@[x + k].val());
                    assert(d.lane_u8(k) == d_row@[x + k].val());
                }
                lemma_sum_16(g, x as int);
                assert(part.lane_u32(0) == g(x + 0) + g(x + 4) + g(x + 8) + g(x + 12));
                assert(part.lane_u32(1) == g(x + 1) + g(x + 5) + g(x + 9) + g(x + 13));
                assert(part.lane_u32(2) == g(x + 2) + g(x + 6) + g(x + 10) + g(x + 14));
                assert(part.lane_u32(3) == g(x + 3) + g(x + 7) + g(x + 11) + g(x + 15));
                lemma_block_sum_mono(f, w as int, h as int, y as int, x + 16);
            }
            acc = accumulate(acc, part);
            x += 16;
        }
        while w - x >= 8
            invariant
                x <= w,
                y < h,
                T::storage() == PixelType::U8,
                s_row@.len() == w,
                d_row@.len() == w,
                f == abs_diffs(*src, *dst),
                g == row_of(f, y as int),
                done == block_sum(f, w as int, y as int),
                block_sum(f, w as int, h as int) <= u32::MAX,
                forall|i: int| 0 <= i < w ==> (#[trigger] s_row@[i]).val() == src.at(y as int, i),
                forall|i: int| 0 <= i < w ==> (#[trigger] d_row@[i]).val() == dst.at(y as int, i),
                sum_u32x4(acc) == done + sum(g, x as int),
            decreases w - x,
        {
            let s = load8(s_row, x);
            let d = load8(d_row, x);
            let diff = abs_diff_u8x16(s, d);
            let part = spread_u8x16(diff);
            proof {
                assert forall|k: int| 0 <= k < 8 implies #[trigger] diff.lane_u8(k) == g(x + k) by {
                    assert(s.lane_u8(k) == s_row@[x + k].val());
                    assert(d.lane_u8(k) == d_row@[x + k].val());
                }
                assert forall|k: int| 8 <= k < 16 implies #[trigger] diff.lane_u8(k) == 0 by {
                    assert(s.lane_u8(k) == 0 && d.lane_u8(k) == 0);
                }
                reveal_with_fuel(sum, 9);
                assert(part.lane_u32(0) == g(x + 0) + g(x + 4));
                assert(part.lane_u32(1) == g(x + 1) + g(x + 5));
                assert(part.lane_u32(2) == g(x + 2) + g(x + 6));
                assert(part.lane_u32(3) == g(x + 3) + g(x + 7));
                lemma_block_sum_mono(f, w as int, h as int, y as int, x + 8);
            }
            acc = accumulate(acc, part);
            x += 8;
        }
        if w - x >= 4 {
            let s = load4(s_row, x);
            let d = load4(d_row, x);
            let diff = abs_diff_u8x16(s, d);
            let part = spread_u8x16(diff);
            proof {
                assert forall|k: int| 0 <= k < 4 implies #[trigger] diff.lane_u8(k) == g(x + k) by {
                    assert(s.lane_u8(k) == s_row@[x + k].val());
                    assert(d.lane_u8(k) == d_row@[x + k].val());
                }
                assert forall|k: int| 4 <= k < 16 implies #[trigger] diff.lane_u8(k) == 0 by {
                    assert(s.lane_u8(k) == 0 && d.lane_u8(k) == 0);
                }
                reveal_with_fuel(sum, 5);
                assert(part.lane_u32(0) == g(x + 0));
                assert(part.lane_u32(1) == g(x + 1));
                assert(part.lane_u32(2) == g(x + 2));
                assert(part.lane_u32(3) == g(x + 3));
                lemma_block_sum_mono(f, w as int, h as int, y as int, x + 4);
            }
            acc = accumulate(acc, part);
            x += 4;
        }
        while x < w
            invariant
                x <= w,
                y < h,
                s_row@.len() == w,
                d_row@.len() == w,
                f == abs_diffs(*src, *dst),
                g == row_of(f, y as int),
                done == block_sum(f, w as int, y as int),
                block_sum(f, w as int, h as int) <= u32::MAX,
                forall|i: int| 0 <= i < w ==> (#[trigger] s_row@[i]).val() == src.at(y as int, i),
                forall|i: int| 0 <= i < w ==> (#[trigger] d_row@[i]).val() == dst.at(y as int, i),
                sum_u32x4(acc) == done + sum(g, x as int),
            decreases w - x,
        {
            let s: i32 = s_row[x].to_i32();
            let d: i32 = d_row[x].to_i32();
            let part = u32x4(unsigned_abs_i32(s - d), 0, 0, 0);
            proof {
                assert(sum_u32x4(part) == g(x as int));
                lemma_block_sum_mono(f, w as int, h as int, y as int, x + 1);
            }
            acc = accumulate(acc, part);
            x += 1;
        }
        y += 1;
    }
    horizontal_sum_u32x4(acc)
}

/// A sample as a 16-bit number.
fn half_of<T: Sample>(p: T) -> (r: u16)
    ensures
        r == p.val(),
{
    p.to_i32() as u16
}

/// Eight samples.
fn load_u16x8<T: Sample>(s: &[T], at: usize) -> (r: v128)
    requires
        at + 8 <= s@.len(),
    ensures
        forall|k: int| 0 <= k < 8 ==> #[trigger] r.lane_u16(k) == s@[at + k].val(),
{
    u16x8(
        half_of(s[at]),
        half_of(s[at + 1]),
        half_of(s[at + 2]),
        half_of(s[at + 3]),
        half_of(s[at + 4]),
        half_of(s[at + 5]),
        half_of(s[at + 6]),
        half_of(s[at + 7]),
    )
}

/// Four samples, and zeros.
fn load_u16x4<T: Sample>(s: &[T], at: usize) -> (r: v128)
    requires
        at + 4 <= s@.len(),
    ensures
        forall|k: int| 0 <= k < 4 ==> #[trigger] r.lane_u16(k) == s@[at + k].val(),
        forall|k: int| 4 <= k < 8 ==> #[trigger] r.lane_u16(k) == 0,
{
    u16x8(half_of(s[at]), half_of(s[at + 1]), half_of(s[at + 2]), half_of(s[at + 3]), 0, 0, 0, 0)
}

/// The eight 16-bit lanes of a vector, summed two and two into its 32-bit lanes.
fn spread_u16x8(diff: v128) -> (r: v128)
    ensures
        forall|k: int|
            0 <= k < 4 ==> #[trigger] r.lane_u32(k) == diff.lane_u16(k) + diff.lane_u16(k + 4),
{
    u32x4_add(u32x4_extend_low_u16x8(diff), u32x4_extend_high_u16x8(diff))
}

/// The sum of absolute differences of blocks, eight columns of 16-bit samples at a time.
fn sad_hbd_wxh_simd128<T: Sample>(
    src: &PlaneRegion<'_, T>,
    dst: &PlaneRegion<'_, T>,
    w: usize,
    h: usize,
) -> (r: u32)
    requires
        src.covers(w as int, h as int),
        dst.covers(w as int, h as int),
        sad(*src, *dst, w as int, h as int) <= u32::MAX,
    ensures
        r == sad(*src, *dst, w as int, h as int),
{
    let ghost f = abs_diffs(*src, *dst);
    let mut acc = u32x4_splat(0);
    assert(sum_u32x4(acc) == 0) by {
        assert(acc.lane_u32(0) == 0 && acc.lane_u32(1) == 0 && acc.lane_u32(2) == 0 && acc.lane_u32(
            3,
        ) == 0);
    }
    let mut y: usize = 0;
    while y < h
        invariant
            y <= h,
            src.covers(w as int, h as int),
            dst.covers(w as int, h as int),
            f == abs_diffs(*src, *dst),
            block_sum(f, w as int, h as int) <= u32::MAX,
            sum_u32x4(acc) == block_sum(f, w as int, y as int),
        decreases h - y,
    {
        proof {
            src.lemma_covers_fewer(w as int, h as int, y + 1);
            dst.lemma_covers_fewer(w as int, h as int, y + 1);
        }
        let s_row = src.row(y, w);
        let d_row = dst.row(y, w);
        let ghost g = row_of(f, y as int);
        let ghost done = block_sum(f, w as int, y as int);
        let mut x: usize = 0;
        while w - x >= 8
            invariant
                x <= w,
                y < h,
                s_row@.len() == w,
                d_row@.len() == w,
                f == abs_diffs(*src, *dst),
                g == row_of(f, y as int),
                done == block_sum(f, w as int, y as int),
                block_sum(f, w as int, h as int) <= u32::MAX,
                forall|i: int| 0 <= i < w ==> (#[trigger] s_row@[i]).val() == src.at(y as int, i),
                forall|i: int| 0 <= i < w ==> (#[trigger] d_row@[i]).val() == dst.at(y as int, i),
                sum_u32x4(acc) == done + sum(g, x as int),
            decreases w - x,
        {
            let s = load_u16x8(s_row, x);
            let d = load_u16x8(d_row, x);
            let diff = abs_diff_u16x8(s, d);
            let part = spread_u16x8(diff);
            proof {
                assert forall|k: int| 0 <= k < 8 implies #[trigger] diff.lane_u16(k) == g(x + k) by {
                    assert(s.lane_u16(k) == s_row@[x + k].val());
                    assert(d.lane_u16(k) == d_row@[x + k].val());
                }
                reveal_with_fuel(sum, 9);
                assert(part.lane_u32(0) == g(x + 0) + g(x + 4));
                assert(part.lane_u32(1) == g(x + 1) + g(x + 5));
                assert(part.lane_u32(2) == g(x + 2) + g(x + 6));
                assert(part.lane_u32(3) == g(x + 3) + g(x + 7));
                lemma_block_sum_mono(f, w as int, h as int, y as int, x + 8);
            }
            acc = accumulate(acc, part);
            x += 8;
        }
        if w - x >= 4 {
            let s = load_u16x4(s_row, x);
            let d = load_u16x4(d_row, x);
            let diff = abs_diff_u16x8(s, d);
            let part = spread_u16x8(diff);
            proof {
                assert forall|k: int| 0 <= k < 4 implies #[trigger] diff.lane_u16(k) == g(x + k) by {
                    assert(s.lane_u16(k) == s_row@[x + k].val());
                    assert(d.lane_u16(k) == d_row@[x + k].val());
                }
                assert forall|k: int| 4 <= k < 8 implies #[trigger] diff.lane_u16(k) == 0 by {
                    assert(s.lane_u16(k) == 0 && d.lane_u16(k) == 0);
                }
                reveal_with_fuel(sum, 5);
                assert(part.lane_u32(0) == g(x + 0));
                assert(part.lane_u32(1) == g(x + 1));
                assert(part.lane_u32(2) == g(x + 2));
                assert(part.lane_u32(3) == g(x + 3));
                lemma_block_sum_mono(f, w as int, h as int, y as int, x + 4);
            }
            acc = accumulate(acc, part);
            x += 4;
        }
        while x < w
            invariant
                x <= w,
                y < h,
                s_row@.len() == w,
                d_row@.len() == w,
                f == abs_diffs(*src, *dst),
                g == row_of(f, y as int),
                done == block_sum(f, w as int, y as int),
                block_sum(f, w as int, h as int) <= u32::MAX,
                forall|i: int| 0 <= i < w ==> (#[trigger] s_row@[i]).val() == src.at(y as int, i),
                forall|i: int| 0 <= i < w ==> (#[trigger] d_row@[i]).val() == dst.at(y as int, i),
                sum_u32x4(acc) == done + sum(g, x as int),
            decreases w - x,
        {
            let s: i32 = s_row[x].to_i32();
            let d: i32 = d_row[x].to_i32();
            let part = u32x4(unsigned_abs_i32(s - d), 0, 0, 0);
            proof {
                assert(sum_u32x4(part) == g(x as int));
                lemma_block_sum_mono(f, w as int, h as int, y as int, x + 1);
            }
            acc = accumulate(acc, part);
            x += 1;
        }
        y += 1;
    }
    horizontal_sum_u32x4(acc)
}

/// The absolute differences of two blocks whose top left samples are in row `y0`, column `x0`.
pub open spec fn shifted(
    f: spec_fn(int, int) -> int,
    y0: int,
    x0: int,
) -> spec_fn(int, int) -> int {
    |y: int, x: int| f(y0 + y, x0 + x)
}

/// The sum of absolute differences of `w` columns and `h` rows, from row `y0` and column `x0` of
/// the windows on, one sample at a time.
pub(crate) fn sad_block_scalar<T: Sample>(
    src: &PlaneRegion<'_, T>,
    dst: &PlaneRegion<'_, T>,
    y0: usize,
    x0: usize,
    w: usize,
    h: usize,
) -> (r: u32)
    requires
        x0 + w <= usize::MAX,
        y0 + h <= usize::MAX,
        src.covers(x0 + w, y0 + h),
        dst.covers(x0 + w, y0 + h),
        block_sum(shifted(abs_diffs(*src, *dst), y0 as int, x0 as int), w as int, h as int)
            <= u32::MAX,
    ensures
        r == block_sum(shifted(abs_diffs(*src, *dst), y0 as int, x0 as int), w as int, h as int),
{
    let ghost f = shifted(abs_diffs(*src, *dst), y0 as int, x0 as int);
    let mut total: u32 = 0;
    let mut y: usize = 0;
    while y < h
        invariant
            y <= h,
            x0 + w <= usize::MAX,
            y0 + h <= usize::MAX,
            src.covers(x0 + w, y0 + h),
            dst.covers(x0 + w, y0 + h),
            f == shifted(abs_diffs(*src, *dst), y0 as int, x0 as int),
            block_sum(f, w as int, h as int) <= u32::MAX,
            total == block_sum(f, w as int, y as int),
        decreases h - y,
    {
        proof {
            src.lemma_covers_fewer(x0 + w, y0 + h, y0 + y + 1);
            dst.lemma_covers_fewer(x0 + w, y0 + h, y0 + y + 1);
        }
        let s_row = src.row(y0 + y, x0 + w);
        let d_row = dst.row(y0 + y, x0 + w);
        let ghost g = row_of(f, y as int);
        let ghost done = block_sum(f, w as int, y as int);
        let mut x: usize = 0;
        while x < w
            invariant
                x <= w,
                y < h,
                x0 + w <= usize::MAX,
                s_row@.len() == x0 + w,
                d_row@.len() == x0 + w,
                f == shifted(abs_diffs(*src, *dst), y0 as int, x0 as int),
                g == row_of(f, y as int),
                done == block_sum(f, w as int, y as int),
                block_sum(f, w as int, h as int) <= u32::MAX,
                forall|i: int|
                    0 <= i < x0 + w ==> (#[trigger] s_row@[i]).val() == src.at(y0 + y, i),
                forall|i: int|
                    0 <= i < x0 + w ==> (#[trigger] d_row@[i]).val() == dst.at(y0 + y, i),
                total == done + sum(g, x as int),
            decreases w - x,
        {
            let s: i32 = s_row[x0 + x].to_i32();
            let d: i32 = d_row[x0 + x].to_i32();
            proof {
                assert(g(x as int) == abs_int(s - d));
                lemma_block_sum_mono(f, w as int, h as int, y as int, x + 1);
            }
            total = total + unsigned_abs_i32(s - d);
            x += 1;
        }
        y += 1;
    }
    total
}

/// Whether a level has a vector kernel for a block: every block has one where there are vectors.
fn has_dist_kernel(cpu: CpuFeatureLevel, _bsize: BlockSize) -> (r: bool)
    ensures
        r == (cpu == CpuFeatureLevel::SIMD128),
{
    cpu_function_lookup_table(false, Some(true))[cpu.as_index()]
}

/// Sum of absolute differences of two blocks of `w` columns and `h` rows.
pub fn get_sad<T: Sample>(
    src: &PlaneRegion<'_, T>,
    dst: &PlaneRegion<'_, T>,
    w: usize,
    h: usize,
    _bit_depth: usize,
    cpu: CpuFeatureLevel,
) -> (r: u32)
    requires
        src.covers(w as int, h as int),
        dst.covers(w as int, h as int),
        sad(*src, *dst, w as int, h as int) <= u32::MAX,
    ensures
        r == sad(*src, *dst, w as int, h as int),
{
    let vector = match BlockSize::from_width_and_height_opt(w, h) {
        Ok(bsize) => has_dist_kernel(cpu, bsize),
        Err(_) => false,
    };
    if vector {
        match T::type_enum() {
            PixelType::U8 => sad_wxh_simd128(src, dst, w, h),
            PixelType::U16 => sad_hbd_wxh_simd128(src, dst, w, h),
        }
    } else {
        proof {
            let f = abs_diffs(*src, *dst);
            lemma_block_sum_eq(f, shifted(f, 0, 0), w as int, h as int);
        }
        sad_block_scalar(src, dst, 0, 0, w, h)
    }
}

/// Sum of absolute transformed differences of two blocks of `w` columns and `h` rows, under the
/// Hadamard transform.
pub fn get_satd<T: Sample>(
    src: &PlaneRegion<'_, T>,
    dst: &PlaneRegion<'_, T>,
    w: usize,
    h: usize,
    _bit_depth: usize,
    _cpu: CpuFeatureLevel,
) -> (r: u32)
    requires
        src.covers(w as int, h as int),
        dst.covers(w as int, h as int),
        satd::satd(*src, *dst, w as int, h as int) <= u32::MAX,
    ensures
        r == satd::satd(*src, *dst, w as int, h as int),
{
    satd::satd_wxh_simd128(src, dst, w, h)
}

/// Whether two pairs of blocks, of whatever storage, have the same samples.
pub open spec fn same_samples<T: Sample, U: Sample>(
    src: PlaneRegion<'_, T>,
    dst: PlaneRegion<'_, T>,
    src2: PlaneRegion<'_, U>,
    dst2: PlaneRegion<'_, U>,
    w: int,
    h: int,
) -> bool {
    &&& forall|y: int, x: int|
        0 <= y < h && 0 <= x < w ==> #[trigger] src.at(y, x) == src2.at(y, x)
    &&& forall|y: int, x: int|
        0 <= y < h && 0 <= x < w ==> #[trigger] dst.at(y, x) == dst2.at(y, x)
}

/// The distance of two blocks depends on their samples alone: it is the same for samples of eight
/// and of sixteen bits.
pub proof fn lemma_sad_same<T: Sample, U: Sample>(
    src: PlaneRegion<'_, T>,
    dst: PlaneRegion<'_, T>,
    src2: PlaneRegion<'_, U>,
    dst2: PlaneRegion<'_, U>,
    w: int,
    h: int,
)
    requires
        same_samples(src, dst, src2, dst2, w, h),
    ensures
        sad(src, dst, w, h) == sad(src2, dst2, w, h),
{
    let f = abs_diffs(src, dst);
    let g = abs_diffs(src2, dst2);
    assert forall|y: int, x: int| 0 <= y < h && 0 <= x < w implies #[trigger] f(y, x) == g(
        y,
        x,
    ) by {
        assert(src.at(y, x) == src2.at(y, x));
        assert(dst.at(y, x) == dst2.at(y, x));
    }
    lemma_block_sum_eq(f, g, w, h);
}

/// Equal blocks are at no distance.
pub proof fn lemma_sad_equal<T: Sample>(
    src: PlaneRegion<'_, T>,
    dst: PlaneRegion<'_, T>,
    w: int,
    h: int,
)
    requires
        0 <= w,
        0 <= h,
        forall|y: int, x: int| 0 <= y < h && 0 <= x < w ==> #[trigger] src.at(y, x) == dst.at(y, x),
    ensures
        sad(src, dst, w, h) == 0,
{
    let f = abs_diffs(src, dst);
    assert forall|y: int, x: int| 0 <= y < h && 0 <= x < w implies 0 <= #[trigger] f(y, x) <= 0 by {
        assert(src.at(y, x) == dst.at(y, x));
    }
    lemma_block_sum_bound(f, w, h, 0);
    assert(0 * w * h == 0) by (nonlinear_arith);
}

/// Blocks at no distance are equal.
pub proof fn lemma_sad_zero<T: Sample>(
    src: PlaneRegion<'_, T>,
    dst: PlaneRegion<'_, T>,
    w: int,
    h: int,
    y: int,
    x: int,
)
    requires
        sad(src, dst, w, h) == 0,
        0 <= y < h,
        0 <= x < w,
    ensures
        src.at(y, x) == dst.at(y, x),
{
    let f = abs_diffs(src, dst);
    lemma_block_sum_mono(f, w, h, y, x);
    lemma_block_sum_mono(f, w, h, y, x + 1);
    assert(sum(row_of(f, y), x + 1) == sum(row_of(f, y), x) + f(y, x));
}

/// The distance of two blocks does not depend on their order.
pub proof fn lemma_sad_symmetric<T: Sample>(
    src: PlaneRegion<'_, T>,
    dst: PlaneRegion<'_, T>,
    w: int,
    h: int,
)
    ensures
        sad(src, dst, w, h) == sad(dst, src, w, h),
{
    lemma_block_sum_eq(abs_diffs(src, dst), abs_diffs(dst, src), w, h);
}

/// The distance of blocks of up to 2^16 samples has 32 bits.
pub proof fn lemma_sad_fits<T: Sample>(
    src: PlaneRegion<'_, T>,
    dst: PlaneRegion<'_, T>,
    w: int,
    h: int,
)
    requires
        0 <= w,
        0 <= h,
        w * h <= 0x1_0000,
    ensures
        sad(src, dst, w, h) <= u32::MAX,
{
    let f = abs_diffs(src, dst);
    assert forall|y: int, x: int| 0 <= y < h && 0 <= x < w implies 0 <= #[trigger] f(y, x)
        <= 0xffff by {
        src.lemma_at_range(y, x);
        dst.lemma_at_range(y, x);
    }
    lemma_block_sum_bound(f, w, h, 0xffff);
    assert(0xffff * w * h == 0xffff * (w * h)) by (nonlinear_arith);
}

} // verus!
