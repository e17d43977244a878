//! Weighted sums of squared differences.

use crate::arch::{
    i32x4, i32x4_sub, i64x2_add, i64x2_extmul_high_i32x4, i64x2_extmul_low_i32x4, i64x2_splat, v128,
};
use crate::cpu_features::CpuFeatureLevel;
use crate::dist::satd::count_steps;
use crate::dist::{same_samples, shifted};
use crate::math::{min_int, min_usize};
use crate::pixel::{PixelType, Sample};
use crate::plane::PlaneRegion;
use crate::simd_helpers::horizontal_sum_i64x2;
use crate::sums::{
    block_sum, lemma_block_sum_bound, lemma_block_sum_eq, lemma_block_sum_mono,
    lemma_block_sum_nonneg, row_of, sum,
};
use vstd::prelude::*;

verus! {

broadcast use {crate::math::group_wrap, crate::vector::group_lanes};

/// The squares of the differences of the samples of two blocks.
pub open spec fn sq_diffs<T: Sample>(
    src: PlaneRegion<'_, T>,
    dst: PlaneRegion<'_, T>,
) -> spec_fn(int, int) -> int {
    |y: int, x: int| (src.at(y, x) - dst.at(y, x)) * (src.at(y, x) - dst.at(y, x))
}

/// The number of parts of a row of chunks: chunks of four columns, and the columns that are left.
pub open spec fn part_count(w: int) -> int {
    w / 4 + w % 4
}

/// The first column of a part.
pub open spec fn part_column(w: int, p: int) -> int {
    if p < w / 4 {
        4 * p
    } else {
        4 * (w / 4) + (p - w / 4)
    }
}

/// The number of columns of a part.
pub open spec fn part_width(w: int, p: int) -> int {
    if p < w / 4 {
        4
    } else {
        1
    }
}

/// The squared differences of part `p` of chunk row `c`.
pub open spec fn part_sse<T: Sample>(
    src: PlaneRegion<'_, T>,
    dst: PlaneRegion<'_, T>,
    w: int,
    h: int,
    c: int,
    p: int,
) -> int {
    block_sum(
        shifted(sq_diffs(src, dst), 4 * c, part_column(w, p)),
        part_width(w, p),
        min_int(h - 4 * c, 4),
    )
}

/// The position of the weight of part `p` of chunk row `c`.
pub open spec fn scale_index(scale_stride: int, w: int, c: int, p: int) -> int {
    c * scale_stride + part_column(w, p) / 4
}

/// The weighted squared differences of part `p` of chunk row `c`, scaled down by 256.
pub open spec fn part_terms<T: Sample>(
    src: PlaneRegion<'_, T>,
    dst: PlaneRegion<'_, T>,
    scale: Seq<u32>,
    scale_stride: int,
    w: int,
    h: int,
) -> spec_fn(int, int) -> int {
    |c: int, p: int|
        (part_sse(src, dst, w, h, c, p) * scale[scale_index(scale_stride, w, c, p)] + 128) / 256
}

/// The sum of the weighted squared differences of two blocks, before the final scaling.
pub open spec fn raw_weighted_sse<T: Sample>(
    src: PlaneRegion<'_, T>,
    dst: PlaneRegion<'_, T>,
    scale: Seq<u32>,
    scale_stride: int,
    w: int,
    h: int,
) -> int {
    block_sum(part_terms(src, dst, scale, scale_stride, w, h), part_count(w), (h + 3) / 4)
}

/// The sum of the weighted squared differences of two blocks: a weight of `2^14` counts once.
pub open spec fn weighted_sse<T: Sample>(
    src: PlaneRegion<'_, T>,
    dst: PlaneRegion<'_, T>,
    scale: Seq<u32>,
    scale_stride: int,
    w: int,
    h: int,
) -> int {
    (raw_weighted_sse(src, dst, scale, scale_stride, w, h) + 32) / 64
}

/// Whether there is a weight for every part of a block.
pub open spec fn scales_suffice(len: int, scale_stride: int, w: int, h: int) -> bool {
    forall|c: int, p: int|
        0 <= c < (h + 3) / 4 && 0 <= p < part_count(w) ==> 0 <= #[trigger] scale_index(
            scale_stride,
            w,
            c,
            p,
        ) < len
}

/// Whether the weighted differences fit 64 bits, part by part. Those of eight-bit samples do.
pub open spec fn products_fit<T: Sample>(
    src: PlaneRegion<'_, T>,
    dst: PlaneRegion<'_, T>,
    scale: Seq<u32>,
    scale_stride: int,
    w: int,
    h: int,
) -> bool {
    T::storage() == PixelType::U8 || forall|c: int, p: int|
        #![trigger part_sse(src, dst, w, h, c, p)]
        0 <= c < (h + 3) / 4 && 0 <= p < part_count(w) ==> part_sse(src, dst, w, h, c, p)
            * scale[scale_index(scale_stride, w, c, p)] + 128 <= u64::MAX
}

/// A difference of samples, squared.
proof fn lemma_square(d: int, top: int)
    requires
        -top <= d <= top,
    ensures
        0 <= d * d <= top * top,
{
    assert(0 <= d * d <= top * top) by (nonlinear_arith)
        requires
            -top <= d <= top,
    ;
}

/// The squared difference of two samples.
proof fn lemma_sq_diff_range<T: Sample>(
    src: PlaneRegion<'_, T>,
    dst: PlaneRegion<'_, T>,
    y: int,
    x: int,
)
    ensures
        0 <= sq_diffs(src, dst)(y, x) <= 0xfffe_0001,
        T::storage() == PixelType::U8 ==> sq_diffs(src, dst)(y, x) <= 0xfe01,
{
    src.lemma_at_range(y, x);
    dst.lemma_at_range(y, x);
    lemma_square(src.at(y, x) - dst.at(y, x), 0xffff);
    if T::storage() == PixelType::U8 {
        lemma_square(src.at(y, x) - dst.at(y, x), 0xff);
    }
}

/// Four differences of two rows.
fn diff_four<T: Sample>(s: &[T], d: &[T], at: usize) -> (r: v128)
    requires
        at + 4 <= s@.len(),
        at + 4 <= d@.len(),
    ensures
        forall|k: int|
            0 <= k < 4 ==> #[trigger] r.lane_i32(k) == s@[at + k].val() - d@[at + k].val()
                && -0xffff <= r.lane_i32(k) <= 0xffff,
{
    let a = i32x4(s[at].to_i32(), s[at + 1].to_i32(), s[at + 2].to_i32(), s[at + 3].to_i32());
    let b = i32x4(d[at].to_i32(), d[at + 1].to_i32(), d[at + 2].to_i32(), d[at + 3].to_i32());
    let r = i32x4_sub(a, b);
    assert forall|k: int| 0 <= k < 4 implies #[trigger] r.lane_i32(k) == s@[at + k].val() - d@[at
        + k].val() && -0xffff <= r.lane_i32(k) <= 0xffff by {
        assert(a.lane_i32(k) == s@[at + k].val());
        assert(b.lane_i32(k) == d@[at + k].val());
        s@[at + k].lemma_val(s@[at + k]);
        d@[at + k].lemma_val(d@[at + k]);
    }
    r
}

/// The squared differences of a chunk of four columns.
fn sse_chunk<T: Sample>(
    src: &PlaneRegion<'_, T>,
    dst: &PlaneRegion<'_, T>,
    y0: usize,
    x0: usize,
    ch: usize,
) -> (r: u64)
    requires
        ch <= 4,
        x0 + 4 <= usize::MAX,
        y0 + ch <= usize::MAX,
        src.covers(x0 + 4, y0 + ch),
        dst.covers(x0 + 4, y0 + ch),
    ensures
        r == block_sum(shifted(sq_diffs(*src, *dst), y0 as int, x0 as int), 4, ch as int),
{
    let ghost f = shifted(sq_diffs(*src, *dst), y0 as int, x0 as int);
    let mut acc = i64x2_splat(0);
    assert(acc.lane_i64(0) == 0 && acc.lane_i64(1) == 0);
    let mut y: usize = 0;
    while y < ch
        invariant
            y <= ch <= 4,
            x0 + 4 <= usize::MAX,
            y0 + ch <= usize::MAX,
            src.covers(x0 + 4, y0 + ch),
            dst.covers(x0 + 4, y0 + ch),
            f == shifted(sq_diffs(*src, *dst), y0 as int, x0 as int),
            acc.lane_i64(0) + acc.lane_i64(1) == block_sum(f, 4, y as int),
            0 <= acc.lane_i64(0) <= 0x2_0000_0000 * y,
            0 <= acc.lane_i64(1) <= 0x2_0000_0000 * y,
        decreases ch - y,
    {
        proof {
            src.lemma_covers_fewer(x0 + 4, y0 + ch, y0 + y + 1);
            dst.lemma_covers_fewer(x0 + 4, y0 + ch, y0 + y + 1);
        }
        let s_row = src.row(y0 + y, x0 + 4);
        let d_row = dst.row(y0 + y, x0 + 4);
        let diff = diff_four(s_row, d_row, x0);
        let lo = i64x2_extmul_low_i32x4(diff, diff);
        let hi = i64x2_extmul_high_i32x4(diff, diff);
        let both = i64x2_add(lo, hi);
        let next = i64x2_add(acc, both);
        proof {
            let g = row_of(f, y as int);
            assert forall|k: int| 0 <= k < 4 implies #[trigger] diff.lane_i32(k) * diff.lane_i32(k)
                == g(k) && 0 <= g(k) <= 0xfffe_0001 by {
                assert(s_row@[x0 + k].val() == src.at(y0 + y, x0 + k));
                assert(d_row@[x0 + k].val() == dst.at(y0 + y, x0 + k));
                lemma_square(diff.lane_i32(k) as int, 0xffff);
            }
            assert(lo.lane_i64(0) == g(0) && lo.lane_i64(1) == g(1)) by {
                assert(diff.lane_i32(0) * diff.lane_i32(0) == g(0));
                assert(diff.lane_i32(1) * diff.lane_i32(1) == g(1));
            }
            assert(hi.lane_i64(0) == g(2) && hi.lane_i64(1) == g(3)) by {
                assert(diff.lane_i32(2) * diff.lane_i32(2) == g(2));
                assert(diff.lane_i32(3) * diff.lane_i32(3) == g(3));
            }
            assert(both.lane_i64(0) == g(0) + g(2));
            assert(both.lane_i64(1) == g(1) + g(3));
            assert(next.lane_i64(0) == acc.lane_i64(0) + g(0) + g(2));
            assert(next.lane_i64(1) == acc.lane_i64(1) + g(1) + g(3));
            assert(sum(g, 4) == g(0) + g(1) + g(2) + g(3)) by {
                reveal_with_fuel(sum, 5);
            }
        }
        acc = next;
        y += 1;
    }
    horizontal_sum_i64x2(acc) as u64
}

/// The squared differences of one column.
fn sse_column<T: Sample>(
    src: &PlaneRegion<'_, T>,
    dst: &PlaneRegion<'_, T>,
    y0: usize,
    x0: usize,
    ch: usize,
) -> (r: u64)
    requires
        ch <= 4,
        x0 + 1 <= usize::MAX,
        y0 + ch <= usize::MAX,
        src.covers(x0 + 1, y0 + ch),
        dst.covers(x0 + 1, y0 + ch),
    ensures
        r == block_sum(shifted(sq_diffs(*src, *dst), y0 as int, x0 as int), 1, ch as int),
{
    let ghost f = shifted(sq_diffs(*src, *dst), y0 as int, x0 as int);
    let mut total: u64 = 0;
    let mut y: usize = 0;
    while y < ch
        invariant
            y <= ch <= 4,
            x0 + 1 <= usize::MAX,
            y0 + ch <= usize::MAX,
            src.covers(x0 + 1, y0 + ch),
            dst.covers(x0 + 1, y0 + ch),
            f == shifted(sq_diffs(*src, *dst), y0 as int, x0 as int),
            total == block_sum(f, 1, y as int),
            total <= 0x1_0000_0000 * y,
        decreases ch - y,
    {
        proof {
            src.lemma_covers_fewer(x0 + 1, y0 + ch, y0 + y + 1);
            dst.lemma_covers_fewer(x0 + 1, y0 + ch, y0 + y + 1);
        }
        let s_row = src.row(y0 + y, x0 + 1);
        let d_row = dst.row(y0 + y, x0 + 1);
        let diff: i64 = s_row[x0].to_i32() as i64 - d_row[x0].to_i32() as i64;
        proof {
            lemma_square(diff as int, 0xffff);
            let g = row_of(f, y as int);
            assert(s_row@[x0 as int].val() == src.at(y0 + y, x0 as int));
            assert(d_row@[x0 as int].val() == dst.at(y0 + y, x0 as int));
            assert(g(0) == diff * diff);
            assert(sum(g, 1) == g(0)) by {
                reveal_with_fuel(sum, 2);
            }
        }
        total = total + (diff * diff) as u64;
        y += 1;
    }
    total
}

/// The parts of a block and their columns.
proof fn lemma_part(w: int, p: int)
    requires
        0 <= w,
        0 <= p < part_count(w),
    ensures
        0 <= part_column(w, p),
        part_column(w, p) + part_width(w, p) <= w,
        1 <= part_width(w, p) <= 4,
{
}

/// The squared differences of a part are not negative, and bounded for eight-bit samples.
proof fn lemma_part_range<T: Sample>(
    src: PlaneRegion<'_, T>,
    dst: PlaneRegion<'_, T>,
    w: int,
    h: int,
    c: int,
    p: int,
)
    ensures
        0 <= part_sse(src, dst, w, h, c, p),
        T::storage() == PixelType::U8 ==> part_sse(src, dst, w, h, c, p) <= 0xf_e010,
{
    let f = shifted(sq_diffs(src, dst), 4 * c, part_column(w, p));
    assert forall|y: int, x: int| 0 <= #[trigger] f(y, x) && (T::storage() == PixelType::U8 ==> f(
        y,
        x,
    ) <= 0xfe01) by {
        lemma_sq_diff_range(src, dst, 4 * c + y, part_column(w, p) + x);
    }
    let cw = part_width(w, p);
    let ch = min_int(h - 4 * c, 4);
    lemma_block_sum_nonneg(f, cw, ch);
    if T::storage() == PixelType::U8 && ch > 0 {
        lemma_block_sum_bound(f, cw, ch, 0xfe01);
        assert(0xfe01 * cw * ch <= 0xf_e010) by (nonlinear_arith)
            requires
                1 <= cw <= 4,
                0 <= ch <= 4,
        ;
    }
}

/// One part, weighted.
fn weighted_part<T: Sample>(
    src: &PlaneRegion<'_, T>,
    dst: &PlaneRegion<'_, T>,
    scale: &[u32],
    scale_stride: usize,
    w: usize,
    h: usize,
    c: usize,
    p: usize,
) -> (r: u64)
    requires
        c < (h + 3) / 4,
        p < part_count(w as int),
        src.covers(w as int, h as int),
        dst.covers(w as int, h as int),
        scales_suffice(scale@.len() as int, scale_stride as int, w as int, h as int),
        products_fit(*src, *dst, scale@, scale_stride as int, w as int, h as int),
    ensures
        r == part_terms(*src, *dst, scale@, scale_stride as int, w as int, h as int)(
            c as int,
            p as int,
        ),
{
    let full: usize = w / 4;
    let x0: usize = if p < full {
        4 * p
    } else {
        4 * full + (p - full)
    };
    let y0: usize = 4 * c;
    let ch: usize = min_usize(h - y0, 4);
    proof {
        lemma_part(w as int, p as int);
        src.lemma_covers_part(w as int, h as int, x0 + part_width(w as int, p as int), y0 + ch);
        dst.lemma_covers_part(w as int, h as int, x0 + part_width(w as int, p as int), y0 + ch);
    }
    let sse: u64 = if p < full {
        sse_chunk(src, dst, y0, x0, ch)
    } else {
        sse_column(src, dst, y0, x0, ch)
    };
    proof {
        assert(sse == part_sse(*src, *dst, w as int, h as int, c as int, p as int));
        assert(0 <= scale_index(scale_stride as int, w as int, c as int, p as int) < scale@.len());
        assert(c * scale_stride >= 0) by (nonlinear_arith)
            requires
                c >= 0,
                scale_stride >= 0,
        ;
    }
    let len: usize = scale.len();
    assert(len == scale@.len());
    let weight: u32 = scale[c * scale_stride + x0 / 4];
    proof {
        lemma_part_range(*src, *dst, w as int, h as int, c as int, p as int);
        if T::storage() == PixelType::U8 {
            assert(sse * weight <= 0xf_e010 * 0xffff_ffff) by (nonlinear_arith)
                requires
                    0 <= sse <= 0xf_e010,
                    0 <= weight <= 0xffff_ffff,
            ;
        }
        assert(sse * weight >= 0) by (nonlinear_arith)
            requires
                sse >= 0,
                weight >= 0,
        ;
    }
    (sse * weight as u64 + 128) / 256
}

/// The sum of the weighted squared differences of two blocks, before the final scaling.
fn weighted_sse_simd128<T: Sample>(
    src: &PlaneRegion<'_, T>,
    dst: &PlaneRegion<'_, T>,
    scale: &[u32],
    scale_stride: usize,
    w: usize,
    h: usize,
) -> (r: u64)
    requires
        src.covers(w as int, h as int),
        dst.covers(w as int, h as int),
        scales_suffice(scale@.len() as int, scale_stride as int, w as int, h as int),
        products_fit(*src, *dst, scale@, scale_stride as int, w as int, h as int),
        raw_weighted_sse(*src, *dst, scale@, scale_stride as int, w as int, h as int) <= u64::MAX,
    ensures
        r == raw_weighted_sse(*src, *dst, scale@, scale_stride as int, w as int, h as int),
{
    let ghost f = part_terms(*src, *dst, scale@, scale_stride as int, w as int, h as int);
    let cols: usize = w / 4 + w % 4;
    let rows: usize = count_steps(h, 4);
    let mut total: u64 = 0;
    let mut c: usize = 0;
    while c < rows
        invariant
            c <= rows,
            cols == part_count(w as int),
            rows == (h + 3) / 4,
            src.covers(w as int, h as int),
            dst.covers(w as int, h as int),
            scales_suffice(scale@.len() as int, scale_stride as int, w as int, h as int),
            products_fit(*src, *dst, scale@, scale_stride as int, w as int, h as int),
            f == part_terms(*src, *dst, scale@, scale_stride as int, w as int, h as int),
            block_sum(f, cols as int, rows as int) <= u64::MAX,
            total == block_sum(f, cols as int, c as int),
        decreases rows - c,
    {
        let ghost g = row_of(f, c as int);
        let ghost done = block_sum(f, cols as int, c as int);
        let mut p: usize = 0;
        while p < cols
            invariant
                p <= cols,
                c < rows,
                cols == part_count(w as int),
                rows == (h + 3) / 4,
                src.covers(w as int, h as int),
                dst.covers(w as int, h as int),
                scales_suffice(scale@.len() as int, scale_stride as int, w as int, h as int),
                products_fit(*src, *dst, scale@, scale_stride as int, w as int, h as int),
                f == part_terms(*src, *dst, scale@, scale_stride as int, w as int, h as int),
                g == row_of(f, c as int),
                done == block_sum(f, cols as int, c as int),
                block_sum(f, cols as int, rows as int) <= u64::MAX,
                total == done + sum(g, p as int),
            decreases cols - p,
        {
            let term: u64 = weighted_part(src, dst, scale, scale_stride, w, h, c, p);
            proof {
                assert(g(p as int) == term);
                assert forall|a: int, b: int| #[trigger] f(a, b) >= 0 by {
                    lemma_part_range(*src, *dst, w as int, h as int, a, b);
                    let s = part_sse(*src, *dst, w as int, h as int, a, b);
                    let t = scale@[scale_index(scale_stride as int, w as int, a, b)];
                    assert(s * t >= 0) by (nonlinear_arith)
                        requires
                            s >= 0,
                            t >= 0,
                    ;
                }
                lemma_block_sum_mono(f, cols as int, rows as int, c as int, p + 1);
            }
            total = total + term;
            p += 1;
        }
        c += 1;
    }
    total
}

/// Weighted sum of squared errors of two blocks of `w` columns and `h` rows.
///
/// Every chunk of four rows and columns has a weight; `scale` holds a row of weights every
/// `scale_stride` entries. Each weighted sum is rounded on its own.
pub fn get_weighted_sse<T: Sample>(
    src: &PlaneRegion<'_, T>,
    dst: &PlaneRegion<'_, T>,
    scale: &[u32],
    scale_stride: usize,
    w: usize,
    h: usize,
    _bit_depth: usize,
    _cpu: CpuFeatureLevel,
) -> (r: u64)
    requires
        src.covers(w as int, h as int),
        dst.covers(w as int, h as int),
        scales_suffice(scale@.len() as int, scale_stride as int, w as int, h as int),
        products_fit(*src, *dst, scale@, scale_stride as int, w as int, h as int),
        raw_weighted_sse(*src, *dst, scale@, scale_stride as int, w as int, h as int) + 32
            <= u64::MAX,
    ensures
        r == weighted_sse(*src, *dst, scale@, scale_stride as int, w as int, h as int),
{
    let raw: u64 = weighted_sse_simd128(src, dst, scale, scale_stride, w, h);
    (raw + 32) / 64
}

/// Equal blocks have no squared differences, whatever the weights.
pub proof fn lemma_weighted_sse_equal<T: Sample>(
    src: PlaneRegion<'_, T>,
    dst: PlaneRegion<'_, T>,
    scale: Seq<u32>,
    scale_stride: int,
    w: int,
    h: int,
)
    requires
        0 <= w,
        0 <= h,
        forall|y: int, x: int| 0 <= y < h && 0 <= x < w ==> #[trigger] src.at(y, x) == dst.at(y, x),
    ensures
        weighted_sse(src, dst, scale, scale_stride, w, h) == 0,
{
    let f = part_terms(src, dst, scale, scale_stride, w, h);
    assert forall|c: int, p: int|
        0 <= c < (h + 3) / 4 && 0 <= p < part_count(w) implies 0 <= #[trigger] f(c, p) <= 0 by {
        lemma_part(w, p);
        let g = shifted(sq_diffs(src, dst), 4 * c, part_column(w, p));
        let cw = part_width(w, p);
        let ch = min_int(h - 4 * c, 4);
        assert forall|y: int, x: int| 0 <= y < ch && 0 <= x < cw implies 0 <= #[trigger] g(y, x)
            <= 0 by {
            assert(src.at(4 * c + y, part_column(w, p) + x) == dst.at(
                4 * c + y,
                part_column(w, p) + x,
            ));
            assert(0int * 0int == 0);
        }
        lemma_block_sum_bound(g, cw, ch, 0);
        assert(0 * cw * ch == 0) by (nonlinear_arith);
        let t = scale[scale_index(scale_stride, w, c, p)];
        assert(0 * t == 0);
    }
    lemma_block_sum_bound(f, part_count(w), (h + 3) / 4, 0);
    let a = part_count(w);
    let b = (h + 3) / 4;
    assert(0 * a * b == 0) by (nonlinear_arith);
}

/// The weighted squared differences of two blocks depend on their samples and the weights alone:
/// they are the same for samples of eight and of sixteen bits.
pub proof fn lemma_weighted_sse_same<T: Sample, U: Sample>(
    src: PlaneRegion<'_, T>,
    dst: PlaneRegion<'_, T>,
    src2: PlaneRegion<'_, U>,
    dst2: PlaneRegion<'_, U>,
    scale: Seq<u32>,
    scale_stride: int,
    w: int,
    h: int,
)
    requires
        0 <= w,
        same_samples(src, dst, src2, dst2, w, h),
    ensures
        raw_weighted_sse(src, dst, scale, scale_stride, w, h) == raw_weighted_sse(
            src2,
            dst2,
            scale,
            scale_stride,
            w,
            h,
        ),
        weighted_sse(src, dst, scale, scale_stride, w, h) == weighted_sse(
            src2,
            dst2,
            scale,
            scale_stride,
            w,
            h,
        ),
{
    let f = part_terms(src, dst, scale, scale_stride, w, h);
    let g = part_terms(src2, dst2, scale, scale_stride, w, h);
    assert forall|c: int, p: int|
        0 <= c < (h + 3) / 4 && 0 <= p < part_count(w) implies #[trigger] f(c, p) == g(c, p) by {
        lemma_part(w, p);
        let a = shifted(sq_diffs(src, dst), 4 * c, part_column(w, p));
        let b = shifted(sq_diffs(src2, dst2), 4 * c, part_column(w, p));
        let cw = part_width(w, p);
        let ch = min_int(h - 4 * c, 4);
        assert forall|y: int, x: int| 0 <= y < ch && 0 <= x < cw implies #[trigger] a(y, x) == b(
            y,
            x,
        ) by {
            let row = 4 * c + y;
            let column = part_column(w, p) + x;
            assert(src.at(row, column) == src2.at(row, column));
            assert(dst.at(row, column) == dst2.at(row, column));
        }
        lemma_block_sum_eq(a, b, cw, ch);
    }
    lemma_block_sum_eq(f, g, part_count(w), (h + 3) / 4);
}

/// The weighted squared differences of two blocks do not depend on their order.
pub proof fn lemma_weighted_sse_symmetric<T: Sample>(
    src: PlaneRegion<'_, T>,
    dst: PlaneRegion<'_, T>,
    scale: Seq<u32>,
    scale_stride: int,
    w: int,
    h: int,
)
    ensures
        weighted_sse(src, dst, scale, scale_stride, w, h) == weighted_sse(
            dst,
            src,
            scale,
            scale_stride,
            w,
            h,
        ),
{
    let f = part_terms(src, dst, scale, scale_stride, w, h);
    let g = part_terms(dst, src, scale, scale_stride, w, h);
    assert forall|c: int, p: int|
        0 <= c < (h + 3) / 4 && 0 <= p < part_count(w) implies #[trigger] f(c, p) == g(c, p) by {
        let a = shifted(sq_diffs(src, dst), 4 * c, part_column(w, p));
        let b = shifted(sq_diffs(dst, src), 4 * c, part_column(w, p));
        assert forall|y: int, x: int| #[trigger] a(y, x) == b(y, x) by {
            let s = src.at(4 * c + y, part_column(w, p) + x);
            let d = dst.at(4 * c + y, part_column(w, p) + x);
            assert((s - d) * (s - d) == (d - s) * (d - s)) by (nonlinear_arith);
        }
        lemma_block_sum_eq(a, b, part_width(w, p), min_int(h - 4 * c, 4));
    }
    lemma_block_sum_eq(f, g, part_count(w), (h + 3) / 4);
}

/// The weighted squared differences of blocks of eight-bit samples, of up to 128 rows and columns,
/// have 64 bits.
pub proof fn lemma_weighted_sse_fits<T: Sample>(
    src: PlaneRegion<'_, T>,
    dst: PlaneRegion<'_, T>,
    scale: Seq<u32>,
    scale_stride: int,
    w: int,
    h: int,
)
    requires
        T::storage() == PixelType::U8,
        0 <= w <= 128,
        0 <= h <= 128,
    ensures
        raw_weighted_sse(src, dst, scale, scale_stride, w, h) + 32 <= u64::MAX,
{
    let f = part_terms(src, dst, scale, scale_stride, w, h);
    assert forall|c: int, p: int|
        0 <= c < (h + 3) / 4 && 0 <= p < part_count(w) implies 0 <= #[trigger] f(c, p)
        <= 0x1000_0000_0000 by {
        lemma_part_range(src, dst, w, h, c, p);
        let s = part_sse(src, dst, w, h, c, p);
        let t = scale[scale_index(scale_stride, w, c, p)];
        assert(0 <= s * t <= 0xf_e010 * 0xffff_ffff) by (nonlinear_arith)
            requires
                0 <= s <= 0xf_e010,
                0 <= t <= 0xffff_ffff,
        ;
    }
    let a = part_count(w);
    let b = (h + 3) / 4;
    lemma_block_sum_bound(f, a, b, 0x1000_0000_0000);
    assert(0x1000_0000_0000 * a * b <= 0x1000_0000_0000 * 0x1000) by (nonlinear_arith)
        requires
            0 <= a <= 64,
            0 <= b <= 64,
    ;
}

} // verus!
