//! The moments of two small blocks, from which the CDEF distortion is made.

use crate::cpu_features::CpuFeatureLevel;
use crate::dist::sse::sq_diffs;
use crate::pixel::Sample;
use crate::plane::PlaneRegion;
use crate::sums::{block_sum, lemma_block_sum_eq, row_of, sum};
use vstd::prelude::*;

verus! {

/// The samples of a block.
pub open spec fn samples<T: Sample>(b: PlaneRegion<'_, T>) -> spec_fn(int, int) -> int {
    |y: int, x: int| b.at(y, x)
}

/// The products of the samples of two blocks.
pub open spec fn products<T: Sample>(
    a: PlaneRegion<'_, T>,
    b: PlaneRegion<'_, T>,
) -> spec_fn(int, int) -> int {
    |y: int, x: int| a.at(y, x) * b.at(y, x)
}

/// The low 32 bits of a number.
pub open spec fn low32(x: int) -> int {
    x % 0x1_0000_0000
}

/// `2^14 / n`, rounded to the nearest.
pub open spec fn area_divisor(n: int) -> int {
    (0x4000 + n / 2) / n
}

/// The variance of a block of `n` samples with the given sum and sum of squares, times 64: as it
/// would be of a block of 64 samples. Sums and results have 32 bits.
pub open spec fn scaled_variance(total: int, squares: int, n: int) -> int {
    let mean = low32((total * total * area_divisor(n) + 0x2000) / 0x4000);
    let var = if low32(squares) >= mean {
        low32(squares) - mean
    } else {
        0
    };
    low32((var * area_divisor(n) + 0x80) / 0x100)
}

/// The scaled variance of a block.
pub open spec fn block_variance<T: Sample>(b: PlaneRegion<'_, T>, w: int, h: int) -> int {
    scaled_variance(block_sum(samples(b), w, h), block_sum(products(b, b), w, h), w * h)
}

/// The squared differences of two blocks, in 32 bits.
pub open spec fn block_sse<T: Sample>(
    src: PlaneRegion<'_, T>,
    dst: PlaneRegion<'_, T>,
    w: int,
    h: int,
) -> int {
    low32(block_sum(sq_diffs(src, dst), w, h))
}

/// The sums of two blocks.
struct Moments {
    sum_s: u64,
    sum_d: u64,
    sum_s2: u64,
    sum_d2: u64,
    sum_sd: u64,
}

/// The products of two samples are bounded.
proof fn lemma_product(a: int, b: int)
    requires
        0 <= a <= 0xffff,
        0 <= b <= 0xffff,
    ensures
        0 <= a * b <= 0xfffe_0001,
{
    assert(0 <= a * b <= 0xfffe_0001) by (nonlinear_arith)
        requires
            0 <= a <= 0xffff,
            0 <= b <= 0xffff,
    ;
}

/// The sums of two blocks.
fn moments<T: Sample>(
    src: &PlaneRegion<'_, T>,
    dst: &PlaneRegion<'_, T>,
    w: usize,
    h: usize,
) -> (r: Moments)
    requires
        w <= 8,
        h <= 8,
        src.covers(w as int, h as int),
        dst.covers(w as int, h as int),
    ensures
        r.sum_s == block_sum(samples(*src), w as int, h as int),
        r.sum_d == block_sum(samples(*dst), w as int, h as int),
        r.sum_s2 == block_sum(products(*src, *src), w as int, h as int),
        r.sum_d2 == block_sum(products(*dst, *dst), w as int, h as int),
        r.sum_sd == block_sum(products(*src, *dst), w as int, h as int),
        r.sum_s <= 0x3f_ffc0,
        r.sum_d <= 0x3f_ffc0,
        r.sum_s2 <= 0x40_0000_0000,
        r.sum_d2 <= 0x40_0000_0000,
        r.sum_sd <= 0x40_0000_0000,
{
    let mut m = Moments { sum_s: 0, sum_d: 0, sum_s2: 0, sum_d2: 0, sum_sd: 0 };
    let mut y: usize = 0;
    while y < h
        invariant
            y <= h <= 8,
            w <= 8,
            src.covers(w as int, h as int),
            dst.covers(w as int, h as int),
            m.sum_s == block_sum(samples(*src), w as int, y as int),
            m.sum_d == block_sum(samples(*dst), w as int, y as int),
            m.sum_s2 == block_sum(products(*src, *src), w as int, y as int),
            m.sum_d2 == block_sum(products(*dst, *dst), w as int, y as int),
            m.sum_sd == block_sum(products(*src, *dst), w as int, y as int),
            m.sum_s <= 0xffff * (8 * y),
            m.sum_d <= 0xffff * (8 * y),
            m.sum_s2 <= 0x1_0000_0000 * (8 * y),
            m.sum_d2 <= 0x1_0000_0000 * (8 * y),
            m.sum_sd <= 0x1_0000_0000 * (8 * y),
        decreases h - y,
    {
        proof {
            src.lemma_covers_fewer(w as int, h as int, y + 1);
            dst.lemma_covers_fewer(w as int, h as int, y + 1);
        }
        let s_row = src.row(y, w);
        let d_row = dst.row(y, w);
        let mut x: usize = 0;
        while x < w
            invariant
                x <= w <= 8,
                y < h <= 8,
                s_row@.len() == w,
                d_row@.len() == w,
                forall|i: int| 0 <= i < w ==> (#[trigger] s_row@[i]).val() == src.at(y as int, i),
                forall|i: int| 0 <= i < w ==> (#[trigger] d_row@[i]).val() == dst.at(y as int, i),
                m.sum_s == block_sum(samples(*src), w as int, y as int) + sum(
                    row_of(samples(*src), y as int),
                    x as int,
                ),
                m.sum_d == block_sum(samples(*dst), w as int, y as int) + sum(
                    row_of(samples(*dst), y as int),
                    x as int,
                ),
                m.sum_s2 == block_sum(products(*src, *src), w as int, y as int) + sum(
                    row_of(products(*src, *src), y as int),
                    x as int,
                ),
                m.sum_d2 == block_sum(products(*dst, *dst), w as int, y as int) + sum(
                    row_of(products(*dst, *dst), y as int),
                    x as int,
                ),
                m.sum_sd == block_sum(products(*src, *dst), w as int, y as int) + sum(
                    row_of(products(*src, *dst), y as int),
                    x as int,
                ),
                m.sum_s <= 0xffff * (8 * y + x),
                m.sum_d <= 0xffff * (8 * y + x),
                m.sum_s2 <= 0x1_0000_0000 * (8 * y + x),
                m.sum_d2 <= 0x1_0000_0000 * (8 * y + x),
                m.sum_sd <= 0x1_0000_0000 * (8 * y + x),
            decreases w - x,
        {
            let s: u64 = s_row[x].to_i32() as u64;
            let d: u64 = d_row[x].to_i32() as u64;
            proof {
                lemma_product(s as int, s as int);
                lemma_product(d as int, d as int);
                lemma_product(s as int, d as int);
                assert(s == src.at(y as int, x as int));
                assert(d == dst.at(y as int, x as int));
            }
            m.sum_s = m.sum_s + s;
            m.sum_d = m.sum_d + d;
            m.sum_s2 = m.sum_s2 + s * s;
            m.sum_d2 = m.sum_d2 + d * d;
            m.sum_sd = m.sum_sd + s * d;
            x += 1;
        }
        y += 1;
    }
    m
}

/// A sum of squares is the sum of the squares.
proof fn lemma_sse<T: Sample>(src: PlaneRegion<'_, T>, dst: PlaneRegion<'_, T>, w: int, h: int)
    requires
        0 <= w,
        0 <= h,
    ensures
        block_sum(sq_diffs(src, dst), w, h) == block_sum(products(dst, dst), w, h) + block_sum(
            products(src, src),
            w,
            h,
        ) - 2 * block_sum(products(src, dst), w, h),
        block_sum(sq_diffs(src, dst), w, h) >= 0,
    decreases h,
{
    if h > 0 {
        lemma_sse(src, dst, w, h - 1);
        lemma_sse_row(src, dst, w, h - 1);
    }
}

/// One row of `lemma_sse`.
proof fn lemma_sse_row<T: Sample>(src: PlaneRegion<'_, T>, dst: PlaneRegion<'_, T>, w: int, y: int)
    requires
        0 <= w,
    ensures
        sum(row_of(sq_diffs(src, dst), y), w) == sum(row_of(products(dst, dst), y), w) + sum(
            row_of(products(src, src), y),
            w,
        ) - 2 * sum(row_of(products(src, dst), y), w),
        sum(row_of(sq_diffs(src, dst), y), w) >= 0,
    decreases w,
{
    if w > 0 {
        lemma_sse_row(src, dst, w - 1, y);
        let s = src.at(y, w - 1);
        let d = dst.at(y, w - 1);
        assert((s - d) * (s - d) == d * d + s * s - 2 * (s * d) && (s - d) * (s - d) >= 0)
            by (nonlinear_arith);
    }
}

/// The scaled variance of `n` samples.
fn variance_of(total: u64, squares: u64, n: u64) -> (r: u32)
    requires
        1 <= n <= 64,
        total <= 0x3f_ffc0,
    ensures
        r == scaled_variance(total as int, squares as int, n as int),
{
    let div: u64 = (0x4000 + n / 2) / n;
    proof {
        assert((0x4000 + n / 2) / n as int <= 0x4020) by (nonlinear_arith)
            requires
                1 <= n <= 64,
        ;
        assert(total * total <= 0xfff_ffff_ffff) by (nonlinear_arith)
            requires
                0 <= total <= 0x3f_ffc0,
        ;
        assert(total * total * div <= 0xfff_ffff_ffff * 0x4020) by (nonlinear_arith)
            requires
                0 <= total * total <= 0xfff_ffff_ffff,
                0 <= div <= 0x4020,
        ;
    }
    let mean: u64 = ((total * total * div + 0x2000) / 0x4000) % 0x1_0000_0000;
    let low: u64 = squares % 0x1_0000_0000;
    let var: u64 = if low >= mean {
        low - mean
    } else {
        0
    };
    proof {
        assert(var * div <= 0x1_0000_0000 * 0x4020) by (nonlinear_arith)
            requires
                0 <= var <= 0x1_0000_0000,
                0 <= div <= 0x4020,
        ;
    }
    (((var * div + 0x80) / 0x100) % 0x1_0000_0000) as u32
}

/// The scaled variances of two blocks of up to eight rows and columns, and the sum of their
/// squared differences.
pub fn cdef_dist_kernel_simd128<T: Sample>(
    src: &PlaneRegion<'_, T>,
    dst: &PlaneRegion<'_, T>,
    w: usize,
    h: usize,
) -> (r: (u32, u32, u32))
    requires
        1 <= w <= 8,
        1 <= h <= 8,
        src.covers(w as int, h as int),
        dst.covers(w as int, h as int),
    ensures
        r.0 == block_variance(*src, w as int, h as int),
        r.1 == block_variance(*dst, w as int, h as int),
        r.2 == block_sse(*src, *dst, w as int, h as int),
{
    let m = moments(src, dst, w, h);
    proof {
        lemma_sse(*src, *dst, w as int, h as int);
        assert(1 <= w * h <= 64) by (nonlinear_arith)
            requires
                1 <= w <= 8,
                1 <= h <= 8,
        ;
    }
    let n: u64 = (w * h) as u64;
    let svar: u32 = variance_of(m.sum_s, m.sum_s2, n);
    let dvar: u32 = variance_of(m.sum_d, m.sum_d2, n);
    let sse: u32 = ((m.sum_d2 + m.sum_s2 - 2 * m.sum_sd) % 0x1_0000_0000) as u32;
    (svar, dvar, sse)
}

/// The CDEF distortion of two blocks of up to eight rows and columns: their squared differences,
/// boosted by how much the variances differ. `ssim_boost` takes the squared differences, the two
/// variances and the bit depth.
pub fn cdef_dist_kernel<T: Sample, F: FnOnce(u32, u32, u32, usize) -> u32>(
    src: &PlaneRegion<'_, T>,
    dst: &PlaneRegion<'_, T>,
    w: usize,
    h: usize,
    bit_depth: usize,
    _cpu: CpuFeatureLevel,
    ssim_boost: F,
) -> (r: u32)
    requires
        1 <= w <= 8,
        1 <= h <= 8,
        src.covers(w as int, h as int),
        dst.covers(w as int, h as int),
        call_requires(
            ssim_boost,
            (
                block_sse(*src, *dst, w as int, h as int) as u32,
                block_variance(*src, w as int, h as int) as u32,
                block_variance(*dst, w as int, h as int) as u32,
                bit_depth,
            ),
        ),
    ensures
        call_ensures(
            ssim_boost,
            (
                block_sse(*src, *dst, w as int, h as int) as u32,
                block_variance(*src, w as int, h as int) as u32,
                block_variance(*dst, w as int, h as int) as u32,
                bit_depth,
            ),
            r,
        ),
{
    let (svar, dvar, sse) = cdef_dist_kernel_simd128(src, dst, w, h);
    ssim_boost(sse, svar, dvar, bit_depth)
}

/// Equal blocks have equal variances and no squared differences.
pub proof fn lemma_equal_blocks<T: Sample>(
    src: PlaneRegion<'_, T>,
    dst: PlaneRegion<'_, T>,
    w: int,
    h: int,
)
    requires
        0 <= w,
        0 <= h,
        forall|y: int, x: int| 0 <= y < h && 0 <= x < w ==> #[trigger] src.at(y, x) == dst.at(y, x),
    ensures
        block_sse(src, dst, w, h) == 0,
        block_variance(src, w, h) == block_variance(dst, w, h),
{
    assert forall|y: int, x: int| 0 <= y < h && 0 <= x < w implies #[trigger] samples(src)(y, x)
        == samples(dst)(y, x) by {
        assert(src.at(y, x) == dst.at(y, x));
    }
    assert forall|y: int, x: int| 0 <= y < h && 0 <= x < w implies #[trigger] products(src, src)(
        y,
        x,
    ) == products(dst, dst)(y, x) by {
        assert(src.at(y, x) == dst.at(y, x));
    }
    assert forall|y: int, x: int| 0 <= y < h && 0 <= x < w implies #[trigger] products(src, dst)(
        y,
        x,
    ) == products(dst, dst)(y, x) by {
        assert(src.at(y, x) == dst.at(y, x));
    }
    lemma_block_sum_eq(samples(src), samples(dst), w, h);
    lemma_block_sum_eq(products(src, src), products(dst, dst), w, h);
    lemma_block_sum_eq(products(src, dst), products(dst, dst), w, h);
    lemma_sse(src, dst, w, h);
}

} // verus!
