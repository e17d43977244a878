//! What holds of weighted squared differences.

use crate::dist::shifted;
use crate::dist::sse::{
    part_column, part_count, part_sse, part_terms, part_width, raw_weighted_sse, scale_index,
    scales_suffice, sq_diffs, weighted_sse,
};
use crate::laws::distance::moved;
use crate::laws::numbers::{
    lemma_block_cut_behind, lemma_block_cut_below, lemma_smallest_blocks,
};
use crate::laws::planes::lemma_windows_move;
use crate::pixel::Sample;
use crate::plane::PlaneRegion;
use crate::sums::{block_sum, lemma_block_sum_eq};
use vstd::prelude::*;

verus! {

/// A part with one weight has its squared differences times that weight, in units of 256, rounded
/// to the nearest and halves up. Such a part is up to four rows of four columns, or of one.
pub proof fn lemma_weighted_part<T: Sample>(
    src: PlaneRegion<'_, T>,
    dst: PlaneRegion<'_, T>,
    scale: Seq<u32>,
    scale_stride: int,
    w: int,
    h: int,
    sse: int,
    r: int,
)
    requires
        w == 4 || w == 1,
        1 <= h <= 4,
        scale.len() > 0,
        sse == block_sum(
            |y: int, x: int|
                {
                    let d = src.data@[src.origin + y * src.stride + x].val()
                        - dst.data@[dst.origin + y * dst.stride + x].val();
                    d * d
                },
            w,
            h,
        ),
        r == raw_weighted_sse(src, dst, scale, scale_stride, w, h),
    ensures
        256 * r <= sse * scale[0] + 128 < 256 * (r + 1),
{
    let f = part_terms(src, dst, scale, scale_stride, w, h);
    lemma_smallest_blocks(f, 1);
    let g = |y: int, x: int|
        {
            let d = src.data@[src.origin + y * src.stride + x].val() - dst.data@[dst.origin + y
                * dst.stride + x].val();
            d * d
        };
    lemma_block_sum_eq(g, shifted(sq_diffs(src, dst), 0, 0), w, h);
    assert(part_count(w) == 1 && part_column(w, 0) == 0 && part_width(w, 0) == w);
    assert(scale_index(scale_stride, w, 0, 0) == 0) by {
        assert(0 * scale_stride == 0);
    }
    assert(f(0, 0) == (sse * scale[0] + 128) / 256);
}

/// The squared differences of windows further on are those further on.
proof fn lemma_moved_squares<T: Sample>(
    src: PlaneRegion<'_, T>,
    dst: PlaneRegion<'_, T>,
    src2: PlaneRegion<'_, T>,
    dst2: PlaneRegion<'_, T>,
    rows: int,
    columns: int,
    y0: int,
    x0: int,
)
    requires
        moved(src, src2, rows, columns),
        moved(dst, dst2, rows, columns),
    ensures
        shifted(sq_diffs(src2, dst2), y0, x0) == shifted(
            sq_diffs(src, dst),
            rows + y0,
            columns + x0,
        ),
{
    assert forall|y: int, x: int|
        #![trigger src2.at(y0 + y, x0 + x)]
        src2.at(y0 + y, x0 + x) == src.at(rows + y0 + y, columns + x0 + x) by {
        lemma_windows_move(src, src2, rows, columns, y0 + y, x0 + x);
        assert(rows + y0 + y == rows + (y0 + y) && columns + x0 + x == columns + (x0 + x));
    }
    assert forall|y: int, x: int|
        #![trigger dst2.at(y0 + y, x0 + x)]
        dst2.at(y0 + y, x0 + x) == dst.at(rows + y0 + y, columns + x0 + x) by {
        lemma_windows_move(dst, dst2, rows, columns, y0 + y, x0 + x);
        assert(rows + y0 + y == rows + (y0 + y) && columns + x0 + x == columns + (x0 + x));
    }
    assert(shifted(sq_diffs(src2, dst2), y0, x0) =~= shifted(
        sq_diffs(src, dst),
        rows + y0,
        columns + x0,
    ));
}

/// Blocks can be cut below any multiple of four rows. The weights of the lower part are those of
/// as many fourths further down.
pub proof fn lemma_weighted_rows<T: Sample>(
    src: PlaneRegion<'_, T>,
    dst: PlaneRegion<'_, T>,
    src2: PlaneRegion<'_, T>,
    dst2: PlaneRegion<'_, T>,
    scale: Seq<u32>,
    scale_stride: int,
    w: int,
    m: int,
    n: int,
)
    requires
        0 <= m,
        0 <= n,
        0 <= w,
        0 <= m * scale_stride <= scale.len(),
        scales_suffice(scale.len() as int, scale_stride, w, 4 * m + n),
        scales_suffice(scale.len() - m * scale_stride, scale_stride, w, n),
        moved(src, src2, 4 * m, 0),
        moved(dst, dst2, 4 * m, 0),
    ensures
        raw_weighted_sse(src, dst, scale, scale_stride, w, 4 * m + n) == raw_weighted_sse(
            src,
            dst,
            scale,
            scale_stride,
            w,
            4 * m,
        ) + raw_weighted_sse(
            src2,
            dst2,
            scale.subrange(m * scale_stride, scale.len() as int),
            scale_stride,
            w,
            n,
        ),
{
    let h = 4 * m + n;
    let scale2 = scale.subrange(m * scale_stride, scale.len() as int);
    let f = part_terms(src, dst, scale, scale_stride, w, h);
    let upper = part_terms(src, dst, scale, scale_stride, w, 4 * m);
    let lower = part_terms(src2, dst2, scale2, scale_stride, w, n);
    let cols = part_count(w);
    assert forall|c: int, p: int| 0 <= c < (n + 3) / 4 && 0 <= p < cols implies #[trigger] lower(
        c,
        p,
    ) == f(m + c, p) by {
        lemma_moved_squares(src, dst, src2, dst2, 4 * m, 0, 4 * c, part_column(w, p));
        assert(4 * m + 4 * c == 4 * (m + c));
        assert(part_sse(src2, dst2, w, n, c, p) == part_sse(src, dst, w, h, m + c, p));
        assert((m + c) * scale_stride == m * scale_stride + c * scale_stride) by (nonlinear_arith);
        assert(0 <= scale_index(scale_stride, w, c, p) < scale2.len());
    }
    assert forall|c: int, p: int| 0 <= c < m && 0 <= p < cols implies #[trigger] upper(c, p) == f(
        c,
        p,
    ) by {
        assert(part_sse(src, dst, w, 4 * m, c, p) == part_sse(src, dst, w, h, c, p));
    }
    lemma_block_sum_eq(upper, f, cols, m);
    lemma_block_cut_below(f, lower, cols, m, (n + 3) / 4);
}

/// Blocks can be cut behind any multiple of four columns. The weights of the right part are those
/// of as many fourths further on.
pub proof fn lemma_weighted_columns<T: Sample>(
    src: PlaneRegion<'_, T>,
    dst: PlaneRegion<'_, T>,
    src2: PlaneRegion<'_, T>,
    dst2: PlaneRegion<'_, T>,
    scale: Seq<u32>,
    scale_stride: int,
    m: int,
    n: int,
    h: int,
)
    requires
        0 <= m <= scale.len(),
        0 <= n,
        0 <= h,
        scales_suffice(scale.len() as int, scale_stride, 4 * m + n, h),
        scales_suffice(scale.len() - m, scale_stride, n, h),
        moved(src, src2, 0, 4 * m),
        moved(dst, dst2, 0, 4 * m),
    ensures
        raw_weighted_sse(src, dst, scale, scale_stride, 4 * m + n, h) == raw_weighted_sse(
            src,
            dst,
            scale,
            scale_stride,
            4 * m,
            h,
        ) + raw_weighted_sse(
            src2,
            dst2,
            scale.subrange(m, scale.len() as int),
            scale_stride,
            n,
            h,
        ),
{
    let w = 4 * m + n;
    let scale2 = scale.subrange(m, scale.len() as int);
    let f = part_terms(src, dst, scale, scale_stride, w, h);
    let left = part_terms(src, dst, scale, scale_stride, 4 * m, h);
    let right = part_terms(src2, dst2, scale2, scale_stride, n, h);
    let lines = (h + 3) / 4;
    assert forall|c: int, p: int|
        0 <= c < lines && 0 <= p < part_count(n) implies #[trigger] right(c, p) == f(c, m + p) by {
        lemma_moved_squares(src, dst, src2, dst2, 0, 4 * m, 4 * c, part_column(n, p));
        assert(part_column(w, m + p) == 4 * m + part_column(n, p));
        assert(part_sse(src2, dst2, n, h, c, p) == part_sse(src, dst, w, h, c, m + p));
        assert(0 <= scale_index(scale_stride, n, c, p) < scale2.len());
        assert(scale_index(scale_stride, w, c, m + p) == m + scale_index(scale_stride, n, c, p));
    }
    assert forall|c: int, p: int| 0 <= c < lines && 0 <= p < m implies #[trigger] left(c, p) == f(
        c,
        p,
    ) by {
        assert(part_sse(src, dst, 4 * m, h, c, p) == part_sse(src, dst, w, h, c, p));
    }
    lemma_block_sum_eq(left, f, m, lines);
    lemma_block_cut_behind(f, right, m, part_count(n), lines);
}

/// Blocks of less than four columns can be cut behind each of them. Both parts have the same
/// weights.
pub proof fn lemma_weighted_single_columns<T: Sample>(
    src: PlaneRegion<'_, T>,
    dst: PlaneRegion<'_, T>,
    src2: PlaneRegion<'_, T>,
    dst2: PlaneRegion<'_, T>,
    scale: Seq<u32>,
    scale_stride: int,
    n: int,
    h: int,
)
    requires
        1 <= n < 3,
        0 <= h,
        moved(src, src2, 0, 1),
        moved(dst, dst2, 0, 1),
    ensures
        raw_weighted_sse(src, dst, scale, scale_stride, 1 + n, h) == raw_weighted_sse(
            src,
            dst,
            scale,
            scale_stride,
            1,
            h,
        ) + raw_weighted_sse(src2, dst2, scale, scale_stride, n, h),
{
    let f = part_terms(src, dst, scale, scale_stride, 1 + n, h);
    let left = part_terms(src, dst, scale, scale_stride, 1, h);
    let right = part_terms(src2, dst2, scale, scale_stride, n, h);
    let lines = (h + 3) / 4;
    assert forall|c: int, p: int| 0 <= c < lines && 0 <= p < n implies #[trigger] right(c, p) == f(
        c,
        1 + p,
    ) by {
        lemma_moved_squares(src, dst, src2, dst2, 0, 1, 4 * c, p);
        assert(part_column(1 + n, 1 + p) == 1 + p && part_column(n, p) == p);
        assert(part_sse(src2, dst2, n, h, c, p) == part_sse(src, dst, 1 + n, h, c, 1 + p));
    }
    assert forall|c: int, p: int| 0 <= c < lines && 0 <= p < 1 implies #[trigger] left(c, p) == f(
        c,
        p,
    ) by {
        assert(part_sse(src, dst, 1, h, c, p) == part_sse(src, dst, 1 + n, h, c, p));
    }
    lemma_block_sum_eq(left, f, 1, lines);
    lemma_block_cut_behind(f, right, 1, n, lines);
}

/// The weighted squared differences of two blocks are those of their parts together, in units of
/// 64, rounded to the nearest and halves up.
pub proof fn lemma_weighted_total<T: Sample>(
    src: PlaneRegion<'_, T>,
    dst: PlaneRegion<'_, T>,
    scale: Seq<u32>,
    scale_stride: int,
    w: int,
    h: int,
    r: int,
)
    requires
        r == weighted_sse(src, dst, scale, scale_stride, w, h),
    ensures
        64 * r <= raw_weighted_sse(src, dst, scale, scale_stride, w, h) + 32 < 64 * (r + 1),
{
}

} // verus!
