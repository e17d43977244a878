//! What holds of the distances of two blocks.

use crate::dist::cdef_dist::{block_sse, block_variance, products, samples};
use crate::dist::sse::sq_diffs;
use crate::dist::{abs_diffs, sad};
use crate::laws::numbers::{
    lemma_block_cut_behind, lemma_block_cut_below, lemma_smallest_blocks,
};
use crate::laws::planes::lemma_windows_move;
use crate::pixel::Sample;
use crate::plane::PlaneRegion;
use crate::sums::{block_sum, lemma_block_sum_eq};
use vstd::arithmetic::div_mod::{lemma_add_mod_noop, lemma_fundamental_div_mod_converse};
use vstd::prelude::*;

verus! {

/// Whether a window is another one, a number of rows and columns further on.
pub open spec fn moved<T: Sample>(
    r: PlaneRegion<'_, T>,
    to: PlaneRegion<'_, T>,
    rows: int,
    columns: int,
) -> bool {
    &&& to.data@ == r.data@
    &&& to.stride == r.stride
    &&& to.origin == r.origin + rows * r.stride + columns
}

/// The distance of two samples is how far the larger one is above the smaller one, and blocks
/// without samples are at no distance.
pub proof fn lemma_sad_of_samples<T: Sample>(
    src: PlaneRegion<'_, T>,
    dst: PlaneRegion<'_, T>,
    n: int,
)
    ensures
        sad(src, dst, 1, 1) >= 0,
        sad(src, dst, 1, 1) == src.data@[src.origin as int].val() - dst.data@[dst.origin as int].val()
            || sad(src, dst, 1, 1) == dst.data@[dst.origin as int].val()
            - src.data@[src.origin as int].val(),
        sad(src, dst, n, 0) == 0,
        sad(src, dst, 0, n) == 0,
{
    lemma_smallest_blocks(abs_diffs(src, dst), n);
    assert(src.origin + 0 * src.stride + 0 == src.origin);
    assert(dst.origin + 0 * dst.stride + 0 == dst.origin);
}

/// The distance of two blocks is that of their upper parts and that of their lower parts.
pub proof fn lemma_sad_of_rows<T: Sample>(
    src: PlaneRegion<'_, T>,
    dst: PlaneRegion<'_, T>,
    src2: PlaneRegion<'_, T>,
    dst2: PlaneRegion<'_, T>,
    w: int,
    m: int,
    n: int,
)
    requires
        0 <= m,
        0 <= n,
        moved(src, src2, m, 0),
        moved(dst, dst2, m, 0),
    ensures
        sad(src, dst, w, m + n) == sad(src, dst, w, m) + sad(src2, dst2, w, n),
{
    let f = abs_diffs(src, dst);
    let g = abs_diffs(src2, dst2);
    assert forall|j: int, i: int| 0 <= j < n && 0 <= i < w implies #[trigger] g(j, i) == f(
        m + j,
        i,
    ) by {
        lemma_windows_move(src, src2, m, 0, j, i);
        lemma_windows_move(dst, dst2, m, 0, j, i);
    }
    lemma_block_cut_below(f, g, w, m, n);
}

/// The distance of two blocks is that of their left parts and that of their right parts.
pub proof fn lemma_sad_of_columns<T: Sample>(
    src: PlaneRegion<'_, T>,
    dst: PlaneRegion<'_, T>,
    src2: PlaneRegion<'_, T>,
    dst2: PlaneRegion<'_, T>,
    m: int,
    n: int,
    h: int,
)
    requires
        0 <= m,
        0 <= n,
        moved(src, src2, 0, m),
        moved(dst, dst2, 0, m),
    ensures
        sad(src, dst, m + n, h) == sad(src, dst, m, h) + sad(src2, dst2, n, h),
{
    let f = abs_diffs(src, dst);
    let g = abs_diffs(src2, dst2);
    assert forall|j: int, i: int| 0 <= j < h && 0 <= i < n implies #[trigger] g(j, i) == f(
        j,
        m + i,
    ) by {
        lemma_windows_move(src, src2, 0, m, j, i);
        lemma_windows_move(dst, dst2, 0, m, j, i);
    }
    lemma_block_cut_behind(f, g, m, n, h);
}

/// The squared distance of two samples is the square of their difference, in 32 bits, and blocks
/// without samples have none.
pub proof fn lemma_sse_of_samples<T: Sample>(
    src: PlaneRegion<'_, T>,
    dst: PlaneRegion<'_, T>,
    n: int,
    d: int,
)
    requires
        d == src.data@[src.origin as int].val() - dst.data@[dst.origin as int].val(),
    ensures
        block_sse(src, dst, 1, 1) == (d * d) % 0x1_0000_0000,
        block_sse(src, dst, n, 0) == 0,
        block_sse(src, dst, 0, n) == 0,
{
    lemma_smallest_blocks(sq_diffs(src, dst), n);
    assert(src.origin + 0 * src.stride + 0 == src.origin);
    assert(dst.origin + 0 * dst.stride + 0 == dst.origin);
}

/// The squared distance of two blocks is that of their upper parts and that of their lower parts,
/// in 32 bits.
pub proof fn lemma_sse_of_rows<T: Sample>(
    src: PlaneRegion<'_, T>,
    dst: PlaneRegion<'_, T>,
    src2: PlaneRegion<'_, T>,
    dst2: PlaneRegion<'_, T>,
    w: int,
    m: int,
    n: int,
)
    requires
        0 <= m,
        0 <= n,
        moved(src, src2, m, 0),
        moved(dst, dst2, m, 0),
    ensures
        block_sse(src, dst, w, m + n) == (block_sse(src, dst, w, m) + block_sse(src2, dst2, w, n))
            % 0x1_0000_0000,
{
    let f = sq_diffs(src, dst);
    let g = sq_diffs(src2, dst2);
    assert forall|j: int, i: int| 0 <= j < n && 0 <= i < w implies #[trigger] g(j, i) == f(
        m + j,
        i,
    ) by {
        lemma_windows_move(src, src2, m, 0, j, i);
        lemma_windows_move(dst, dst2, m, 0, j, i);
    }
    lemma_block_cut_below(f, g, w, m, n);
    lemma_add_mod_noop(block_sum(f, w, m), block_sum(g, w, n), 0x1_0000_0000);
}

/// The squared distance of two blocks is that of their left parts and that of their right parts,
/// in 32 bits.
pub proof fn lemma_sse_of_columns<T: Sample>(
    src: PlaneRegion<'_, T>,
    dst: PlaneRegion<'_, T>,
    src2: PlaneRegion<'_, T>,
    dst2: PlaneRegion<'_, T>,
    m: int,
    n: int,
    h: int,
)
    requires
        0 <= m,
        0 <= n,
        moved(src, src2, 0, m),
        moved(dst, dst2, 0, m),
    ensures
        block_sse(src, dst, m + n, h) == (block_sse(src, dst, m, h) + block_sse(src2, dst2, n, h))
            % 0x1_0000_0000,
{
    let f = sq_diffs(src, dst);
    let g = sq_diffs(src2, dst2);
    assert forall|j: int, i: int| 0 <= j < h && 0 <= i < n implies #[trigger] g(j, i) == f(
        j,
        m + i,
    ) by {
        lemma_windows_move(src, src2, 0, m, j, i);
        lemma_windows_move(dst, dst2, 0, m, j, i);
    }
    lemma_block_cut_behind(f, g, m, n, h);
    lemma_add_mod_noop(block_sum(f, m, h), block_sum(g, n, h), 0x1_0000_0000);
}

/// The nearest quotient, as a rounded division.
proof fn lemma_divides(x: int, d: int, q: int)
    requires
        0 < d,
        d * q <= x < d * (q + 1),
    ensures
        x / d == q,
{
    assert(q * d + (x - d * q) == x && d * (q + 1) == d * q + d) by (nonlinear_arith);
    lemma_fundamental_div_mod_converse(x, d, q, x - d * q);
}

/// The variance of a block is what its squares have over the square of its sum, taken per sample,
/// and nothing where that comes out larger. It is scaled up to a block of 64 samples. All
/// quotients are rounded to the nearest.
///
/// Here `total` and `squares` are the sums of the samples and of their squares, `share` is
/// `2^14 / (w * h)`, `mean` is the square of `total` over the number of samples, and `r` the
/// variance. Of the squares, the mean and the variance 32 bits are kept.
pub proof fn lemma_variance<T: Sample>(
    b: PlaneRegion<'_, T>,
    w: int,
    h: int,
    total: int,
    squares: int,
    share: int,
    mean: int,
    over: int,
    r: int,
)
    requires
        0 < w * h,
        total == block_sum(|y: int, x: int| b.data@[b.origin + y * b.stride + x].val(), w, h),
        squares == block_sum(
            |y: int, x: int|
                b.data@[b.origin + y * b.stride + x].val() * b.data@[b.origin + y * b.stride
                    + x].val(),
            w,
            h,
        ),
        (w * h) * share <= 0x4000 + (w * h) / 2 < (w * h) * (share + 1),
        0x4000 * mean <= total * total * share + 0x2000 < 0x4000 * (mean + 1),
        squares % 0x1_0000_0000 >= mean % 0x1_0000_0000 ==> over == squares % 0x1_0000_0000 - mean
            % 0x1_0000_0000,
        squares % 0x1_0000_0000 < mean % 0x1_0000_0000 ==> over == 0,
        0x100 * r <= over * share + 0x80 < 0x100 * (r + 1),
    ensures
        block_variance(b, w, h) == r % 0x1_0000_0000,
{
    lemma_block_sum_eq(
        |y: int, x: int| b.data@[b.origin + y * b.stride + x].val(),
        samples(b),
        w,
        h,
    );
    lemma_block_sum_eq(
        |y: int, x: int|
            b.data@[b.origin + y * b.stride + x].val() * b.data@[b.origin + y * b.stride + x].val(),
        products(b, b),
        w,
        h,
    );
    let n = w * h;
    lemma_divides(0x4000 + n / 2, n, share);
    assert((total * total * share + 0x2000) / 0x4000 == mean);
    assert((over * share + 0x80) / 0x100 == r);
}

} // verus!
