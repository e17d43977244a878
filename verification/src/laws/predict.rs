//! What holds of intra prediction.

use crate::pixel::{PixelType, Sample};
use crate::plane::PlaneRegionMut;
use crate::predict::{
    average, edge_sum, left_part, paeth, predicted, sample_values, PredictionMode,
    PredictionVariant,
};
use crate::sums::{lemma_sum_eq, sum};
use vstd::arithmetic::div_mod::lemma_fundamental_div_mod;
use vstd::arithmetic::power2::{lemma2_to64, lemma_pow2_adds, pow2};
use vstd::prelude::*;

verus! {

/// The straight modes repeat the sample of an edge: each column the one above it, each row the one
/// to its left. The left edge is given from the bottom up.
pub proof fn lemma_straight_modes_repeat_edges<T: Sample>(
    before: PlaneRegionMut<'_, T>,
    after: PlaneRegionMut<'_, T>,
    mode: PredictionMode,
    variant: PredictionVariant,
    bit_depth: int,
    left: Seq<T>,
    top_left: int,
    above: Seq<T>,
    w: int,
    h: int,
    y: int,
    x: int,
    v: int,
)
    requires
        after.wrote(
            before,
            w,
            h,
            predicted(mode, variant, bit_depth, left, top_left, above, w, h),
        ),
        0 <= y < h,
        0 <= x < w,
        v == after.data@[after.origin + y * after.stride + x].val(),
    ensures
        mode == PredictionMode::V_PRED ==> v == above[x].val(),
        mode == PredictionMode::H_PRED ==> v == left[h - 1 - y].val(),
{
    let f = predicted(mode, variant, bit_depth, left, top_left, above, w, h);
    assert(after.at(y, x) == f(y, x));
}

/// The flat modes fill a block with the average of the edges there are, rounded to the nearest and
/// halves up, and with the middle of the range where there is none.
pub proof fn lemma_flat_modes_average_edges<T: Sample>(
    before: PlaneRegionMut<'_, T>,
    after: PlaneRegionMut<'_, T>,
    variant: PredictionVariant,
    bit_depth: int,
    left: Seq<T>,
    top_left: int,
    above: Seq<T>,
    w: int,
    h: int,
    y: int,
    x: int,
    v: int,
    left_total: int,
    above_total: int,
)
    requires
        after.wrote(
            before,
            w,
            h,
            predicted(
                PredictionMode::DC_PRED,
                variant,
                bit_depth,
                left,
                top_left,
                above,
                w,
                h,
            ),
        ),
        0 <= y < h,
        0 <= x < w,
        v == after.data@[after.origin + y * after.stride + x].val(),
        left_total == sum(|i: int| left[i].val(), h),
        above_total == sum(|i: int| above[i].val(), w),
    ensures
        variant == PredictionVariant::LEFT ==> h * v <= left_total + h / 2 < h * (v + 1),
        variant == PredictionVariant::TOP ==> w * v <= above_total + w / 2 < w * (v + 1),
        variant == PredictionVariant::BOTH ==> (w + h) * v <= left_total + above_total + (w + h) / 2
            < (w + h) * (v + 1),
        variant == PredictionVariant::NONE && bit_depth == 8 ==> v == 128,
        variant == PredictionVariant::NONE && 8 <= bit_depth <= 16 && T::storage()
            == PixelType::U16 ==> 2 * v == pow2(bit_depth as nat),
        variant == PredictionVariant::NONE && bit_depth > 8 && T::storage() == PixelType::U8
            ==> v == 0,
        variant == PredictionVariant::NONE && bit_depth > 16 && T::storage() == PixelType::U16
            ==> v == 0,
{
    lemma2_to64();
    if bit_depth > 8 {
        lemma_pow2_adds(1, (bit_depth - 9) as nat);
        let a = pow2((bit_depth - 9) as nat) as int;
        assert((128 * (2 * a)) % 0x100 == 0);
    }
    if bit_depth > 16 {
        lemma_pow2_adds(9, (bit_depth - 17) as nat);
        let a = pow2((bit_depth - 17) as nat) as int;
        assert((128 * (512 * a)) % 0x1_0000 == 0);
    }
    if 8 <= bit_depth <= 16 {
        lemma_pow2_adds(8, (bit_depth - 8) as nat);
        if bit_depth < 16 {
            vstd::arithmetic::power2::lemma_pow2_strictly_increases(bit_depth as nat, 16);
        }
    }
    let f = predicted(
        PredictionMode::DC_PRED,
        variant,
        bit_depth,
        left,
        top_left,
        above,
        w,
        h,
    );
    assert(after.at(y, x) == f(y, x));
    lemma_sum_eq(|i: int| left[i].val(), sample_values(left), h);
    lemma_sum_eq(|i: int| above[i].val(), sample_values(above), w);
    lemma_average_is_nearest(edge_sum(left, h), h);
    lemma_average_is_nearest(edge_sum(above, w), w);
    lemma_average_is_nearest(edge_sum(left, h) + edge_sum(above, w), w + h);
}

/// An average is the nearest quotient.
proof fn lemma_average_is_nearest(total: int, n: int)
    requires
        0 < n,
    ensures
        n * average(total, n) <= total + n / 2 < n * (average(total, n) + 1),
{
    lemma_fundamental_div_mod(total + n / 2, n);
    let q = average(total, n);
    assert(n * (q + 1) == n * q + n) by (nonlinear_arith);
}

/// The gradient mode takes the neighbour that is nearest to `above + left - corner`. Where two are
/// as near, it takes the left one rather than the upper one, and the corner last.
pub proof fn lemma_gradient_mode_takes_the_nearest<T: Sample>(
    before: PlaneRegionMut<'_, T>,
    after: PlaneRegionMut<'_, T>,
    variant: PredictionVariant,
    bit_depth: int,
    left: Seq<T>,
    corner: int,
    above: Seq<T>,
    w: int,
    h: int,
    y: int,
    x: int,
    v: int,
    from_left: int,
    from_above: int,
    from_corner: int,
)
    requires
        after.wrote(
            before,
            w,
            h,
            predicted(
                PredictionMode::PAETH_PRED,
                variant,
                bit_depth,
                left,
                corner,
                above,
                w,
                h,
            ),
        ),
        0 <= y < h,
        0 <= x < w,
        v == after.data@[after.origin + y * after.stride + x].val(),
        from_left >= 0 && (from_left == above[x].val() - corner || from_left == corner
            - above[x].val()),
        from_above >= 0 && (from_above == left[h - 1 - y].val() - corner || from_above == corner
            - left[h - 1 - y].val()),
        from_corner >= 0 && (from_corner == above[x].val() + left[h - 1 - y].val() - 2 * corner
            || from_corner == 2 * corner - above[x].val() - left[h - 1 - y].val()),
    ensures
        from_left <= from_above && from_left <= from_corner ==> v == left[h - 1 - y].val(),
        from_above < from_left && from_above <= from_corner ==> v == above[x].val(),
        from_corner < from_left && from_corner < from_above ==> v == corner,
{
    reveal(paeth);
    let f = predicted(
        PredictionMode::PAETH_PRED,
        variant,
        bit_depth,
        left,
        corner,
        above,
        w,
        h,
    );
    assert(after.at(y, x) == f(y, x));
}

/// Along a block, the left edge that counts is its last part: from the bottom up, the sample
/// beside row `y` is `y` before the last.
pub proof fn lemma_left_edge_ends_at_the_top<T: Sample>(left: Seq<T>, h: int, y: int)
    requires
        0 <= y < h <= left.len(),
    ensures
        left_part(left, h).len() == h,
        left_part(left, h)[h - 1 - y] == left[left.len() - 1 - y],
{
}

/// An edge that is no longer than the block counts as a whole.
pub proof fn lemma_short_left_edge<T: Sample>(left: Seq<T>, h: int)
    requires
        left.len() <= h,
    ensures
        left_part(left, h) == left,
{
    assert(left_part(left, h) =~= left);
}

} // verus!
