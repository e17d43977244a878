//! Intra prediction: a block is made of the samples along its left and upper edges.

use crate::arch::{
    i32x4, i32x4_abs, i32x4_add, i32x4_extract_lane, i32x4_le, i32x4_splat, i32x4_sub,
    lemma_select_bits, mask, select_bits, v128, v128_and, v128_not,
};
use crate::cpu_features::CpuFeatureLevel;
use crate::math::{abs_int, max_int};
use crate::pixel::{load16, pixel_range, PixelType, Sample};
use crate::partition::BlockSize;
use crate::plane::{PlaneRegion, PlaneRegionMut};
use crate::portable::{block_of, starts_with, store_block, store_front};
use crate::simd_helpers::{horizontal_sum_u8x16, relaxed_laneselect_i32x4};
use crate::sums::{lemma_sum_16, lemma_sum_bounds, lemma_sum_mono, sum};
use crate::transform::{lemma_tx_dims, TxSize};
use vstd::arithmetic::power2::pow2;
use vstd::prelude::*;
use vstd::slice::slice_subrange;

verus! {

broadcast use {crate::math::group_wrap, crate::vector::group_lanes};

/// How a block is predicted.
#[allow(non_camel_case_types)]
#[derive(Debug, Copy, Clone, PartialEq, Eq, Structural)]
pub enum PredictionMode {
    /// The average of the edges.
    DC_PRED,
    /// Down from the upper edge.
    V_PRED,
    /// Right from the left edge.
    H_PRED,
    /// A direction of 45 degrees.
    D45_PRED,
    /// A direction of 135 degrees.
    D135_PRED,
    /// A direction of 113 degrees.
    D113_PRED,
    /// A direction of 157 degrees.
    D157_PRED,
    /// A direction of 203 degrees.
    D203_PRED,
    /// A direction of 67 degrees.
    D67_PRED,
    /// Weighted along both axes.
    SMOOTH_PRED,
    /// Weighted along the vertical axis.
    SMOOTH_V_PRED,
    /// Weighted along the horizontal axis.
    SMOOTH_H_PRED,
    /// The neighbour nearest to the gradient.
    PAETH_PRED,
    /// Chroma from luma.
    UV_CFL_PRED,
}

/// Which edges there are.
#[derive(Debug, Copy, Clone, PartialEq, Eq, Structural)]
pub enum PredictionVariant {
    /// Neither.
    NONE,
    /// The left one.
    LEFT,
    /// The upper one.
    TOP,
    /// Both.
    BOTH,
}

/// The samples along the edges of a block.
pub struct IntraEdge<'a, T> {
    /// The left edge, from the bottom up.
    pub left: &'a [T],
    /// The corner.
    pub top_left: &'a [T],
    /// The upper edge, from the left.
    pub above: &'a [T],
}

/// How a block comes to be predicted.
#[derive(Debug, Copy, Clone, PartialEq, Eq, Structural)]
pub enum Dispatch {
    /// In vectors.
    Vector,
    /// By the smooth predictor of the mode.
    Smooth,
    /// By the portable predictor.
    Portable,
}

/// The values of samples.
pub open spec fn sample_values<T: Sample>(s: Seq<T>) -> spec_fn(int) -> int {
    |i: int| s[i].val()
}

/// The sum of the first `n` samples.
pub open spec fn edge_sum<T: Sample>(s: Seq<T>, n: int) -> int {
    sum(sample_values(s), n)
}

/// The average of samples with the given sum, rounded half up.
pub open spec fn average(total: int, n: int) -> int {
    (total + n / 2) / n
}

/// The middle of the range of samples.
pub open spec fn mid_value(bit_depth: int) -> int {
    128 * pow2((bit_depth - 8) as nat) as int
}

/// The part of the left edge that lies along a block of the given height, from the bottom up: all
/// of an edge that is no longer than the block.
pub open spec fn left_part<T>(left: Seq<T>, height: int) -> Seq<T> {
    left.subrange(max_int(0, left.len() - height), left.len() as int)
}

/// The neighbour nearest to `top + left - top_left`. The left one is preferred to the upper one,
/// and the corner is taken last.
#[verifier::opaque]
pub open spec fn paeth(left: int, top: int, top_left: int) -> int {
    let base = top + left - top_left;
    let p_left = abs_int(base - left);
    let p_top = abs_int(base - top);
    let p_top_left = abs_int(base - top_left);
    if p_left <= p_top && p_left <= p_top_left {
        left
    } else if p_top <= p_top_left {
        top
    } else {
        top_left
    }
}

/// Which routine predicts a block.
pub open spec fn route<T: Sample>(
    mode: PredictionMode,
    angle: int,
    cpu: CpuFeatureLevel,
) -> Dispatch {
    if cpu == CpuFeatureLevel::RUST || T::storage() == PixelType::U16 {
        Dispatch::Portable
    } else {
        match mode {
            PredictionMode::DC_PRED => Dispatch::Vector,
            PredictionMode::V_PRED => if angle == 90 {
                Dispatch::Vector
            } else {
                Dispatch::Portable
            },
            PredictionMode::H_PRED => if angle == 180 {
                Dispatch::Vector
            } else {
                Dispatch::Portable
            },
            PredictionMode::SMOOTH_PRED => Dispatch::Smooth,
            PredictionMode::SMOOTH_V_PRED => Dispatch::Smooth,
            PredictionMode::SMOOTH_H_PRED => Dispatch::Smooth,
            PredictionMode::PAETH_PRED => Dispatch::Vector,
            _ => Dispatch::Portable,
        }
    }
}

/// The sample that a mode predicts in row `y`, column `x`.
pub open spec fn predicted<T: Sample>(
    mode: PredictionMode,
    variant: PredictionVariant,
    bit_depth: int,
    left: Seq<T>,
    top_left: int,
    above: Seq<T>,
    w: int,
    h: int,
) -> spec_fn(int, int) -> int {
    match mode {
        PredictionMode::DC_PRED => match variant {
            PredictionVariant::NONE => |y: int, x: int|
                mid_value(bit_depth) % pixel_range(T::storage()),
            PredictionVariant::LEFT => |y: int, x: int| average(edge_sum(left, h), h),
            PredictionVariant::TOP => |y: int, x: int| average(edge_sum(above, w), w),
            PredictionVariant::BOTH => |y: int, x: int|
                average(edge_sum(left, h) + edge_sum(above, w), w + h),
        },
        PredictionMode::V_PRED => |y: int, x: int| above[x].val(),
        PredictionMode::H_PRED => |y: int, x: int| left[h - 1 - y].val(),
        _ => |y: int, x: int| paeth(left[h - 1 - y].val(), above[x].val(), top_left),
    }
}

/// Whether the samples that a mode reads are there.
pub open spec fn edges_suffice(
    mode: PredictionMode,
    variant: PredictionVariant,
    left: int,
    top_left: int,
    above: int,
    w: int,
    h: int,
) -> bool {
    let needs_left = (mode == PredictionMode::DC_PRED && (variant == PredictionVariant::LEFT
        || variant == PredictionVariant::BOTH)) || mode == PredictionMode::H_PRED || mode
        == PredictionMode::PAETH_PRED;
    let needs_above = (mode == PredictionMode::DC_PRED && (variant == PredictionVariant::TOP
        || variant == PredictionVariant::BOTH)) || mode == PredictionMode::V_PRED || mode
        == PredictionMode::PAETH_PRED;
    &&& needs_left ==> left >= h
    &&& needs_above ==> above >= w
    &&& mode == PredictionMode::PAETH_PRED ==> top_left >= 1
}

/// Intra prediction.
///
/// The flat, straight and gradient modes of 8-bit samples are predicted in vectors. The smooth
/// modes are left to `smooth`, which is handed the mode, the upper edge, the part of the left edge
/// along the block, and the columns and rows of the block. All other blocks are left to
/// `portable`, which is handed the mode, the edges there are, the size, the bit depth, the luma of
/// the block, the angle, the parameters of the edge filter, the edges and the level. Both return
/// the samples of the block, row after row.
pub fn dispatch_predict_intra<
    T: Sample,
    I,
    S: FnOnce(PredictionMode, &[T], &[T], usize, usize) -> Vec<T>,
    P: FnOnce(
        PredictionMode,
        PredictionVariant,
        TxSize,
        usize,
        &[i16],
        isize,
        Option<I>,
        &IntraEdge<'_, T>,
        CpuFeatureLevel,
    ) -> Vec<T>,
>(
    mode: PredictionMode,
    variant: PredictionVariant,
    dst: &mut PlaneRegionMut<'_, T>,
    tx_size: TxSize,
    bit_depth: usize,
    ac: &[i16],
    angle: isize,
    ief_params: Option<I>,
    edge: &IntraEdge<'_, T>,
    cpu: CpuFeatureLevel,
    smooth: S,
    portable: P,
)
    requires
        old(dst).holds(tx_size.dims().0, tx_size.dims().1),
        route::<T>(mode, angle as int, cpu) == Dispatch::Vector ==> {
            &&& mode == PredictionMode::DC_PRED && variant == PredictionVariant::NONE ==> 8
                <= bit_depth < 40
            &&& edges_suffice(
                mode,
                variant,
                edge.left@.len() as int,
                edge.top_left@.len() as int,
                edge.above@.len() as int,
                tx_size.dims().0,
                tx_size.dims().1,
            )
        },
        route::<T>(mode, angle as int, cpu) == Dispatch::Smooth ==> {
            &&& forall|left: &[T]|
                left@ == left_part(edge.left@, tx_size.dims().1) ==> #[trigger] call_requires(
                    smooth,
                    (
                        mode,
                        edge.above,
                        left,
                        tx_size.dims().0 as usize,
                        tx_size.dims().1 as usize,
                    ),
                )
            &&& forall|left: &[T], v: Vec<T>|
                left@ == left_part(edge.left@, tx_size.dims().1) && #[trigger] call_ensures(
                    smooth,
                    (
                        mode,
                        edge.above,
                        left,
                        tx_size.dims().0 as usize,
                        tx_size.dims().1 as usize,
                    ),
                    v,
                ) ==> tx_size.dims().0 * tx_size.dims().1 <= v@.len()
        },
        route::<T>(mode, angle as int, cpu) == Dispatch::Portable ==> {
            &&& call_requires(
                portable,
                (mode, variant, tx_size, bit_depth, ac, angle, ief_params, edge, cpu),
            )
            &&& forall|v: Vec<T>|
                #[trigger] call_ensures(
                    portable,
                    (mode, variant, tx_size, bit_depth, ac, angle, ief_params, edge, cpu),
                    v,
                ) ==> tx_size.dims().0 * tx_size.dims().1 <= v@.len()
        },
    ensures
        route::<T>(mode, angle as int, cpu) == Dispatch::Vector ==> final(dst).wrote(
            *old(dst),
            tx_size.dims().0,
            tx_size.dims().1,
            predicted(
                mode,
                variant,
                bit_depth as int,
                left_part(edge.left@, tx_size.dims().1),
                edge.top_left@[0].val(),
                edge.above@,
                tx_size.dims().0,
                tx_size.dims().1,
            ),
        ),
        route::<T>(mode, angle as int, cpu) == Dispatch::Smooth ==> exists|left: &[T], v: Vec<T>|
            left@ == left_part(edge.left@, tx_size.dims().1) && #[trigger] call_ensures(
                smooth,
                (mode, edge.above, left, tx_size.dims().0 as usize, tx_size.dims().1 as usize),
                v,
            ) && final(dst).wrote(
                *old(dst),
                tx_size.dims().0,
                tx_size.dims().1,
                block_of(v@, tx_size.dims().0),
            ),
        route::<T>(mode, angle as int, cpu) == Dispatch::Portable ==> exists|v: Vec<T>|
            #[trigger] call_ensures(
                portable,
                (mode, variant, tx_size, bit_depth, ac, angle, ief_params, edge, cpu),
                v,
            ) && final(dst).wrote(
                *old(dst),
                tx_size.dims().0,
                tx_size.dims().1,
                block_of(v@, tx_size.dims().0),
            ),
        final(final(dst).data)@ == final(old(dst).data)@,
{
    let width: usize = tx_size.width();
    let height: usize = tx_size.height();
    proof {
        lemma_tx_dims(tx_size);
        let top = pixel_range(T::storage()) - 1;
        assert(width * top <= 0x3f_ffc0 && height * top <= 0x3f_ffc0) by (nonlinear_arith)
            requires
                0 <= width <= 64,
                0 <= height <= 64,
                0 <= top <= 0xffff,
        ;
        let part = left_part(edge.left@, height as int);
        if edge.left@.len() >= height {
            lemma_edge_sum(part, height as int);
        }
        if edge.above@.len() >= width {
            lemma_edge_sum(edge.above@, width as int);
        }
    }
    let left_len: usize = edge.left.len();
    let skip: usize = if left_len > height {
        left_len - height
    } else {
        0
    };
    let left = slice_subrange(edge.left, skip, left_len);
    assert(left@ == left_part(edge.left@, height as int));
    assert(width == tx_size.dims().0 as usize && height == tx_size.dims().1 as usize);
    let narrow = match T::type_enum() {
        PixelType::U8 => true,
        PixelType::U16 => false,
    };
    if cpu.has_simd128() && narrow {
        match mode {
            PredictionMode::DC_PRED => {
                match variant {
                    PredictionVariant::NONE => {
                        pred_dc_128_simd(dst, width, height, bit_depth);
                    },
                    PredictionVariant::LEFT => {
                        pred_dc_left_simd(dst, left, width, height);
                    },
                    PredictionVariant::TOP => {
                        pred_dc_top_simd(dst, edge.above, width, height);
                    },
                    PredictionVariant::BOTH => {
                        pred_dc_simd(dst, edge.above, left, width, height);
                    },
                }
                return ;
            },
            PredictionMode::V_PRED => {
                if angle == 90 {
                    pred_v_simd(dst, edge.above, width, height);
                    return ;
                }
            },
            PredictionMode::H_PRED => {
                if angle == 180 {
                    pred_h_simd(dst, left, width, height);
                    return ;
                }
            },
            PredictionMode::SMOOTH_PRED
            | PredictionMode::SMOOTH_V_PRED
            | PredictionMode::SMOOTH_H_PRED => {
                let v: Vec<T> = smooth(mode, edge.above, left, width, height);
                store_block(dst, &v, width, height);
                return ;
            },
            PredictionMode::PAETH_PRED => {
                pred_paeth_simd(dst, edge.above, left, edge.top_left[0], width, height);
                return ;
            },
            _ => {},
        }
    }
    let v: Vec<T> = portable(mode, variant, tx_size, bit_depth, ac, angle, ief_params, edge, cpu);
    store_block(dst, &v, width, height);
}

/// Fills a block with one sample.
fn fill_block<T: Sample>(
    output: &mut PlaneRegionMut<'_, T>,
    v: T,
    width: usize,
    height: usize,
    Ghost(f): Ghost<spec_fn(int, int) -> int>,
)
    requires
        old(output).holds(width as int, height as int),
        forall|y: int, x: int| #[trigger] f(y, x) == v.val(),
    ensures
        final(output).wrote(*old(output), width as int, height as int, f),
        final(final(output).data)@ == final(old(output).data)@,
{
    let ghost before = *output;
    let ghost storage = final(output.data)@;
    let mut y: usize = 0;
    while y < height
        invariant
            y <= height,
            before.holds(width as int, height as int),
            output.progress(before, width as int, y as int, 0, f),
            forall|j: int, i: int| #[trigger] f(j, i) == v.val(),
            final(output.data)@ == storage,
        decreases height - y,
    {
        proof {
            before.lemma_holds_fewer(width as int, height as int, y + 1);
        }
        output.fill_row(y, width, v, Ghost(before), Ghost(f));
        y += 1;
    }
    proof {
        output.lemma_done(before, width as int, height as int, f);
    }
}

/// The middle of the range, in the storage of a sample.
fn mid_sample<T: Sample>(bit_depth: usize) -> (r: T)
    requires
        8 <= bit_depth < 40,
    ensures
        r.val() == mid_value(bit_depth as int) % pixel_range(T::storage()),
{
    let s: u32 = (bit_depth - 8) as u32;
    proof {
        vstd::arithmetic::power2::lemma2_to64();
    }
    if s < 16 {
        proof {
            vstd::arithmetic::power2::lemma_pow2_strictly_increases(s as nat, 16);
            vstd::bits::lemma_u32_shl_is_mul(128u32, s);
        }
        T::cast_from(128u32 << s)
    } else {
        proof {
            vstd::arithmetic::power2::lemma_pow2_adds(16, (s - 16) as nat);
            let p = pow2((s - 16) as nat) as int;
            let range = pixel_range(T::storage());
            assert(mid_value(bit_depth as int) == 0x80_0000 * p);
            assert((0x80_0000 * p) % 0x100 == 0 && (0x80_0000 * p) % 0x1_0000 == 0);
        }
        T::cast_from(0)
    }
}

/// The middle of the range, where there are no edges.
pub fn pred_dc_128_simd<T: Sample>(
    output: &mut PlaneRegionMut<'_, T>,
    width: usize,
    height: usize,
    bit_depth: usize,
)
    requires
        old(output).holds(width as int, height as int),
        8 <= bit_depth < 40,
    ensures
        final(output).wrote(
            *old(output),
            width as int,
            height as int,
            |y: int, x: int| mid_value(bit_depth as int) % pixel_range(T::storage()),
        ),
        final(final(output).data)@ == final(old(output).data)@,
{
    let v: T = mid_sample(bit_depth);
    fill_block(
        output,
        v,
        width,
        height,
        Ghost(|y: int, x: int| mid_value(bit_depth as int) % pixel_range(T::storage())),
    );
}

/// The average of samples, in their own storage.
fn average_sample<T: Sample>(total: u32, n: u32) -> (r: T)
    requires
        0 < n,
        total + n as int / 2 <= u32::MAX,
        total <= n * (pixel_range(T::storage()) - 1),
    ensures
        r.val() == average(total as int, n as int),
{
    proof {
        let top = pixel_range(T::storage()) - 1;
        let half = n as int / 2;
        assert(0 <= (total + half) / n as int <= top) by (nonlinear_arith)
            requires
                0 <= total <= n * top,
                0 <= half < n,
                n > 0,
        ;
    }
    T::cast_from((total + n / 2) / n)
}

/// The average of the left edge.
pub fn pred_dc_left_simd<T: Sample>(
    output: &mut PlaneRegionMut<'_, T>,
    left: &[T],
    width: usize,
    height: usize,
)
    requires
        old(output).holds(width as int, height as int),
        0 < height <= u32::MAX,
        height <= left@.len(),
        edge_sum(left@, height as int) + height as int / 2 <= u32::MAX,
    ensures
        final(output).wrote(
            *old(output),
            width as int,
            height as int,
            |y: int, x: int| average(edge_sum(left@, height as int), height as int),
        ),
        final(final(output).data)@ == final(old(output).data)@,
{
    let sum: u32 = sum_pixels_simd(left, height);
    let avg: T = average_sample(sum, height as u32);
    fill_block(
        output,
        avg,
        width,
        height,
        Ghost(|y: int, x: int| average(edge_sum(left@, height as int), height as int)),
    );
}

/// The average of the upper edge.
pub fn pred_dc_top_simd<T: Sample>(
    output: &mut PlaneRegionMut<'_, T>,
    above: &[T],
    width: usize,
    height: usize,
)
    requires
        old(output).holds(width as int, height as int),
        0 < width <= u32::MAX,
        width <= above@.len(),
        edge_sum(above@, width as int) + width as int / 2 <= u32::MAX,
    ensures
        final(output).wrote(
            *old(output),
            width as int,
            height as int,
            |y: int, x: int| average(edge_sum(above@, width as int), width as int),
        ),
        final(final(output).data)@ == final(old(output).data)@,
{
    let sum: u32 = sum_pixels_simd(above, width);
    let avg: T = average_sample(sum, width as u32);
    fill_block(
        output,
        avg,
        width,
        height,
        Ghost(|y: int, x: int| average(edge_sum(above@, width as int), width as int)),
    );
}

/// The average of both edges.
pub fn pred_dc_simd<T: Sample>(
    output: &mut PlaneRegionMut<'_, T>,
    above: &[T],
    left: &[T],
    width: usize,
    height: usize,
)
    requires
        old(output).holds(width as int, height as int),
        0 < width + height <= u32::MAX,
        width <= above@.len(),
        height <= left@.len(),
        edge_sum(left@, height as int) + edge_sum(above@, width as int) + (width + height) / 2
            <= u32::MAX,
    ensures
        final(output).wrote(
            *old(output),
            width as int,
            height as int,
            |y: int, x: int|
                average(
                    edge_sum(left@, height as int) + edge_sum(above@, width as int),
                    width + height,
                ),
        ),
        final(final(output).data)@ == final(old(output).data)@,
{
    proof {
        lemma_edge_sum(left@, height as int);
        lemma_edge_sum(above@, width as int);
        let top = pixel_range(T::storage()) - 1;
        assert(height * top + width * top == (width + height) * top) by (nonlinear_arith);
    }
    let sum_left: u32 = sum_pixels_simd(left, height);
    let sum_above: u32 = sum_pixels_simd(above, width);
    let sum: u32 = sum_left + sum_above;
    let len: u32 = (width + height) as u32;
    let avg: T = average_sample(sum, len);
    fill_block(
        output,
        avg,
        width,
        height,
        Ghost(
            |y: int, x: int|
                average(
                    edge_sum(left@, height as int) + edge_sum(above@, width as int),
                    width + height,
                ),
        ),
    );
}

/// The sum of samples is at most as many times the largest one.
proof fn lemma_edge_sum<T: Sample>(s: Seq<T>, n: int)
    requires
        0 <= n <= s.len(),
    ensures
        0 <= edge_sum(s, n) <= n * (pixel_range(T::storage()) - 1),
{
    let top = pixel_range(T::storage()) - 1;
    let f = sample_values(s);
    assert forall|i: int| 0 <= i < n implies 0 <= #[trigger] f(i) <= top by {
        s[i].lemma_val(s[i]);
    }
    lemma_sum_bounds(f, n, 0, top);
    assert(n * top == top * n) by (nonlinear_arith);
}

/// The sum of more samples is no smaller.
proof fn lemma_edge_sum_mono<T: Sample>(s: Seq<T>, m: int, n: int)
    requires
        0 <= m <= n <= s.len(),
    ensures
        0 <= edge_sum(s, m) <= edge_sum(s, n),
{
    let f = sample_values(s);
    assert forall|i: int| 0 <= i < n implies #[trigger] f(i) >= 0 by {
        s[i].lemma_val(s[i]);
    }
    lemma_sum_mono(f, m, n);
}

/// The sum of the first `count` samples.
pub fn sum_pixels_simd<T: Sample>(pixels: &[T], count: usize) -> (r: u32)
    requires
        count <= pixels@.len(),
        edge_sum(pixels@, count as int) <= u32::MAX,
    ensures
        r == edge_sum(pixels@, count as int),
        r <= count * (pixel_range(T::storage()) - 1),
{
    proof {
        lemma_edge_sum(pixels@, count as int);
    }
    match T::type_enum() {
        PixelType::U8 => sum_u8_simd(pixels, count),
        PixelType::U16 => sum_u16_scalar(pixels, count),
    }
}

/// The sum of eight-bit samples, sixteen at a time.
fn sum_u8_simd<T: Sample>(pixels: &[T], count: usize) -> (r: u32)
    requires
        T::storage() == PixelType::U8,
        count <= pixels@.len(),
        edge_sum(pixels@, count as int) <= u32::MAX,
    ensures
        r == edge_sum(pixels@, count as int),
{
    let ghost f = sample_values(pixels@);
    let mut sum: u32 = 0;
    let mut i: usize = 0;
    while count - i >= 16
        invariant
            i <= count <= pixels@.len(),
            edge_sum(pixels@, count as int) <= u32::MAX,
            T::storage() == PixelType::U8,
            f == sample_values(pixels@),
            sum == edge_sum(pixels@, i as int),
        decreases count - i,
    {
        let v = load16(pixels, i);
        proof {
            assert forall|k: int| 0 <= k < 16 implies #[trigger] v.lane_u8(k) == f(i + k) by {}
            lemma_sum_16(f, i as int);
            lemma_edge_sum_mono(pixels@, i + 16, count as int);
            assert(v.lane_u8(0) == f(i + 0));
        }
        sum = sum + horizontal_sum_u8x16(v);
        i += 16;
    }
    while i < count
        invariant
            i <= count <= pixels@.len(),
            edge_sum(pixels@, count as int) <= u32::MAX,
            f == sample_values(pixels@),
            sum == edge_sum(pixels@, i as int),
        decreases count - i,
    {
        let p: i32 = pixels[i].to_i32();
        proof {
            assert(f(i as int) == p);
            lemma_edge_sum_mono(pixels@, i + 1, count as int);
        }
        sum = sum + p as u32;
        i += 1;
    }
    sum
}

/// The sum of samples, one at a time.
fn sum_u16_scalar<T: Sample>(pixels: &[T], count: usize) -> (r: u32)
    requires
        count <= pixels@.len(),
        edge_sum(pixels@, count as int) <= u32::MAX,
    ensures
        r == edge_sum(pixels@, count as int),
{
    let ghost f = sample_values(pixels@);
    let mut sum: u32 = 0;
    let mut i: usize = 0;
    while i < count
        invariant
            i <= count <= pixels@.len(),
            edge_sum(pixels@, count as int) <= u32::MAX,
            f == sample_values(pixels@),
            sum == edge_sum(pixels@, i as int),
        decreases count - i,
    {
        let p: i32 = pixels[i].to_i32();
        proof {
            assert(f(i as int) == p);
            lemma_edge_sum_mono(pixels@, i + 1, count as int);
        }
        sum = sum + p as u32;
        i += 1;
    }
    sum
}

/// Every row is the upper edge.
pub fn pred_v_simd<T: Sample>(
    output: &mut PlaneRegionMut<'_, T>,
    above: &[T],
    width: usize,
    height: usize,
)
    requires
        old(output).holds(width as int, height as int),
        width <= above@.len(),
    ensures
        final(output).wrote(
            *old(output),
            width as int,
            height as int,
            |y: int, x: int| above@[x].val(),
        ),
        final(final(output).data)@ == final(old(output).data)@,
{
    let ghost f = |y: int, x: int| above@[x].val();
    let ghost before = *output;
    let ghost storage = final(output.data)@;
    let mut y: usize = 0;
    while y < height
        invariant
            y <= height,
            width <= above@.len(),
            before.holds(width as int, height as int),
            output.progress(before, width as int, y as int, 0, f),
            f == (|j: int, x: int| above@[x].val()),
            final(output.data)@ == storage,
        decreases height - y,
    {
        proof {
            before.lemma_holds_fewer(width as int, height as int, y + 1);
        }
        output.paint_row(y, width, above, Ghost(before), Ghost(f));
        y += 1;
    }
    proof {
        output.lemma_done(before, width as int, height as int, f);
    }
}

/// Every row is filled with the sample to its left; `left` runs from the bottom up.
pub fn pred_h_simd<T: Sample>(
    output: &mut PlaneRegionMut<'_, T>,
    left: &[T],
    width: usize,
    height: usize,
)
    requires
        old(output).holds(width as int, height as int),
        height <= left@.len(),
    ensures
        final(output).wrote(
            *old(output),
            width as int,
            height as int,
            |y: int, x: int| left@[height - 1 - y].val(),
        ),
        final(final(output).data)@ == final(old(output).data)@,
{
    let ghost f = |y: int, x: int| left@[height - 1 - y].val();
    let ghost before = *output;
    let ghost storage = final(output.data)@;
    let mut y: usize = 0;
    while y < height
        invariant
            y <= height <= left@.len(),
            before.holds(width as int, height as int),
            output.progress(before, width as int, y as int, 0, f),
            f == (|j: int, x: int| left@[height - 1 - j].val()),
            final(output.data)@ == storage,
        decreases height - y,
    {
        proof {
            before.lemma_holds_fewer(width as int, height as int, y + 1);
        }
        output.fill_row(y, width, left[height - 1 - y], Ghost(before), Ghost(f));
        y += 1;
    }
    proof {
        output.lemma_done(before, width as int, height as int, f);
    }
}

/// The Paeth choice for four columns.
fn paeth_lanes(left: i32, top: v128, top_left: i32) -> (r: v128)
    requires
        0 <= left <= 0xffff,
        0 <= top_left <= 0xffff,
        forall|k: int| 0 <= k < 4 ==> 0 <= #[trigger] top.lane_i32(k) <= 0xffff,
    ensures
        forall|k: int|
            0 <= k < 4 ==> #[trigger] r.lane_i32(k) == paeth(
                left as int,
                top.lane_i32(k) as int,
                top_left as int,
            ),
{
    let left_vec = i32x4_splat(left);
    let top_left_vec = i32x4_splat(top_left);
    let p_base = i32x4_sub(i32x4_add(top, left_vec), top_left_vec);
    let p_left = i32x4_abs(i32x4_sub(p_base, left_vec));
    let p_top = i32x4_abs(i32x4_sub(p_base, top));
    let p_top_left = i32x4_abs(i32x4_sub(p_base, top_left_vec));
    let left_le_top = i32x4_le(p_left, p_top);
    let left_le_tl = i32x4_le(p_left, p_top_left);
    let select_left = v128_and(left_le_top, left_le_tl);
    let top_le_tl = i32x4_le(p_top, p_top_left);
    let select_top = v128_and(v128_not(select_left), top_le_tl);
    let first = relaxed_laneselect_i32x4(left_vec, top_left_vec, select_left);
    let r = relaxed_laneselect_i32x4(top, first, select_top);
    proof {
        lemma_mask_logic();
        assert forall|k: int| 0 <= k < 4 implies #[trigger] r.lane_i32(k) == paeth(
            left as int,
            top.lane_i32(k) as int,
            top_left as int,
        ) by {
            reveal(paeth);
            let t = top.lane_i32(k);
            let base = t + left - top_left;
            assert(left_vec.lane_i32(k) == left && top_left_vec.lane_i32(k) == top_left);
            assert(p_base.lane_i32(k) == base);
            assert(p_left.lane_i32(k) == abs_int(base - left));
            assert(p_top.lane_i32(k) == abs_int(base - t));
            assert(p_top_left.lane_i32(k) == abs_int(base - top_left));
            let a = abs_int(base - left) <= abs_int(base - t);
            let b = abs_int(base - left) <= abs_int(base - top_left);
            let c = abs_int(base - t) <= abs_int(base - top_left);
            assert(left_le_top.lane_i32(k) == mask(a));
            assert(left_le_tl.lane_i32(k) == mask(b));
            assert(top_le_tl.lane_i32(k) == mask(c));
            assert(select_left.lane_i32(k) == mask(a && b));
            assert(select_top.lane_i32(k) == mask(!(a && b) && c));
            lemma_select_bits(left, top_left);
            lemma_select_bits(t, first.lane_i32(k));
            assert(first.lane_i32(k) == select_bits(left, top_left, select_left.lane_i32(k)));
        }
    }
    r
}

/// Masks of whole words under the logical operations.
proof fn lemma_mask_logic()
    ensures
        -1i32 & -1i32 == -1i32,
        -1i32 & 0i32 == 0i32,
        0i32 & -1i32 == 0i32,
        0i32 & 0i32 == 0i32,
        !0i32 == -1i32,
        !(-1i32) == 0i32,
{
    assert(-1i32 & -1i32 == -1i32 && -1i32 & 0i32 == 0i32 && 0i32 & -1i32 == 0i32 && 0i32 & 0i32
        == 0i32 && !0i32 == -1i32 && !(-1i32) == 0i32) by (bit_vector);
}

/// The Paeth choice for one column.
fn paeth_scalar(left: i32, top: i32, top_left: i32) -> (r: i32)
    requires
        0 <= left <= 0xffff,
        0 <= top <= 0xffff,
        0 <= top_left <= 0xffff,
    ensures
        r == paeth(left as int, top as int, top_left as int),
{
    proof {
        reveal(paeth);
    }
    let p_base: i32 = top + left - top_left;
    let p_left: i32 = if p_base < left { left - p_base } else { p_base - left };
    let p_top: i32 = if p_base < top { top - p_base } else { p_base - top };
    let p_top_left: i32 = if p_base < top_left { top_left - p_base } else { p_base - top_left };
    if p_left <= p_top && p_left <= p_top_left {
        left
    } else if p_top <= p_top_left {
        top
    } else {
        top_left
    }
}

/// Every sample is the neighbour nearest to the gradient; `left` runs from the bottom up.
pub fn pred_paeth_simd<T: Sample>(
    output: &mut PlaneRegionMut<'_, T>,
    above: &[T],
    left: &[T],
    above_left: T,
    width: usize,
    height: usize,
)
    requires
        old(output).holds(width as int, height as int),
        width <= above@.len(),
        height <= left@.len(),
    ensures
        final(output).wrote(
            *old(output),
            width as int,
            height as int,
            |y: int, x: int|
                paeth(left@[height - 1 - y].val(), above@[x].val(), above_left.val()),
        ),
        final(final(output).data)@ == final(old(output).data)@,
{
    let ghost f = |y: int, x: int|
        paeth(left@[height - 1 - y].val(), above@[x].val(), above_left.val());
    let ghost before = *output;
    let ghost storage = final(output.data)@;
    let raw_top_left: i32 = above_left.to_i32();
    let mut y: usize = 0;
    while y < height
        invariant
            y <= height <= left@.len(),
            width <= above@.len(),
            0 <= raw_top_left < pixel_range(T::storage()),
            raw_top_left == above_left.val(),
            before.holds(width as int, height as int),
            output.progress(before, width as int, y as int, 0, f),
            f == (|j: int, x: int|
                paeth(left@[height - 1 - j].val(), above@[x].val(), above_left.val())),
            final(output.data)@ == storage,
        decreases height - y,
    {
        proof {
            before.lemma_holds_fewer(width as int, height as int, y + 1);
        }
        let raw_left: i32 = left[height - 1 - y].to_i32();
        let row = paeth_row(above, raw_left, raw_top_left, width);
        output.paint_row(y, width, row.as_slice(), Ghost(before), Ghost(f));
        y += 1;
    }
    proof {
        output.lemma_done(before, width as int, height as int, f);
    }
}

/// The Paeth choices of four columns, from column `c` on.
fn paeth_four<T: Sample>(above: &[T], c: usize, left: i32, top_left: i32) -> (r: [T; 4])
    requires
        c + 4 <= above@.len(),
        0 <= left < pixel_range(T::storage()),
        0 <= top_left < pixel_range(T::storage()),
    ensures
        forall|k: int|
            0 <= k < 4 ==> (#[trigger] r[k]).val() == paeth(
                left as int,
                above@[c + k].val(),
                top_left as int,
            ),
{
    let top = i32x4(
        above[c].to_i32(),
        above[c + 1].to_i32(),
        above[c + 2].to_i32(),
        above[c + 3].to_i32(),
    );
    let choice = paeth_lanes(left, top, top_left);
    assert forall|k: int| 0 <= k < 4 implies 0 <= #[trigger] choice.lane_i32(k) < pixel_range(
        T::storage(),
    ) && choice.lane_i32(k) == paeth(left as int, above@[c + k].val(), top_left as int) by {
        assert(top.lane_i32(k) == above@[c + k].val());
        above@[c + k].lemma_val(above@[c + k]);
        lemma_paeth_nearest(left as int, above@[c + k].val(), top_left as int);
    }
    let a: i32 = i32x4_extract_lane::<0>(choice);
    let b: i32 = i32x4_extract_lane::<1>(choice);
    let d: i32 = i32x4_extract_lane::<2>(choice);
    let e: i32 = i32x4_extract_lane::<3>(choice);
    [T::cast_from(a as u32), T::cast_from(b as u32), T::cast_from(d as u32), T::cast_from(e as u32)]
}

/// The Paeth choices of a row, four columns at a time.
fn paeth_row<T: Sample>(above: &[T], left: i32, top_left: i32, width: usize) -> (r: Vec<T>)
    requires
        width <= above@.len(),
        0 <= left < pixel_range(T::storage()),
        0 <= top_left < pixel_range(T::storage()),
    ensures
        r@.len() == width,
        forall|x: int|
            0 <= x < width ==> (#[trigger] r@[x]).val() == paeth(
                left as int,
                above@[x].val(),
                top_left as int,
            ),
{
    let mut row: Vec<T> = Vec::new();
    let mut c: usize = 0;
    while width - c >= 4
        invariant
            c <= width <= above@.len(),
            0 <= left < pixel_range(T::storage()),
            0 <= top_left < pixel_range(T::storage()),
            row@.len() == c,
            forall|x: int|
                0 <= x < c ==> (#[trigger] row@[x]).val() == paeth(
                    left as int,
                    above@[x].val(),
                    top_left as int,
                ),
        decreases width - c,
    {
        let next = paeth_four(above, c, left, top_left);
        let ghost prev = row@;
        row.push(next[0]);
        row.push(next[1]);
        row.push(next[2]);
        row.push(next[3]);
        assert forall|x: int| 0 <= x < c + 4 implies (#[trigger] row@[x]).val() == paeth(
            left as int,
            above@[x].val(),
            top_left as int,
        ) by {
            if x < c {
                assert(row@[x] == prev[x]);
            } else {
                assert(row@[x] == next[x - c]);
            }
        }
        c += 4;
    }
    while c < width
        invariant
            c <= width <= above@.len(),
            0 <= left < pixel_range(T::storage()),
            0 <= top_left < pixel_range(T::storage()),
            row@.len() == c,
            forall|x: int|
                0 <= x < c ==> (#[trigger] row@[x]).val() == paeth(
                    left as int,
                    above@[x].val(),
                    top_left as int,
                ),
        decreases width - c,
    {
        let choice: i32 = paeth_scalar(left, above[c].to_i32(), top_left);
        proof {
            lemma_paeth_nearest(left as int, above@[c as int].val(), top_left as int);
        }
        row.push(T::cast_from(choice as u32));
        c += 1;
    }
    row
}

/// The luma of a block without its average, from which chroma is predicted, as `subsample` gives
/// it for the luma, how many times chroma is subsampled along both axes, the size of the block and
/// of its padding, and the level.
pub fn pred_cfl_ac<
    T: Sample,
    const XDEC: usize,
    const YDEC: usize,
    F: FnOnce(
        &PlaneRegion<'_, T>,
        usize,
        usize,
        BlockSize,
        usize,
        usize,
        CpuFeatureLevel,
    ) -> Vec<i16>,
>(
    ac: &mut [i16],
    luma: &PlaneRegion<'_, T>,
    plane_bsize: BlockSize,
    w_pad: usize,
    h_pad: usize,
    cpu: CpuFeatureLevel,
    subsample: F,
)
    requires
        call_requires(subsample, (luma, XDEC, YDEC, plane_bsize, w_pad, h_pad, cpu)),
        forall|v: Vec<i16>|
            #[trigger] call_ensures(
                subsample,
                (luma, XDEC, YDEC, plane_bsize, w_pad, h_pad, cpu),
                v,
            ) ==> v@.len() <= old(ac)@.len(),
    ensures
        exists|v: Vec<i16>|
            #[trigger] call_ensures(
                subsample,
                (luma, XDEC, YDEC, plane_bsize, w_pad, h_pad, cpu),
                v,
            ) && starts_with(old(ac)@, final(ac)@, v@),
{
    let v: Vec<i16> = subsample(luma, XDEC, YDEC, plane_bsize, w_pad, h_pad, cpu);
    store_front(ac, &v);
}

/// The average of samples lies among them: DC prediction stays within the range of its edge.
pub proof fn lemma_average_range(f: spec_fn(int) -> int, n: int, lo: int, hi: int)
    requires
        n > 0,
        forall|i: int| 0 <= i < n ==> lo <= #[trigger] f(i) <= hi,
    ensures
        lo <= average(sum(f, n), n) <= hi,
{
    lemma_sum_bounds(f, n, lo, hi);
    let s = sum(f, n);
    let half = n / 2;
    assert(lo <= (s + half) / n <= hi) by (nonlinear_arith)
        requires
            lo * n <= s <= hi * n,
            0 <= half < n,
            n > 0,
    ;
}

/// The Paeth choice is one of the three neighbours, and none of them is nearer to the gradient.
pub proof fn lemma_paeth_nearest(left: int, top: int, top_left: int)
    ensures
        paeth(left, top, top_left) == left || paeth(left, top, top_left) == top || paeth(
            left,
            top,
            top_left,
        ) == top_left,
        abs_int(top + left - top_left - paeth(left, top, top_left)) <= abs_int(top - top_left),
        abs_int(top + left - top_left - paeth(left, top, top_left)) <= abs_int(left - top_left),
        abs_int(top + left - top_left - paeth(left, top, top_left)) <= abs_int(
            top + left - 2 * top_left,
        ),
{
    reveal(paeth);
}

} // verus!
