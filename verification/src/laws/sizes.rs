//! What holds of the sizes of blocks and transforms, and of where operations are carried out.

use crate::cdef::{costs_fit, direction_cost, filters_in_vectors};
use crate::cpu_features::CpuFeatureLevel;
use crate::frame::{direction_found, slice_centred, SliceGeometry};
use crate::laws::numbers::lemma_shift_is_quotient;
use crate::partition::BlockSize;
use crate::pixel::{PixelType, Sample};
use crate::predict::{route, Dispatch, PredictionMode};
use crate::transform::inverse::inverts_in_vectors;
use crate::transform::{TxSize, TxType};
use vstd::arithmetic::power2::pow2;
use vstd::prelude::*;

verus! {

/// A length that blocks and transforms have.
pub open spec fn is_length(n: int) -> bool {
    n == 4 || n == 8 || n == 16 || n == 32 || n == 64 || n == 128
}

/// Blocks of different sizes have different dimensions. There is a block for all lengths from 4 to
/// 128 of which neither is more than twice the other, and up to 64 for those of which one is four
/// times the other, and for no others.
pub proof fn lemma_sizes_of_blocks(a: BlockSize, b: BlockSize, w: int, h: int)
    ensures
        a.dims() == b.dims() ==> a == b,
        is_length(w) && is_length(h) && ((w <= 2 * h && h <= 2 * w) || (w <= 4 * h && h <= 4 * w
            && w <= 64 && h <= 64)) <==> exists|c: BlockSize| #[trigger] c.dims() == (w, h),
{
    if is_length(w) && is_length(h) {
        let all = (
            BlockSize::BLOCK_4X4.dims(),
            BlockSize::BLOCK_4X8.dims(),
            BlockSize::BLOCK_8X4.dims(),
            BlockSize::BLOCK_8X8.dims(),
            BlockSize::BLOCK_8X16.dims(),
            BlockSize::BLOCK_16X8.dims(),
            BlockSize::BLOCK_16X16.dims(),
            BlockSize::BLOCK_16X32.dims(),
            BlockSize::BLOCK_32X16.dims(),
            BlockSize::BLOCK_32X32.dims(),
            BlockSize::BLOCK_32X64.dims(),
        );
        let rest = (
            BlockSize::BLOCK_64X32.dims(),
            BlockSize::BLOCK_64X64.dims(),
            BlockSize::BLOCK_64X128.dims(),
            BlockSize::BLOCK_128X64.dims(),
            BlockSize::BLOCK_128X128.dims(),
            BlockSize::BLOCK_4X16.dims(),
            BlockSize::BLOCK_16X4.dims(),
            BlockSize::BLOCK_8X32.dims(),
            BlockSize::BLOCK_32X8.dims(),
            BlockSize::BLOCK_16X64.dims(),
            BlockSize::BLOCK_64X16.dims(),
        );
    }
}

/// Transforms of different sizes have different dimensions. There is a transform for all lengths
/// from 4 to 64 of which neither is more than four times the other, and for no others.
pub proof fn lemma_sizes_of_transforms(a: TxSize, b: TxSize, w: int, h: int)
    ensures
        a.dims() == b.dims() ==> a == b,
        is_length(w) && is_length(h) && w <= 64 && h <= 64 && w <= 4 * h && h <= 4 * w
            <==> exists|c: TxSize| #[trigger] c.dims() == (w, h),
{
    if is_length(w) && is_length(h) {
        let all = (
            TxSize::TX_4X4.dims(),
            TxSize::TX_8X8.dims(),
            TxSize::TX_16X16.dims(),
            TxSize::TX_32X32.dims(),
            TxSize::TX_64X64.dims(),
            TxSize::TX_4X8.dims(),
            TxSize::TX_8X4.dims(),
            TxSize::TX_8X16.dims(),
            TxSize::TX_16X8.dims(),
            TxSize::TX_16X32.dims(),
        );
        let rest = (
            TxSize::TX_32X16.dims(),
            TxSize::TX_32X64.dims(),
            TxSize::TX_64X32.dims(),
            TxSize::TX_4X16.dims(),
            TxSize::TX_16X4.dims(),
            TxSize::TX_8X32.dims(),
            TxSize::TX_32X8.dims(),
            TxSize::TX_16X64.dims(),
            TxSize::TX_64X16.dims(),
        );
    }
}

/// Without vectors, and for samples of more than eight bits, all blocks are predicted by the
/// portable routine. With vectors, the flat and the gradient mode are predicted in vectors, and the
/// straight ones at their own angles; the smooth modes have a routine of their own.
pub proof fn lemma_routes<T: Sample>(mode: PredictionMode, angle: int, cpu: CpuFeatureLevel)
    ensures
        route::<T>(mode, angle, cpu) == Dispatch::Vector <==> {
            &&& cpu == CpuFeatureLevel::SIMD128
            &&& T::storage() == PixelType::U8
            &&& {
                ||| mode == PredictionMode::DC_PRED
                ||| mode == PredictionMode::PAETH_PRED
                ||| mode == PredictionMode::V_PRED && angle == 90
                ||| mode == PredictionMode::H_PRED && angle == 180
            }
        },
        route::<T>(mode, angle, cpu) == Dispatch::Smooth <==> {
            &&& cpu == CpuFeatureLevel::SIMD128
            &&& T::storage() == PixelType::U8
            &&& {
                ||| mode == PredictionMode::SMOOTH_PRED
                ||| mode == PredictionMode::SMOOTH_V_PRED
                ||| mode == PredictionMode::SMOOTH_H_PRED
            }
        },
{
}

/// With vectors, blocks of four rows and columns under the cosine transform are inverted in them,
/// and no others.
pub proof fn lemma_inverted_in_vectors(tx_size: TxSize, tx_type: TxType, cpu: CpuFeatureLevel)
    ensures
        inverts_in_vectors(tx_size, tx_type, cpu) <==> cpu.index() == 1 && tx_size.dims() == (
            4int,
            4int,
        ) && tx_type == TxType::DCT_DCT,
{
}

/// A slice begins where its column and row in the picture lie in the storage. Its samples are
/// searched for a direction without their low bits, and with the middle of eight bits taken off.
/// It has a block of eight rows and columns where all of these lie in the storage, and each row of
/// them in one row of the storage.
pub proof fn lemma_slices<T: Sample>(
    samples: Seq<T>,
    g: SliceGeometry,
    shift: int,
    i: int,
    j: int,
    sample: int,
    t: int,
)
    requires
        0 <= shift,
        sample == samples[(g.yorigin + g.y + i) * g.stride + (g.xorigin + g.x + j)].val(),
        t == slice_centred(samples, g, shift)(i, j),
    ensures
        pow2(shift as nat) * (t + 128) <= sample < pow2(shift as nat) * (t + 129),
        g.has_block(samples.len() as int) <==> {
            &&& 0 <= g.xorigin + g.x
            &&& g.xorigin + g.x + 8 <= g.stride
            &&& 0 <= g.yorigin + g.y
            &&& (g.yorigin + g.y + 8) * g.stride <= samples.len()
        },
{
    assert((g.yorigin + g.y + i) * g.stride == (g.yorigin + g.y) * g.stride + i * g.stride)
        by (nonlinear_arith);
    lemma_shift_is_quotient(sample, shift, t + 128);
}

/// The costs of a block fit where every direction costs less than `2^31`.
pub proof fn lemma_fitting_costs(x: spec_fn(int, int) -> int)
    ensures
        costs_fit(x) <==> direction_cost(x, 0) < 0x8000_0000 && direction_cost(x, 1) < 0x8000_0000
            && direction_cost(x, 2) < 0x8000_0000 && direction_cost(x, 3) < 0x8000_0000
            && direction_cost(x, 4) < 0x8000_0000 && direction_cost(x, 5) < 0x8000_0000
            && direction_cost(x, 6) < 0x8000_0000 && direction_cost(x, 7) < 0x8000_0000,
{
}

/// Blocks are filtered in vectors where there are vectors, and all four neighbours.
pub proof fn lemma_filtered_in_vectors(edges: u8, cpu: CpuFeatureLevel)
    ensures
        filters_in_vectors(edges, cpu) <==> cpu.index() == 1 && edges == 15,
{
}

/// How much a direction stands out is what its cost has over that of the direction across it, in
/// units of 1024, rounded down. The direction across is a quarter turn away.
pub proof fn lemma_standing_out(
    x: spec_fn(int, int) -> int,
    dir: int,
    var: int,
    across: int,
    over: int,
)
    requires
        direction_found(x, dir, var),
        across == dir + 4 || across == dir - 4,
        0 <= across < 8,
        over == direction_cost(x, dir) - direction_cost(x, across),
    ensures
        1024 * var <= over < 1024 * (var + 1),
        0 <= var,
{
}

} // verus!
