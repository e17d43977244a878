//! Motion compensation: the average of two predictions, and the interpolation filters.

use crate::arch::{
    i32x4, i32x4_add, i32x4_extract_lane, i32x4_max, i32x4_min, i32x4_shr, i32x4_splat, v128,
};
use crate::cpu_features::CpuFeatureLevel;
use crate::math::{clamp, clamp_int, exp2_i32, shr, shr_i32};
use crate::pixel::{pixel_range, PixelType, Sample};
use crate::plane::{PlaneRegion, PlaneRegionMut};
use crate::portable::{block_of, starts_with, store_block, store_front};
use vstd::arithmetic::power2::pow2;
use vstd::prelude::*;

verus! {

broadcast use {crate::math::group_wrap, crate::vector::group_lanes};

/// What is taken off a prediction of more than eight bits, so that it fits 16 bits.
pub const PREP_BIAS: i32 = 8192;

/// The number of taps of an interpolation filter.
pub const SUBPEL_FILTER_SIZE: usize = 8;

/// The bits by which predictions are finer than samples.
pub open spec fn intermediate_bits(bit_depth: int) -> int {
    if bit_depth == 12 {
        2
    } else {
        4
    }
}

/// The average of two predictions: their sum, with the bias added back where there is one, scaled
/// down, rounded half up and brought into the range of samples.
pub open spec fn averaged(t1: int, t2: int, bias: int, bits: int, top: int) -> int {
    clamp_int(shr(t1 + t2 + bias + pow2(bits as nat), bits + 1), 0, top)
}

/// The bias of the sum of two predictions.
pub open spec fn sum_bias(t: PixelType) -> int {
    match t {
        PixelType::U8 => 0,
        PixelType::U16 => 2 * PREP_BIAS,
    }
}

/// The largest sample.
pub open spec fn top_sample(t: PixelType, bit_depth: int) -> int {
    match t {
        PixelType::U8 => 255,
        PixelType::U16 => pow2(bit_depth as nat) - 1,
    }
}

/// The average of two predictions in row `y`, column `x`.
pub open spec fn average_at(
    t: PixelType,
    tmp1: Seq<i16>,
    tmp2: Seq<i16>,
    width: int,
    bit_depth: int,
) -> spec_fn(int, int) -> int {
    |y: int, x: int|
        averaged(
            tmp1[y * width + x] as int,
            tmp2[y * width + x] as int,
            sum_bias(t),
            intermediate_bits(bit_depth),
            top_sample(t, bit_depth),
        ) % pixel_range(t)
}

/// Whether a width is one that blocks have.
pub open spec fn is_block_width(width: int) -> bool {
    width == 2 || width == 4 || width == 8 || width == 16 || width == 32 || width == 64 || width
        == 128
}

/// The averages of four columns.
fn average_lanes(t1: v128, t2: v128, bias: i32, bits: u32, top: i32) -> (r: v128)
    requires
        0 <= bias <= 0x4000,
        bits <= 4,
        0 <= top,
        forall|k: int| 0 <= k < 4 ==> -0x8000 <= #[trigger] t1.lane_i32(k) <= 0x7fff,
        forall|k: int| 0 <= k < 4 ==> -0x8000 <= #[trigger] t2.lane_i32(k) <= 0x7fff,
    ensures
        forall|k: int|
            0 <= k < 4 ==> #[trigger] r.lane_i32(k) == averaged(
                t1.lane_i32(k) as int,
                t2.lane_i32(k) as int,
                bias as int,
                bits as int,
                top as int,
            ),
{
    let half: i32 = exp2_i32(bits);
    proof {
        lemma_half(bits);
    }
    let bias_vec = i32x4_splat(bias);
    let half_vec = i32x4_splat(half);
    let pair = i32x4_add(t1, t2);
    let sum = i32x4_add(pair, bias_vec);
    let rounded = i32x4_add(sum, half_vec);
    let shifted = i32x4_shr(rounded, bits + 1);
    let zero = i32x4_splat(0);
    let top_vec = i32x4_splat(top);
    let r = i32x4_min(i32x4_max(shifted, zero), top_vec);
    assert forall|k: int| 0 <= k < 4 implies #[trigger] r.lane_i32(k) == averaged(
        t1.lane_i32(k) as int,
        t2.lane_i32(k) as int,
        bias as int,
        bits as int,
        top as int,
    ) by {
        assert(-0x8000 <= t1.lane_i32(k) <= 0x7fff && -0x8000 <= t2.lane_i32(k) <= 0x7fff);
        assert(bias_vec.lane_i32(k) == bias && half_vec.lane_i32(k) == half);
        assert(zero.lane_i32(k) == 0 && top_vec.lane_i32(k) == top);
        assert(pair.lane_i32(k) == t1.lane_i32(k) + t2.lane_i32(k));
        assert(sum.lane_i32(k) == t1.lane_i32(k) + t2.lane_i32(k) + bias);
        assert(rounded.lane_i32(k) == t1.lane_i32(k) + t2.lane_i32(k) + bias + half);
    }
    r
}

/// Half of what a prediction is scaled by.
proof fn lemma_half(bits: u32)
    requires
        bits <= 4,
    ensures
        1 <= pow2(bits as nat) <= 16,
{
    vstd::arithmetic::power2::lemma2_to64();
    vstd::arithmetic::power2::lemma_pow2_pos(bits as nat);
    if bits < 4 {
        vstd::arithmetic::power2::lemma_pow2_strictly_increases(bits as nat, 4);
    }
}

/// The average of one column.
fn average_scalar(t1: i16, t2: i16, bias: i32, bits: u32, top: i32) -> (r: i32)
    requires
        0 <= bias <= 0x4000,
        bits <= 4,
        0 <= top,
    ensures
        r == averaged(t1 as int, t2 as int, bias as int, bits as int, top as int),
{
    proof {
        lemma_half(bits);
    }
    let half: i32 = exp2_i32(bits);
    let sum: i32 = t1 as i32 + t2 as i32 + bias;
    clamp(shr_i32(sum + half, bits + 1), 0, top)
}

/// The averages of a row.
fn average_row<T: Sample>(
    tmp1: &[i16],
    tmp2: &[i16],
    start: usize,
    width: usize,
    bias: i32,
    bits: u32,
    top: i32,
) -> (r: Vec<T>)
    requires
        0 <= bias <= 0x4000,
        bits <= 4,
        0 <= top,
        start + width <= tmp1@.len(),
        start + width <= tmp2@.len(),
    ensures
        r@.len() == width,
        forall|x: int|
            0 <= x < width ==> (#[trigger] r@[x]).val() == averaged(
                tmp1@[start + x] as int,
                tmp2@[start + x] as int,
                bias as int,
                bits as int,
                top as int,
            ) % pixel_range(T::storage()),
{
    let mut row: Vec<T> = Vec::new();
    let mut c: usize = 0;
    let len: usize = tmp1.len();
    assert(len == tmp1@.len());
    while width - c >= 4
        invariant
            c <= width,
            0 <= bias <= 0x4000,
            bits <= 4,
            0 <= top,
            len == tmp1@.len(),
            start + width <= tmp1@.len(),
            start + width <= tmp2@.len(),
            row@.len() == c,
            forall|x: int|
                0 <= x < c ==> (#[trigger] row@[x]).val() == averaged(
                    tmp1@[start + x] as int,
                    tmp2@[start + x] as int,
                    bias as int,
                    bits as int,
                    top as int,
                ) % pixel_range(T::storage()),
        decreases width - c,
    {
        let i: usize = start + c;
        let t1 = i32x4(
            tmp1[i] as i32,
            tmp1[i + 1] as i32,
            tmp1[i + 2] as i32,
            tmp1[i + 3] as i32,
        );
        let t2 = i32x4(
            tmp2[i] as i32,
            tmp2[i + 1] as i32,
            tmp2[i + 2] as i32,
            tmp2[i + 3] as i32,
        );
        let v = average_lanes(t1, t2, bias, bits, top);
        let a: i32 = i32x4_extract_lane::<0>(v);
        let b: i32 = i32x4_extract_lane::<1>(v);
        let d: i32 = i32x4_extract_lane::<2>(v);
        let e: i32 = i32x4_extract_lane::<3>(v);
        row.push(T::cast_from(a as u32));
        row.push(T::cast_from(b as u32));
        row.push(T::cast_from(d as u32));
        row.push(T::cast_from(e as u32));
        c += 4;
    }
    while c < width
        invariant
            c <= width,
            0 <= bias <= 0x4000,
            bits <= 4,
            0 <= top,
            len == tmp1@.len(),
            start + width <= tmp1@.len(),
            start + width <= tmp2@.len(),
            row@.len() == c,
            forall|x: int|
                0 <= x < c ==> (#[trigger] row@[x]).val() == averaged(
                    tmp1@[start + x] as int,
                    tmp2@[start + x] as int,
                    bias as int,
                    bits as int,
                    top as int,
                ) % pixel_range(T::storage()),
        decreases width - c,
    {
        let v: i32 = average_scalar(tmp1[start + c], tmp2[start + c], bias, bits, top);
        row.push(T::cast_from(v as u32));
        c += 1;
    }
    row
}

/// Averages two predictions into a block.
pub fn mc_avg<T: Sample>(
    dst: &mut PlaneRegionMut<'_, T>,
    tmp1: &[i16],
    tmp2: &[i16],
    width: usize,
    height: usize,
    bit_depth: usize,
    _cpu: CpuFeatureLevel,
)
    requires
        height % 2 == 0,
        is_block_width(width as int),
        bit_depth < 31,
        width * height <= tmp1@.len(),
        width * height <= tmp2@.len(),
        old(dst).holds(width as int, height as int),
    ensures
        final(dst).wrote(
            *old(dst),
            width as int,
            height as int,
            average_at(T::storage(), tmp1@, tmp2@, width as int, bit_depth as int),
        ),
        final(final(dst).data)@ == final(old(dst).data)@,
{
    let bits: u32 = if bit_depth == 12 {
        2
    } else {
        4
    };
    let (bias, top) = match T::type_enum() {
        PixelType::U8 => (0i32, 255i32),
        PixelType::U16 => (2 * PREP_BIAS, exp2_i32(bit_depth as u32) - 1),
    };
    let ghost f = average_at(T::storage(), tmp1@, tmp2@, width as int, bit_depth as int);
    let ghost before = *dst;
    let ghost storage = final(dst.data)@;
    let len: usize = tmp1.len();
    assert(len == tmp1@.len());
    let mut y: usize = 0;
    let mut start: usize = 0;
    while y < height
        invariant
            y <= height,
            start == y * width,
            width * height <= tmp1@.len(),
            width * height <= tmp2@.len(),
            width <= 128,
            len == tmp1@.len(),
            bits <= 4,
            bits == intermediate_bits(bit_depth as int),
            bias == sum_bias(T::storage()),
            0 <= bias <= 0x4000,
            top == top_sample(T::storage(), bit_depth as int),
            0 <= top,
            f == average_at(T::storage(), tmp1@, tmp2@, width as int, bit_depth as int),
            before.holds(width as int, height as int),
            dst.progress(before, width as int, y as int, 0, f),
            final(dst.data)@ == storage,
        decreases height - y,
    {
        proof {
            before.lemma_holds_fewer(width as int, height as int, y + 1);
            assert(y * width + width == (y + 1) * width && (y + 1) * width <= width * height)
                by (nonlinear_arith)
                requires
                    0 <= y < height,
                    0 <= width,
            ;
        }
        let row: Vec<T> = average_row(tmp1, tmp2, start, width, bias, bits, top);
        dst.paint_row(y, width, row.as_slice(), Ghost(before), Ghost(f));
        start = start + width;
        y += 1;
    }
    proof {
        dst.lemma_done(before, width as int, height as int, f);
    }
}

/// A kind of interpolation filter.
#[allow(clippy::upper_case_acronyms)]
#[derive(Debug, Copy, Clone, PartialEq, Eq, Structural)]
pub enum FilterMode {
    /// The usual one.
    REGULAR,
    /// A smoother one.
    SMOOTH,
    /// A sharper one.
    SHARP,
    /// Between two samples.
    BILINEAR,
    /// Chosen for every block.
    SWITCHABLE,
}

impl FilterMode {
    /// The position of the mode.
    pub open spec fn index(self) -> int {
        match self {
            FilterMode::REGULAR => 0,
            FilterMode::SMOOTH => 1,
            FilterMode::SHARP => 2,
            FilterMode::BILINEAR => 3,
            FilterMode::SWITCHABLE => 4,
        }
    }

    /// The position of the mode.
    pub fn as_index(self) -> (r: usize)
        ensures
            r == self.index(),
    {
        match self {
            FilterMode::REGULAR => 0,
            FilterMode::SMOOTH => 1,
            FilterMode::SHARP => 2,
            FilterMode::BILINEAR => 3,
            FilterMode::SWITCHABLE => 4,
        }
    }
}

/// The taps of the interpolation filters, by mode and by sixteenths of a sample.
pub const SUBPEL_FILTERS: [[[i32; 8]; 16]; 6] = [
    // REGULAR
    [
        [0, 0, 0, 128, 0, 0, 0, 0],
        [0, 2, -6, 126, 8, -2, 0, 0],
        [0, 2, -10, 122, 18, -4, 0, 0],
        [0, 2, -12, 116, 28, -8, 2, 0],
        [0, 2, -14, 110, 38, -10, 2, 0],
        [0, 2, -14, 102, 48, -12, 2, 0],
        [0, 2, -16, 94, 58, -12, 2, 0],
        [0, 2, -14, 84, 66, -12, 2, 0],
        [0, 2, -14, 76, 76, -14, 2, 0],
        [0, 2, -12, 66, 84, -14, 2, 0],
        [0, 2, -12, 58, 94, -16, 2, 0],
        [0, 2, -12, 48, 102, -14, 2, 0],
        [0, 2, -10, 38, 110, -14, 2, 0],
        [0, 2, -8, 28, 116, -12, 2, 0],
        [0, 0, -4, 18, 122, -10, 2, 0],
        [0, 0, -2, 8, 126, -6, 2, 0],
    ],
    // SMOOTH
    [
        [0, 0, 0, 128, 0, 0, 0, 0],
        [0, 2, 28, 62, 34, 2, 0, 0],
        [0, 0, 26, 62, 36, 4, 0, 0],
        [0, 0, 22, 62, 40, 4, 0, 0],
        [0, 0, 20, 60, 42, 6, 0, 0],
        [0, 0, 18, 58, 44, 8, 0, 0],
        [0, 0, 16, 56, 46, 10, 0, 0],
        [0, -2, 16, 54, 48, 12, 0, 0],
        [0, -2, 14, 52, 52, 14, -2, 0],
        [0, 0, 12, 48, 54, 16, -2, 0],
        [0, 0, 10, 46, 56, 16, 0, 0],
        [0, 0, 8, 44, 58, 18, 0, 0],
        [0, 0, 6, 42, 60, 20, 0, 0],
        [0, 0, 4, 40, 62, 22, 0, 0],
        [0, 0, 4, 36, 62, 26, 0, 0],
        [0, 0, 2, 34, 62, 28, 2, 0],
    ],
    // SHARP
    [
        [0, 0, 0, 128, 0, 0, 0, 0],
        [-2, 2, -6, 126, 8, -2, 2, 0],
        [-2, 6, -12, 124, 16, -6, 4, -2],
        [-2, 8, -18, 120, 26, -10, 6, -2],
        [-4, 10, -22, 116, 38, -14, 6, -2],
        [-4, 10, -22, 108, 48, -18, 8, -2],
        [-4, 10, -24, 100, 60, -20, 8, -2],
        [-4, 10, -24, 90, 70, -22, 10, -2],
        [-4, 12, -24, 80, 80, -24, 12, -4],
        [-2, 10, -22, 70, 90, -24, 10, -4],
        [-2, 8, -20, 60, 100, -24, 10, -4],
        [-2, 8, -18, 48, 108, -22, 10, -4],
        [-2, 6, -14, 38, 116, -22, 10, -4],
        [-2, 6, -10, 26, 120, -18, 8, -2],
        [-2, 4, -6, 16, 124, -12, 6, -2],
        [0, 2, -2, 8, 126, -6, 2, -2],
    ],
    // BILINEAR
    [
        [0, 0, 0, 128, 0, 0, 0, 0],
        [0, 0, 0, 120, 8, 0, 0, 0],
        [0, 0, 0, 112, 16, 0, 0, 0],
        [0, 0, 0, 104, 24, 0, 0, 0],
        [0, 0, 0, 96, 32, 0, 0, 0],
        [0, 0, 0, 88, 40, 0, 0, 0],
        [0, 0, 0, 80, 48, 0, 0, 0],
        [0, 0, 0, 72, 56, 0, 0, 0],
        [0, 0, 0, 64, 64, 0, 0, 0],
        [0, 0, 0, 56, 72, 0, 0, 0],
        [0, 0, 0, 48, 80, 0, 0, 0],
        [0, 0, 0, 40, 88, 0, 0, 0],
        [0, 0, 0, 32, 96, 0, 0, 0],
        [0, 0, 0, 24, 104, 0, 0, 0],
        [0, 0, 0, 16, 112, 0, 0, 0],
        [0, 0, 0, 8, 120, 0, 0, 0],
    ],
    // REGULAR_SMOOTH, for small blocks
    [
        [0, 0, 0, 128, 0, 0, 0, 0],
        [0, 0, -4, 126, 8, -2, 0, 0],
        [0, 0, -8, 122, 18, -4, 0, 0],
        [0, 0, -10, 116, 28, -6, 0, 0],
        [0, 0, -12, 110, 38, -8, 0, 0],
        [0, 0, -12, 102, 48, -10, 0, 0],
        [0, 0, -14, 94, 58, -10, 0, 0],
        [0, 0, -12, 84, 66, -10, 0, 0],
        [0, 0, -12, 76, 76, -12, 0, 0],
        [0, 0, -10, 66, 84, -12, 0, 0],
        [0, 0, -10, 58, 94, -14, 0, 0],
        [0, 0, -10, 48, 102, -12, 0, 0],
        [0, 0, -8, 38, 110, -12, 0, 0],
        [0, 0, -6, 28, 116, -10, 0, 0],
        [0, 0, -4, 18, 122, -8, 0, 0],
        [0, 0, -2, 8, 126, -4, 0, 0],
    ],
    // SMOOTH_SMOOTH, for small blocks
    [
        [0, 0, 0, 128, 0, 0, 0, 0],
        [0, 0, 30, 62, 34, 2, 0, 0],
        [0, 0, 26, 62, 36, 4, 0, 0],
        [0, 0, 22, 62, 40, 4, 0, 0],
        [0, 0, 20, 60, 42, 6, 0, 0],
        [0, 0, 18, 58, 44, 8, 0, 0],
        [0, 0, 16, 56, 46, 10, 0, 0],
        [0, 0, 14, 54, 48, 12, 0, 0],
        [0, 0, 12, 52, 52, 12, 0, 0],
        [0, 0, 12, 48, 54, 14, 0, 0],
        [0, 0, 10, 46, 56, 16, 0, 0],
        [0, 0, 8, 44, 58, 18, 0, 0],
        [0, 0, 6, 42, 60, 20, 0, 0],
        [0, 0, 4, 40, 62, 22, 0, 0],
        [0, 0, 4, 36, 62, 26, 0, 0],
        [0, 0, 2, 34, 62, 30, 0, 0],
    ],
];

/// The table of taps of a mode: small blocks have shorter filters.
pub open spec fn filter_table(mode: FilterMode, length: int) -> int {
    if mode == FilterMode::BILINEAR || length > 4 {
        mode.index()
    } else if mode == FilterMode::REGULAR {
        4
    } else {
        5
    }
}

/// The taps of a filter.
pub fn get_filter(mode: FilterMode, frac: i32, length: usize) -> (r: [i32; 8])
    requires
        0 <= frac < 16,
    ensures
        r == SUBPEL_FILTERS[filter_table(mode, length as int)][frac as int],
{
    let index: usize = mode.as_index();
    let table: usize = if index == 3 || length > 4 {
        index
    } else if index == 0 {
        4
    } else {
        5
    };
    SUBPEL_FILTERS[table][frac as usize]
}

/// The first `n` taps of a filter, applied from sample `i` on.
pub open spec fn filter_sum(src: Seq<u8>, filter: Seq<i32>, i: int, n: int) -> int
    decreases n,
{
    if n <= 0 {
        0
    } else {
        filter_sum(src, filter, i, n - 1) + src[i + n - 1] * filter[n - 1]
    }
}

/// Whether a filter can be applied in 32 bits.
pub open spec fn filter_fits(src: Seq<u8>, filter: Seq<i32>) -> bool {
    forall|i: int, n: int|
        #![trigger filter_sum(src, filter, i, n)]
        0 <= i < 8 && 0 < n <= 8 ==> -0x8000_0000 <= filter_sum(src, filter, i, n) <= 0x7fff_ffff
            && -0x8000_0000 <= src[i + n - 1] * filter[n - 1] <= 0x7fff_ffff
}

/// A filter of eight taps on eight consecutive samples. `src` begins three samples before the
/// first of them; the results are in two vectors.
pub fn filter_8tap_horiz_8(src: &[u8], filter: &[i32; 8]) -> (r: (v128, v128))
    requires
        15 <= src@.len(),
        filter_fits(src@, filter@),
    ensures
        forall|k: int|
            0 <= k < 4 ==> #[trigger] r.0.lane_i32(k) == filter_sum(src@, filter@, k, 8),
        forall|k: int|
            0 <= k < 4 ==> #[trigger] r.1.lane_i32(k) == filter_sum(src@, filter@, k + 4, 8),
{
    let mut results: [i32; 8] = [0; 8];
    let mut i: usize = 0;
    while i < 8
        invariant
            i <= 8,
            15 <= src@.len(),
            filter_fits(src@, filter@),
            forall|k: int| 0 <= k < i ==> #[trigger] results[k] == filter_sum(src@, filter@, k, 8),
        decreases 8 - i,
    {
        let mut acc: i32 = 0;
        let mut t: usize = 0;
        while t < 8
            invariant
                t <= 8,
                i < 8,
                15 <= src@.len(),
                filter_fits(src@, filter@),
                acc == filter_sum(src@, filter@, i as int, t as int),
            decreases 8 - t,
        {
            proof {
                let next = filter_sum(src@, filter@, i as int, t + 1);
            }
            acc = acc + src[i + t] as i32 * filter[t];
            t += 1;
        }
        results[i] = acc;
        i += 1;
    }
    (
        i32x4(results[0], results[1], results[2], results[3]),
        i32x4(results[4], results[5], results[6], results[7]),
    )
}

/// Interpolation by eight taps into a block. `interpolate` is handed the samples, the size of the
/// block, the fractions of a sample, the modes along both axes, the bit depth and the level, and
/// returns the samples of the block, row after row.
pub fn put_8tap<
    T: Sample,
    F: FnOnce(
        &PlaneRegion<'_, T>,
        usize,
        usize,
        i32,
        i32,
        FilterMode,
        FilterMode,
        usize,
        CpuFeatureLevel,
    ) -> Vec<T>,
>(
    dst: &mut PlaneRegionMut<'_, T>,
    src: &PlaneRegion<'_, T>,
    width: usize,
    height: usize,
    col_frac: i32,
    row_frac: i32,
    mode_x: FilterMode,
    mode_y: FilterMode,
    bit_depth: usize,
    cpu: CpuFeatureLevel,
    interpolate: F,
)
    requires
        old(dst).holds(width as int, height as int),
        call_requires(
            interpolate,
            (src, width, height, col_frac, row_frac, mode_x, mode_y, bit_depth, cpu),
        ),
        forall|v: Vec<T>|
            #[trigger] call_ensures(
                interpolate,
                (src, width, height, col_frac, row_frac, mode_x, mode_y, bit_depth, cpu),
                v,
            ) ==> width * height <= v@.len(),
    ensures
        exists|v: Vec<T>|
            #[trigger] call_ensures(
                interpolate,
                (src, width, height, col_frac, row_frac, mode_x, mode_y, bit_depth, cpu),
                v,
            ) && final(dst).wrote(
                *old(dst),
                width as int,
                height as int,
                block_of(v@, width as int),
            ),
        final(final(dst).data)@ == final(old(dst).data)@,
{
    let v: Vec<T> = interpolate(
        src,
        width,
        height,
        col_frac,
        row_frac,
        mode_x,
        mode_y,
        bit_depth,
        cpu,
    );
    store_block(dst, &v, width, height);
}

/// Interpolation by eight taps into a prediction. `interpolate` is handed the samples, the size of
/// the block, the fractions of a sample, the modes along both axes, the bit depth and the level,
/// and returns the prediction.
pub fn prep_8tap<
    T: Sample,
    F: FnOnce(
        &PlaneRegion<'_, T>,
        usize,
        usize,
        i32,
        i32,
        FilterMode,
        FilterMode,
        usize,
        CpuFeatureLevel,
    ) -> Vec<i16>,
>(
    tmp: &mut [i16],
    src: &PlaneRegion<'_, T>,
    width: usize,
    height: usize,
    col_frac: i32,
    row_frac: i32,
    mode_x: FilterMode,
    mode_y: FilterMode,
    bit_depth: usize,
    cpu: CpuFeatureLevel,
    interpolate: F,
)
    requires
        call_requires(
            interpolate,
            (src, width, height, col_frac, row_frac, mode_x, mode_y, bit_depth, cpu),
        ),
        forall|v: Vec<i16>|
            #[trigger] call_ensures(
                interpolate,
                (src, width, height, col_frac, row_frac, mode_x, mode_y, bit_depth, cpu),
                v,
            ) ==> v@.len() <= old(tmp)@.len(),
    ensures
        exists|v: Vec<i16>|
            #[trigger] call_ensures(
                interpolate,
                (src, width, height, col_frac, row_frac, mode_x, mode_y, bit_depth, cpu),
                v,
            ) && starts_with(old(tmp)@, final(tmp)@, v@),
{
    let v: Vec<i16> = interpolate(
        src,
        width,
        height,
        col_frac,
        row_frac,
        mode_x,
        mode_y,
        bit_depth,
        cpu,
    );
    store_front(tmp, &v);
}

/// The sum of eight taps.
pub open spec fn tap_total(f: Seq<i32>) -> int {
    f[0] + f[1] + f[2] + f[3] + f[4] + f[5] + f[6] + f[7]
}

/// Whether a filter has the taps of another in reverse.
pub open spec fn mirrored(f: Seq<i32>, g: Seq<i32>) -> bool {
    forall|t: int| 0 <= t < 8 ==> #[trigger] f[t] == g[7 - t]
}

/// Whether only the four inner taps of a filter count.
pub open spec fn inner_taps(f: Seq<i32>) -> bool {
    f[0] == 0 && f[1] == 0 && f[6] == 0 && f[7] == 0
}

/// What holds of the filters of the given table.
proof fn lemma_table_0(j: int)
    requires
        0 <= j < 16,
    ensures
        tap_total(SUBPEL_FILTERS[0][j]@) == 128,
        j == 0 ==> SUBPEL_FILTERS[0][j]@ =~= seq![0i32, 0i32, 0i32, 128i32, 0i32, 0i32, 0i32, 0i32],
        j > 0 ==> mirrored(SUBPEL_FILTERS[0][j]@, SUBPEL_FILTERS[0][16 - j]@),
{
    if j == 0 {
        assert(SUBPEL_FILTERS[0][0]@ =~= seq![0i32, 0i32, 0i32, 128i32, 0i32, 0i32, 0i32, 0i32]);
    } else if j == 1 || j == 15 {
        assert(SUBPEL_FILTERS[0][1]@ =~= seq![0i32, 2i32, -6i32, 126i32, 8i32, -2i32, 0i32, 0i32]);
        assert(SUBPEL_FILTERS[0][15]@ =~= seq![0i32, 0i32, -2i32, 8i32, 126i32, -6i32, 2i32, 0i32]);
    } else if j == 2 || j == 14 {
        assert(SUBPEL_FILTERS[0][2]@
            =~= seq![0i32, 2i32, -10i32, 122i32, 18i32, -4i32, 0i32, 0i32]);
        assert(SUBPEL_FILTERS[0][14]@
            =~= seq![0i32, 0i32, -4i32, 18i32, 122i32, -10i32, 2i32, 0i32]);
    } else if j == 3 || j == 13 {
        assert(SUBPEL_FILTERS[0][3]@
            =~= seq![0i32, 2i32, -12i32, 116i32, 28i32, -8i32, 2i32, 0i32]);
        assert(SUBPEL_FILTERS[0][13]@
            =~= seq![0i32, 2i32, -8i32, 28i32, 116i32, -12i32, 2i32, 0i32]);
    } else if j == 4 || j == 12 {
        assert(SUBPEL_FILTERS[0][4]@
            =~= seq![0i32, 2i32, -14i32, 110i32, 38i32, -10i32, 2i32, 0i32]);
        assert(SUBPEL_FILTERS[0][12]@
            =~= seq![0i32, 2i32, -10i32, 38i32, 110i32, -14i32, 2i32, 0i32]);
    } else if j == 5 || j == 11 {
        assert(SUBPEL_FILTERS[0][5]@
            =~= seq![0i32, 2i32, -14i32, 102i32, 48i32, -12i32, 2i32, 0i32]);
        assert(SUBPEL_FILTERS[0][11]@
            =~= seq![0i32, 2i32, -12i32, 48i32, 102i32, -14i32, 2i32, 0i32]);
    } else if j == 6 || j == 10 {
        assert(SUBPEL_FILTERS[0][6]@
            =~= seq![0i32, 2i32, -16i32, 94i32, 58i32, -12i32, 2i32, 0i32]);
        assert(SUBPEL_FILTERS[0][10]@
            =~= seq![0i32, 2i32, -12i32, 58i32, 94i32, -16i32, 2i32, 0i32]);
    } else if j == 7 || j == 9 {
        assert(SUBPEL_FILTERS[0][7]@
            =~= seq![0i32, 2i32, -14i32, 84i32, 66i32, -12i32, 2i32, 0i32]);
        assert(SUBPEL_FILTERS[0][9]@
            =~= seq![0i32, 2i32, -12i32, 66i32, 84i32, -14i32, 2i32, 0i32]);
    } else {
        assert(SUBPEL_FILTERS[0][8]@
            =~= seq![0i32, 2i32, -14i32, 76i32, 76i32, -14i32, 2i32, 0i32]);
    }
}

/// What holds of the filters of the given table.
proof fn lemma_table_1(j: int)
    requires
        0 <= j < 16,
    ensures
        tap_total(SUBPEL_FILTERS[1][j]@) == 128,
        j == 0 ==> SUBPEL_FILTERS[1][j]@ =~= seq![0i32, 0i32, 0i32, 128i32, 0i32, 0i32, 0i32, 0i32],
        j > 0 ==> mirrored(SUBPEL_FILTERS[1][j]@, SUBPEL_FILTERS[1][16 - j]@),
{
    if j == 0 {
        assert(SUBPEL_FILTERS[1][0]@ =~= seq![0i32, 0i32, 0i32, 128i32, 0i32, 0i32, 0i32, 0i32]);
    } else if j == 1 || j == 15 {
        assert(SUBPEL_FILTERS[1][1]@ =~= seq![0i32, 2i32, 28i32, 62i32, 34i32, 2i32, 0i32, 0i32]);
        assert(SUBPEL_FILTERS[1][15]@ =~= seq![0i32, 0i32, 2i32, 34i32, 62i32, 28i32, 2i32, 0i32]);
    } else if j == 2 || j == 14 {
        assert(SUBPEL_FILTERS[1][2]@ =~= seq![0i32, 0i32, 26i32, 62i32, 36i32, 4i32, 0i32, 0i32]);
        assert(SUBPEL_FILTERS[1][14]@ =~= seq![0i32, 0i32, 4i32, 36i32, 62i32, 26i32, 0i32, 0i32]);
    } else if j == 3 || j == 13 {
        assert(SUBPEL_FILTERS[1][3]@ =~= seq![0i32, 0i32, 22i32, 62i32, 40i32, 4i32, 0i32, 0i32]);
        assert(SUBPEL_FILTERS[1][13]@ =~= seq![0i32, 0i32, 4i32, 40i32, 62i32, 22i32, 0i32, 0i32]);
    } else if j == 4 || j == 12 {
        assert(SUBPEL_FILTERS[1][4]@ =~= seq![0i32, 0i32, 20i32, 60i32, 42i32, 6i32, 0i32, 0i32]);
        assert(SUBPEL_FILTERS[1][12]@ =~= seq![0i32, 0i32, 6i32, 42i32, 60i32, 20i32, 0i32, 0i32]);
    } else if j == 5 || j == 11 {
        assert(SUBPEL_FILTERS[1][5]@ =~= seq![0i32, 0i32, 18i32, 58i32, 44i32, 8i32, 0i32, 0i32]);
        assert(SUBPEL_FILTERS[1][11]@ =~= seq![0i32, 0i32, 8i32, 44i32, 58i32, 18i32, 0i32, 0i32]);
    } else if j == 6 || j == 10 {
        assert(SUBPEL_FILTERS[1][6]@ =~= seq![0i32, 0i32, 16i32, 56i32, 46i32, 10i32, 0i32, 0i32]);
        assert(SUBPEL_FILTERS[1][10]@ =~= seq![0i32, 0i32, 10i32, 46i32, 56i32, 16i32, 0i32, 0i32]);
    } else if j == 7 || j == 9 {
        assert(SUBPEL_FILTERS[1][7]@ =~= seq![0i32, -2i32, 16i32, 54i32, 48i32, 12i32, 0i32, 0i32]);
        assert(SUBPEL_FILTERS[1][9]@ =~= seq![0i32, 0i32, 12i32, 48i32, 54i32, 16i32, -2i32, 0i32]);
    } else {
        assert(SUBPEL_FILTERS[1][8]@
            =~= seq![0i32, -2i32, 14i32, 52i32, 52i32, 14i32, -2i32, 0i32]);
    }
}

/// What holds of the filters of the given table.
proof fn lemma_table_2(j: int)
    requires
        0 <= j < 16,
    ensures
        tap_total(SUBPEL_FILTERS[2][j]@) == 128,
        j == 0 ==> SUBPEL_FILTERS[2][j]@ =~= seq![0i32, 0i32, 0i32, 128i32, 0i32, 0i32, 0i32, 0i32],
        j > 0 ==> mirrored(SUBPEL_FILTERS[2][j]@, SUBPEL_FILTERS[2][16 - j]@),
{
    if j == 0 {
        assert(SUBPEL_FILTERS[2][0]@ =~= seq![0i32, 0i32, 0i32, 128i32, 0i32, 0i32, 0i32, 0i32]);
    } else if j == 1 || j == 15 {
        assert(SUBPEL_FILTERS[2][1]@ =~= seq![-2i32, 2i32, -6i32, 126i32, 8i32, -2i32, 2i32, 0i32]);
        assert(SUBPEL_FILTERS[2][15]@
            =~= seq![0i32, 2i32, -2i32, 8i32, 126i32, -6i32, 2i32, -2i32]);
    } else if j == 2 || j == 14 {
        assert(SUBPEL_FILTERS[2][2]@
            =~= seq![-2i32, 6i32, -12i32, 124i32, 16i32, -6i32, 4i32, -2i32]);
        assert(SUBPEL_FILTERS[2][14]@
            =~= seq![-2i32, 4i32, -6i32, 16i32, 124i32, -12i32, 6i32, -2i32]);
    } else if j == 3 || j == 13 {
        assert(SUBPEL_FILTERS[2][3]@
            =~= seq![-2i32, 8i32, -18i32, 120i32, 26i32, -10i32, 6i32, -2i32]);
        assert(SUBPEL_FILTERS[2][13]@
            =~= seq![-2i32, 6i32, -10i32, 26i32, 120i32, -18i32, 8i32, -2i32]);
    } else if j == 4 || j == 12 {
        assert(SUBPEL_FILTERS[2][4]@
            =~= seq![-4i32, 10i32, -22i32, 116i32, 38i32, -14i32, 6i32, -2i32]);
        assert(SUBPEL_FILTERS[2][12]@
            =~= seq![-2i32, 6i32, -14i32, 38i32, 116i32, -22i32, 10i32, -4i32]);
    } else if j == 5 || j == 11 {
        assert(SUBPEL_FILTERS[2][5]@
            =~= seq![-4i32, 10i32, -22i32, 108i32, 48i32, -18i32, 8i32, -2i32]);
        assert(SUBPEL_FILTERS[2][11]@
            =~= seq![-2i32, 8i32, -18i32, 48i32, 108i32, -22i32, 10i32, -4i32]);
    } else if j == 6 || j == 10 {
        assert(SUBPEL_FILTERS[2][6]@
            =~= seq![-4i32, 10i32, -24i32, 100i32, 60i32, -20i32, 8i32, -2i32]);
        assert(SUBPEL_FILTERS[2][10]@
            =~= seq![-2i32, 8i32, -20i32, 60i32, 100i32, -24i32, 10i32, -4i32]);
    } else if j == 7 || j == 9 {
        assert(SUBPEL_FILTERS[2][7]@
            =~= seq![-4i32, 10i32, -24i32, 90i32, 70i32, -22i32, 10i32, -2i32]);
        assert(SUBPEL_FILTERS[2][9]@
            =~= seq![-2i32, 10i32, -22i32, 70i32, 90i32, -24i32, 10i32, -4i32]);
    } else {
        assert(SUBPEL_FILTERS[2][8]@
            =~= seq![-4i32, 12i32, -24i32, 80i32, 80i32, -24i32, 12i32, -4i32]);
    }
}

/// What holds of the filters of the given table.
proof fn lemma_table_3(j: int)
    requires
        0 <= j < 16,
    ensures
        tap_total(SUBPEL_FILTERS[3][j]@) == 128,
        j == 0 ==> SUBPEL_FILTERS[3][j]@ =~= seq![0i32, 0i32, 0i32, 128i32, 0i32, 0i32, 0i32, 0i32],
        j > 0 ==> mirrored(SUBPEL_FILTERS[3][j]@, SUBPEL_FILTERS[3][16 - j]@),
        inner_taps(SUBPEL_FILTERS[3][j]@),
        SUBPEL_FILTERS[3][j]@[2] == 0 && SUBPEL_FILTERS[3][j]@[5] == 0,
        SUBPEL_FILTERS[3][j]@[4] == 8 * j,
{
    if j == 0 {
        assert(SUBPEL_FILTERS[3][0]@ =~= seq![0i32, 0i32, 0i32, 128i32, 0i32, 0i32, 0i32, 0i32]);
    } else if j == 1 || j == 15 {
        assert(SUBPEL_FILTERS[3][1]@ =~= seq![0i32, 0i32, 0i32, 120i32, 8i32, 0i32, 0i32, 0i32]);
        assert(SUBPEL_FILTERS[3][15]@ =~= seq![0i32, 0i32, 0i32, 8i32, 120i32, 0i32, 0i32, 0i32]);
    } else if j == 2 || j == 14 {
        assert(SUBPEL_FILTERS[3][2]@ =~= seq![0i32, 0i32, 0i32, 112i32, 16i32, 0i32, 0i32, 0i32]);
        assert(SUBPEL_FILTERS[3][14]@ =~= seq![0i32, 0i32, 0i32, 16i32, 112i32, 0i32, 0i32, 0i32]);
    } else if j == 3 || j == 13 {
        assert(SUBPEL_FILTERS[3][3]@ =~= seq![0i32, 0i32, 0i32, 104i32, 24i32, 0i32, 0i32, 0i32]);
        assert(SUBPEL_FILTERS[3][13]@ =~= seq![0i32, 0i32, 0i32, 24i32, 104i32, 0i32, 0i32, 0i32]);
    } else if j == 4 || j == 12 {
        assert(SUBPEL_FILTERS[3][4]@ =~= seq![0i32, 0i32, 0i32, 96i32, 32i32, 0i32, 0i32, 0i32]);
        assert(SUBPEL_FILTERS[3][12]@ =~= seq![0i32, 0i32, 0i32, 32i32, 96i32, 0i32, 0i32, 0i32]);
    } else if j == 5 || j == 11 {
        assert(SUBPEL_FILTERS[3][5]@ =~= seq![0i32, 0i32, 0i32, 88i32, 40i32, 0i32, 0i32, 0i32]);
        assert(SUBPEL_FILTERS[3][11]@ =~= seq![0i32, 0i32, 0i32, 40i32, 88i32, 0i32, 0i32, 0i32]);
    } else if j == 6 || j == 10 {
        assert(SUBPEL_FILTERS[3][6]@ =~= seq![0i32, 0i32, 0i32, 80i32, 48i32, 0i32, 0i32, 0i32]);
        assert(SUBPEL_FILTERS[3][10]@ =~= seq![0i32, 0i32, 0i32, 48i32, 80i32, 0i32, 0i32, 0i32]);
    } else if j == 7 || j == 9 {
        assert(SUBPEL_FILTERS[3][7]@ =~= seq![0i32, 0i32, 0i32, 72i32, 56i32, 0i32, 0i32, 0i32]);
        assert(SUBPEL_FILTERS[3][9]@ =~= seq![0i32, 0i32, 0i32, 56i32, 72i32, 0i32, 0i32, 0i32]);
    } else {
        assert(SUBPEL_FILTERS[3][8]@ =~= seq![0i32, 0i32, 0i32, 64i32, 64i32, 0i32, 0i32, 0i32]);
    }
}

/// What holds of the filters of the given table.
proof fn lemma_table_4(j: int)
    requires
        0 <= j < 16,
    ensures
        tap_total(SUBPEL_FILTERS[4][j]@) == 128,
        j == 0 ==> SUBPEL_FILTERS[4][j]@ =~= seq![0i32, 0i32, 0i32, 128i32, 0i32, 0i32, 0i32, 0i32],
        j > 0 ==> mirrored(SUBPEL_FILTERS[4][j]@, SUBPEL_FILTERS[4][16 - j]@),
        inner_taps(SUBPEL_FILTERS[4][j]@),
{
    if j == 0 {
        assert(SUBPEL_FILTERS[4][0]@ =~= seq![0i32, 0i32, 0i32, 128i32, 0i32, 0i32, 0i32, 0i32]);
    } else if j == 1 || j == 15 {
        assert(SUBPEL_FILTERS[4][1]@ =~= seq![0i32, 0i32, -4i32, 126i32, 8i32, -2i32, 0i32, 0i32]);
        assert(SUBPEL_FILTERS[4][15]@ =~= seq![0i32, 0i32, -2i32, 8i32, 126i32, -4i32, 0i32, 0i32]);
    } else if j == 2 || j == 14 {
        assert(SUBPEL_FILTERS[4][2]@ =~= seq![0i32, 0i32, -8i32, 122i32, 18i32, -4i32, 0i32, 0i32]);
        assert(SUBPEL_FILTERS[4][14]@
            =~= seq![0i32, 0i32, -4i32, 18i32, 122i32, -8i32, 0i32, 0i32]);
    } else if j == 3 || j == 13 {
        assert(SUBPEL_FILTERS[4][3]@
            =~= seq![0i32, 0i32, -10i32, 116i32, 28i32, -6i32, 0i32, 0i32]);
        assert(SUBPEL_FILTERS[4][13]@
            =~= seq![0i32, 0i32, -6i32, 28i32, 116i32, -10i32, 0i32, 0i32]);
    } else if j == 4 || j == 12 {
        assert(SUBPEL_FILTERS[4][4]@
            =~= seq![0i32, 0i32, -12i32, 110i32, 38i32, -8i32, 0i32, 0i32]);
        assert(SUBPEL_FILTERS[4][12]@
            =~= seq![0i32, 0i32, -8i32, 38i32, 110i32, -12i32, 0i32, 0i32]);
    } else if j == 5 || j == 11 {
        assert(SUBPEL_FILTERS[4][5]@
            =~= seq![0i32, 0i32, -12i32, 102i32, 48i32, -10i32, 0i32, 0i32]);
        assert(SUBPEL_FILTERS[4][11]@
            =~= seq![0i32, 0i32, -10i32, 48i32, 102i32, -12i32, 0i32, 0i32]);
    } else if j == 6 || j == 10 {
        assert(SUBPEL_FILTERS[4][6]@
            =~= seq![0i32, 0i32, -14i32, 94i32, 58i32, -10i32, 0i32, 0i32]);
        assert(SUBPEL_FILTERS[4][10]@
            =~= seq![0i32, 0i32, -10i32, 58i32, 94i32, -14i32, 0i32, 0i32]);
    } else if j == 7 || j == 9 {
        assert(SUBPEL_FILTERS[4][7]@
            =~= seq![0i32, 0i32, -12i32, 84i32, 66i32, -10i32, 0i32, 0i32]);
        assert(SUBPEL_FILTERS[4][9]@
            =~= seq![0i32, 0i32, -10i32, 66i32, 84i32, -12i32, 0i32, 0i32]);
    } else {
        assert(SUBPEL_FILTERS[4][8]@
            =~= seq![0i32, 0i32, -12i32, 76i32, 76i32, -12i32, 0i32, 0i32]);
    }
}

/// What holds of the filters of the given table.
proof fn lemma_table_5(j: int)
    requires
        0 <= j < 16,
    ensures
        tap_total(SUBPEL_FILTERS[5][j]@) == 128,
        j == 0 ==> SUBPEL_FILTERS[5][j]@ =~= seq![0i32, 0i32, 0i32, 128i32, 0i32, 0i32, 0i32, 0i32],
        j > 0 ==> mirrored(SUBPEL_FILTERS[5][j]@, SUBPEL_FILTERS[5][16 - j]@),
        inner_taps(SUBPEL_FILTERS[5][j]@),
{
    if j == 0 {
        assert(SUBPEL_FILTERS[5][0]@ =~= seq![0i32, 0i32, 0i32, 128i32, 0i32, 0i32, 0i32, 0i32]);
    } else if j == 1 || j == 15 {
        assert(SUBPEL_FILTERS[5][1]@ =~= seq![0i32, 0i32, 30i32, 62i32, 34i32, 2i32, 0i32, 0i32]);
        assert(SUBPEL_FILTERS[5][15]@ =~= seq![0i32, 0i32, 2i32, 34i32, 62i32, 30i32, 0i32, 0i32]);
    } else if j == 2 || j == 14 {
        assert(SUBPEL_FILTERS[5][2]@ =~= seq![0i32, 0i32, 26i32, 62i32, 36i32, 4i32, 0i32, 0i32]);
        assert(SUBPEL_FILTERS[5][14]@ =~= seq![0i32, 0i32, 4i32, 36i32, 62i32, 26i32, 0i32, 0i32]);
    } else if j == 3 || j == 13 {
        assert(SUBPEL_FILTERS[5][3]@ =~= seq![0i32, 0i32, 22i32, 62i32, 40i32, 4i32, 0i32, 0i32]);
        assert(SUBPEL_FILTERS[5][13]@ =~= seq![0i32, 0i32, 4i32, 40i32, 62i32, 22i32, 0i32, 0i32]);
    } else if j == 4 || j == 12 {
        assert(SUBPEL_FILTERS[5][4]@ =~= seq![0i32, 0i32, 20i32, 60i32, 42i32, 6i32, 0i32, 0i32]);
        assert(SUBPEL_FILTERS[5][12]@ =~= seq![0i32, 0i32, 6i32, 42i32, 60i32, 20i32, 0i32, 0i32]);
    } else if j == 5 || j == 11 {
        assert(SUBPEL_FILTERS[5][5]@ =~= seq![0i32, 0i32, 18i32, 58i32, 44i32, 8i32, 0i32, 0i32]);
        assert(SUBPEL_FILTERS[5][11]@ =~= seq![0i32, 0i32, 8i32, 44i32, 58i32, 18i32, 0i32, 0i32]);
    } else if j == 6 || j == 10 {
        assert(SUBPEL_FILTERS[5][6]@ =~= seq![0i32, 0i32, 16i32, 56i32, 46i32, 10i32, 0i32, 0i32]);
        assert(SUBPEL_FILTERS[5][10]@ =~= seq![0i32, 0i32, 10i32, 46i32, 56i32, 16i32, 0i32, 0i32]);
    } else if j == 7 || j == 9 {
        assert(SUBPEL_FILTERS[5][7]@ =~= seq![0i32, 0i32, 14i32, 54i32, 48i32, 12i32, 0i32, 0i32]);
        assert(SUBPEL_FILTERS[5][9]@ =~= seq![0i32, 0i32, 12i32, 48i32, 54i32, 14i32, 0i32, 0i32]);
    } else {
        assert(SUBPEL_FILTERS[5][8]@ =~= seq![0i32, 0i32, 12i32, 52i32, 52i32, 12i32, 0i32, 0i32]);
    }
}

/// The taps of every filter add up to 128.
pub proof fn lemma_taps_add_up(mode: FilterMode, frac: int, length: int)
    requires
        0 <= frac < 16,
    ensures
        tap_total(SUBPEL_FILTERS[filter_table(mode, length)][frac]@) == 128,
{
    lemma_table_0(frac);
    lemma_table_1(frac);
    lemma_table_2(frac);
    lemma_table_3(frac);
    lemma_table_4(frac);
    lemma_table_5(frac);
}

/// The filter of a position between samples has, in reverse, the taps of the filter of the opposite
/// position; the filter of the position of a sample is that sample.
pub proof fn lemma_filters_mirror(mode: FilterMode, frac: int, length: int)
    requires
        0 <= frac < 16,
    ensures
        frac == 0 ==> SUBPEL_FILTERS[filter_table(mode, length)][frac]@ =~= seq![
            0i32,
            0i32,
            0i32,
            128i32,
            0i32,
            0i32,
            0i32,
            0i32,
        ],
        frac > 0 ==> mirrored(
            SUBPEL_FILTERS[filter_table(mode, length)][frac]@,
            SUBPEL_FILTERS[filter_table(mode, length)][16 - frac]@,
        ),
{
    lemma_table_0(frac);
    lemma_table_1(frac);
    lemma_table_2(frac);
    lemma_table_3(frac);
    lemma_table_4(frac);
    lemma_table_5(frac);
}

/// Small blocks are interpolated from four samples at most, and bilinear interpolation is from two:
/// every sixteenth of the way moves a sixteenth of the weight.
pub proof fn lemma_short_filters(mode: FilterMode, frac: int, length: int, f: Seq<i32>)
    requires
        0 <= frac < 16,
        f == SUBPEL_FILTERS[filter_table(mode, length)][frac]@,
    ensures
        length <= 4 ==> f[0] == 0 && f[1] == 0 && f[6] == 0 && f[7] == 0,
        mode == FilterMode::BILINEAR ==> {
            &&& f[0] == 0 && f[1] == 0 && f[2] == 0 && f[5] == 0 && f[6] == 0 && f[7] == 0
            &&& f[3] == 128 - 8 * frac
            &&& f[4] == 8 * frac
        },
{
    lemma_table_3(frac);
    lemma_table_4(frac);
    lemma_table_5(frac);
}

/// Whether a filter of four taps is one of eight, with the outer taps added to the inner ones.
pub open spec fn folded(long: Seq<i32>, short: Seq<i32>) -> bool {
    &&& short[2] == long[0] + long[1] + long[2]
    &&& short[3] == long[3]
    &&& short[4] == long[4]
    &&& short[5] == long[5] + long[6] + long[7]
}

/// The short filters of a table are its long ones, with the outer taps added to the inner ones.
proof fn lemma_folded_0(j: int)
    requires
        0 <= j < 16,
    ensures
        folded(SUBPEL_FILTERS[0][j]@, SUBPEL_FILTERS[4][j]@),
{
    if j == 0 {
        assert(SUBPEL_FILTERS[0][0]@ =~= seq![0i32, 0i32, 0i32, 128i32, 0i32, 0i32, 0i32, 0i32]);
        assert(SUBPEL_FILTERS[4][0]@ =~= seq![0i32, 0i32, 0i32, 128i32, 0i32, 0i32, 0i32, 0i32]);
    } else if j == 1 {
        assert(SUBPEL_FILTERS[0][1]@ =~= seq![0i32, 2i32, -6i32, 126i32, 8i32, -2i32, 0i32, 0i32]);
        assert(SUBPEL_FILTERS[4][1]@ =~= seq![0i32, 0i32, -4i32, 126i32, 8i32, -2i32, 0i32, 0i32]);
    } else if j == 2 {
        assert(SUBPEL_FILTERS[0][2]@
            =~= seq![0i32, 2i32, -10i32, 122i32, 18i32, -4i32, 0i32, 0i32]);
        assert(SUBPEL_FILTERS[4][2]@ =~= seq![0i32, 0i32, -8i32, 122i32, 18i32, -4i32, 0i32, 0i32]);
    } else if j == 3 {
        assert(SUBPEL_FILTERS[0][3]@
            =~= seq![0i32, 2i32, -12i32, 116i32, 28i32, -8i32, 2i32, 0i32]);
        assert(SUBPEL_FILTERS[4][3]@
            =~= seq![0i32, 0i32, -10i32, 116i32, 28i32, -6i32, 0i32, 0i32]);
    } else if j == 4 {
        assert(SUBPEL_FILTERS[0][4]@
            =~= seq![0i32, 2i32, -14i32, 110i32, 38i32, -10i32, 2i32, 0i32]);
        assert(SUBPEL_FILTERS[4][4]@
            =~= seq![0i32, 0i32, -12i32, 110i32, 38i32, -8i32, 0i32, 0i32]);
    } else if j == 5 {
        assert(SUBPEL_FILTERS[0][5]@
            =~= seq![0i32, 2i32, -14i32, 102i32, 48i32, -12i32, 2i32, 0i32]);
        assert(SUBPEL_FILTERS[4][5]@
            =~= seq![0i32, 0i32, -12i32, 102i32, 48i32, -10i32, 0i32, 0i32]);
    } else if j == 6 {
        assert(SUBPEL_FILTERS[0][6]@
            =~= seq![0i32, 2i32, -16i32, 94i32, 58i32, -12i32, 2i32, 0i32]);
        assert(SUBPEL_FILTERS[4][6]@
            =~= seq![0i32, 0i32, -14i32, 94i32, 58i32, -10i32, 0i32, 0i32]);
    } else if j == 7 {
        assert(SUBPEL_FILTERS[0][7]@
            =~= seq![0i32, 2i32, -14i32, 84i32, 66i32, -12i32, 2i32, 0i32]);
        assert(SUBPEL_FILTERS[4][7]@
            =~= seq![0i32, 0i32, -12i32, 84i32, 66i32, -10i32, 0i32, 0i32]);
    } else if j == 8 {
        assert(SUBPEL_FILTERS[0][8]@
            =~= seq![0i32, 2i32, -14i32, 76i32, 76i32, -14i32, 2i32, 0i32]);
        assert(SUBPEL_FILTERS[4][8]@
            =~= seq![0i32, 0i32, -12i32, 76i32, 76i32, -12i32, 0i32, 0i32]);
    } else if j == 9 {
        assert(SUBPEL_FILTERS[0][9]@
            =~= seq![0i32, 2i32, -12i32, 66i32, 84i32, -14i32, 2i32, 0i32]);
        assert(SUBPEL_FILTERS[4][9]@
            =~= seq![0i32, 0i32, -10i32, 66i32, 84i32, -12i32, 0i32, 0i32]);
    } else if j == 10 {
        assert(SUBPEL_FILTERS[0][10]@
            =~= seq![0i32, 2i32, -12i32, 58i32, 94i32, -16i32, 2i32, 0i32]);
        assert(SUBPEL_FILTERS[4][10]@
            =~= seq![0i32, 0i32, -10i32, 58i32, 94i32, -14i32, 0i32, 0i32]);
    } else if j == 11 {
        assert(SUBPEL_FILTERS[0][11]@
            =~= seq![0i32, 2i32, -12i32, 48i32, 102i32, -14i32, 2i32, 0i32]);
        assert(SUBPEL_FILTERS[4][11]@
            =~= seq![0i32, 0i32, -10i32, 48i32, 102i32, -12i32, 0i32, 0i32]);
    } else if j == 12 {
        assert(SUBPEL_FILTERS[0][12]@
            =~= seq![0i32, 2i32, -10i32, 38i32, 110i32, -14i32, 2i32, 0i32]);
        assert(SUBPEL_FILTERS[4][12]@
            =~= seq![0i32, 0i32, -8i32, 38i32, 110i32, -12i32, 0i32, 0i32]);
    } else if j == 13 {
        assert(SUBPEL_FILTERS[0][13]@
            =~= seq![0i32, 2i32, -8i32, 28i32, 116i32, -12i32, 2i32, 0i32]);
        assert(SUBPEL_FILTERS[4][13]@
            =~= seq![0i32, 0i32, -6i32, 28i32, 116i32, -10i32, 0i32, 0i32]);
    } else if j == 14 {
        assert(SUBPEL_FILTERS[0][14]@
            =~= seq![0i32, 0i32, -4i32, 18i32, 122i32, -10i32, 2i32, 0i32]);
        assert(SUBPEL_FILTERS[4][14]@
            =~= seq![0i32, 0i32, -4i32, 18i32, 122i32, -8i32, 0i32, 0i32]);
    } else {
        assert(SUBPEL_FILTERS[0][15]@ =~= seq![0i32, 0i32, -2i32, 8i32, 126i32, -6i32, 2i32, 0i32]);
        assert(SUBPEL_FILTERS[4][15]@ =~= seq![0i32, 0i32, -2i32, 8i32, 126i32, -4i32, 0i32, 0i32]);
    }
}

/// The short filters of a table are its long ones, with the outer taps added to the inner ones.
proof fn lemma_folded_1(j: int)
    requires
        0 <= j < 16,
    ensures
        folded(SUBPEL_FILTERS[1][j]@, SUBPEL_FILTERS[5][j]@),
{
    if j == 0 {
        assert(SUBPEL_FILTERS[1][0]@ =~= seq![0i32, 0i32, 0i32, 128i32, 0i32, 0i32, 0i32, 0i32]);
        assert(SUBPEL_FILTERS[5][0]@ =~= seq![0i32, 0i32, 0i32, 128i32, 0i32, 0i32, 0i32, 0i32]);
    } else if j == 1 {
        assert(SUBPEL_FILTERS[1][1]@ =~= seq![0i32, 2i32, 28i32, 62i32, 34i32, 2i32, 0i32, 0i32]);
        assert(SUBPEL_FILTERS[5][1]@ =~= seq![0i32, 0i32, 30i32, 62i32, 34i32, 2i32, 0i32, 0i32]);
    } else if j == 2 {
        assert(SUBPEL_FILTERS[1][2]@ =~= seq![0i32, 0i32, 26i32, 62i32, 36i32, 4i32, 0i32, 0i32]);
        assert(SUBPEL_FILTERS[5][2]@ =~= seq![0i32, 0i32, 26i32, 62i32, 36i32, 4i32, 0i32, 0i32]);
    } else if j == 3 {
        assert(SUBPEL_FILTERS[1][3]@ =~= seq![0i32, 0i32, 22i32, 62i32, 40i32, 4i32, 0i32, 0i32]);
        assert(SUBPEL_FILTERS[5][3]@ =~= seq![0i32, 0i32, 22i32, 62i32, 40i32, 4i32, 0i32, 0i32]);
    } else if j == 4 {
        assert(SUBPEL_FILTERS[1][4]@ =~= seq![0i32, 0i32, 20i32, 60i32, 42i32, 6i32, 0i32, 0i32]);
        assert(SUBPEL_FILTERS[5][4]@ =~= seq![0i32, 0i32, 20i32, 60i32, 42i32, 6i32, 0i32, 0i32]);
    } else if j == 5 {
        assert(SUBPEL_FILTERS[1][5]@ =~= seq![0i32, 0i32, 18i32, 58i32, 44i32, 8i32, 0i32, 0i32]);
        assert(SUBPEL_FILTERS[5][5]@ =~= seq![0i32, 0i32, 18i32, 58i32, 44i32, 8i32, 0i32, 0i32]);
    } else if j == 6 {
        assert(SUBPEL_FILTERS[1][6]@ =~= seq![0i32, 0i32, 16i32, 56i32, 46i32, 10i32, 0i32, 0i32]);
        assert(SUBPEL_FILTERS[5][6]@ =~= seq![0i32, 0i32, 16i32, 56i32, 46i32, 10i32, 0i32, 0i32]);
    } else if j == 7 {
        assert(SUBPEL_FILTERS[1][7]@ =~= seq![0i32, -2i32, 16i32, 54i32, 48i32, 12i32, 0i32, 0i32]);
        assert(SUBPEL_FILTERS[5][7]@ =~= seq![0i32, 0i32, 14i32, 54i32, 48i32, 12i32, 0i32, 0i32]);
    } else if j == 8 {
        assert(SUBPEL_FILTERS[1][8]@
            =~= seq![0i32, -2i32, 14i32, 52i32, 52i32, 14i32, -2i32, 0i32]);
        assert(SUBPEL_FILTERS[5][8]@ =~= seq![0i32, 0i32, 12i32, 52i32, 52i32, 12i32, 0i32, 0i32]);
    } else if j == 9 {
        assert(SUBPEL_FILTERS[1][9]@ =~= seq![0i32, 0i32, 12i32, 48i32, 54i32, 16i32, -2i32, 0i32]);
        assert(SUBPEL_FILTERS[5][9]@ =~= seq![0i32, 0i32, 12i32, 48i32, 54i32, 14i32, 0i32, 0i32]);
    } else if j == 10 {
        assert(SUBPEL_FILTERS[1][10]@ =~= seq![0i32, 0i32, 10i32, 46i32, 56i32, 16i32, 0i32, 0i32]);
        assert(SUBPEL_FILTERS[5][10]@ =~= seq![0i32, 0i32, 10i32, 46i32, 56i32, 16i32, 0i32, 0i32]);
    } else if j == 11 {
        assert(SUBPEL_FILTERS[1][11]@ =~= seq![0i32, 0i32, 8i32, 44i32, 58i32, 18i32, 0i32, 0i32]);
        assert(SUBPEL_FILTERS[5][11]@ =~= seq![0i32, 0i32, 8i32, 44i32, 58i32, 18i32, 0i32, 0i32]);
    } else if j == 12 {
        assert(SUBPEL_FILTERS[1][12]@ =~= seq![0i32, 0i32, 6i32, 42i32, 60i32, 20i32, 0i32, 0i32]);
        assert(SUBPEL_FILTERS[5][12]@ =~= seq![0i32, 0i32, 6i32, 42i32, 60i32, 20i32, 0i32, 0i32]);
    } else if j == 13 {
        assert(SUBPEL_FILTERS[1][13]@ =~= seq![0i32, 0i32, 4i32, 40i32, 62i32, 22i32, 0i32, 0i32]);
        assert(SUBPEL_FILTERS[5][13]@ =~= seq![0i32, 0i32, 4i32, 40i32, 62i32, 22i32, 0i32, 0i32]);
    } else if j == 14 {
        assert(SUBPEL_FILTERS[1][14]@ =~= seq![0i32, 0i32, 4i32, 36i32, 62i32, 26i32, 0i32, 0i32]);
        assert(SUBPEL_FILTERS[5][14]@ =~= seq![0i32, 0i32, 4i32, 36i32, 62i32, 26i32, 0i32, 0i32]);
    } else {
        assert(SUBPEL_FILTERS[1][15]@ =~= seq![0i32, 0i32, 2i32, 34i32, 62i32, 28i32, 2i32, 0i32]);
        assert(SUBPEL_FILTERS[5][15]@ =~= seq![0i32, 0i32, 2i32, 34i32, 62i32, 30i32, 0i32, 0i32]);
    }
}

/// The filters of small blocks are those of larger ones, of the regular mode or else of the smooth
/// one, with the outer taps added to the inner ones.
pub proof fn lemma_short_filters_fold(
    mode: FilterMode,
    frac: int,
    length: int,
    small: int,
    long: Seq<i32>,
    short: Seq<i32>,
)
    requires
        0 <= frac < 16,
        small <= 4 < length,
        mode != FilterMode::BILINEAR,
        short == SUBPEL_FILTERS[filter_table(mode, small)][frac]@,
        mode == FilterMode::REGULAR ==> long == SUBPEL_FILTERS[filter_table(
            FilterMode::REGULAR,
            length,
        )][frac]@,
        mode != FilterMode::REGULAR ==> long == SUBPEL_FILTERS[filter_table(
            FilterMode::SMOOTH,
            length,
        )][frac]@,
    ensures
        short[2] == long[0] + long[1] + long[2],
        short[3] == long[3],
        short[4] == long[4],
        short[5] == long[5] + long[6] + long[7],
{
    lemma_folded_0(frac);
    lemma_folded_1(frac);
}

/// Every filter keeps a flat picture as it is: its result is 128 times the sample.
pub proof fn lemma_flat_interpolation(
    src: Seq<u8>,
    i: int,
    v: int,
    mode: FilterMode,
    frac: int,
    length: int,
)
    requires
        0 <= frac < 16,
        forall|k: int| i <= k < i + 8 ==> #[trigger] src[k] == v,
    ensures
        filter_sum(src, SUBPEL_FILTERS[filter_table(mode, length)][frac]@, i, 8) == 128 * v,
{
    lemma_taps_add_up(mode, frac, length);
    let f = SUBPEL_FILTERS[filter_table(mode, length)][frac]@;
    reveal_with_fuel(filter_sum, 9);
    assert(src[i + 0] == v && src[i + 1] == v && src[i + 2] == v && src[i + 3] == v && src[i + 4]
        == v && src[i + 5] == v && src[i + 6] == v && src[i + 7] == v);
    assert(v * f[0] + v * f[1] + v * f[2] + v * f[3] + v * f[4] + v * f[5] + v * f[6] + v * f[7]
        == v * tap_total(f)) by (nonlinear_arith);
    assert(v * tap_total(f) == 128 * v);
}

/// The average of two predictions is a sample.
pub proof fn lemma_averaged_range(t1: int, t2: int, bias: int, bits: int, top: int)
    requires
        0 <= top,
    ensures
        0 <= averaged(t1, t2, bias, bits, top) <= top,
        averaged(t1, t2, bias, bits, top) == averaged(t2, t1, bias, bits, top),
{
}

} // verus!
