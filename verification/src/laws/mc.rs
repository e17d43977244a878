//! What holds of motion compensation.

use crate::math::shr;
use crate::mc::{average_at, filter_sum, filter_table, FilterMode};
use crate::pixel::{PixelType, Sample};
use crate::plane::PlaneRegionMut;
use crate::sums::sum;
use vstd::arithmetic::power2::{lemma2_to64, lemma_pow2_pos, pow2};
use vstd::prelude::*;

verus! {

/// Every averaged sample is half the sum of its two predictions, which are 16 times as fine as
/// samples, or 4 times at 12 bits: 32, or 8, of the sum make up one sample. It is rounded to the
/// nearest, and halves up. What lies below all samples becomes 0, and what lies above them the
/// largest one.
///
/// Predictions of 16-bit samples have lost 8192 each, which the average gives back.
pub proof fn lemma_averages_are_nearest<T: Sample>(
    before: PlaneRegionMut<'_, T>,
    after: PlaneRegionMut<'_, T>,
    tmp1: Seq<i16>,
    tmp2: Seq<i16>,
    w: int,
    h: int,
    bit_depth: int,
    y: int,
    x: int,
    v: int,
    total: int,
    top: int,
)
    requires
        after.wrote(before, w, h, average_at(T::storage(), tmp1, tmp2, w, bit_depth)),
        0 <= y < h,
        0 <= x < w,
        T::storage() == PixelType::U16 ==> 0 <= bit_depth <= 16,
        v == after.data@[after.origin + y * after.stride + x].val(),
        total == tmp1[y * w + x] + tmp2[y * w + x] + (if T::storage() == PixelType::U8 {
            0int
        } else {
            16384
        }),
        top == (if T::storage() == PixelType::U8 {
            255int
        } else {
            pow2(bit_depth as nat) - 1
        }),
    ensures
        0 <= v <= top,
        v > 0 && bit_depth != 12 ==> 32 * v <= total + 16,
        v < top && bit_depth != 12 ==> total + 16 < 32 * (v + 1),
        v > 0 && bit_depth == 12 ==> 8 * v <= total + 4,
        v < top && bit_depth == 12 ==> total + 4 < 8 * (v + 1),
{
    lemma2_to64();
    lemma_pow2_pos(bit_depth as nat);
    assert(pow2(2) == 4 && pow2(3) == 8 && pow2(4) == 16 && pow2(5) == 32);
    if T::storage() == PixelType::U16 && bit_depth < 16 {
        vstd::arithmetic::power2::lemma_pow2_strictly_increases(bit_depth as nat, 16);
    }
    let f = average_at(T::storage(), tmp1, tmp2, w, bit_depth);
    assert(after.at(y, x) == f(y, x));
    assert(shr(total + 16, 5) == (total + 16) / 32);
    assert(shr(total + 4, 3) == (total + 4) / 8);
}

/// The average of two equal predictions is the sample that they are made of.
pub proof fn lemma_average_of_equals<T: Sample>(
    before: PlaneRegionMut<'_, T>,
    after: PlaneRegionMut<'_, T>,
    tmp: Seq<i16>,
    w: int,
    h: int,
    bit_depth: int,
    y: int,
    x: int,
    v: int,
    sample: int,
)
    requires
        after.wrote(before, w, h, average_at(T::storage(), tmp, tmp, w, bit_depth)),
        0 <= y < h,
        0 <= x < w,
        T::storage() == PixelType::U16 ==> 0 <= bit_depth <= 16,
        v == after.data@[after.origin + y * after.stride + x].val(),
        0 <= sample <= (if T::storage() == PixelType::U8 {
            255int
        } else {
            pow2(bit_depth as nat) - 1
        }),
        tmp[y * w + x] + (if T::storage() == PixelType::U8 {
            0int
        } else {
            8192
        }) == sample * (if bit_depth == 12 {
            4int
        } else {
            16
        }),
    ensures
        v == sample,
{
    let top = if T::storage() == PixelType::U8 {
        255int
    } else {
        pow2(bit_depth as nat) - 1
    };
    let bias = if T::storage() == PixelType::U8 {
        0int
    } else {
        16384
    };
    let total = tmp[y * w + x] + tmp[y * w + x] + bias;
    lemma_averages_are_nearest(
        before,
        after,
        tmp,
        tmp,
        w,
        h,
        bit_depth,
        y,
        x,
        v,
        total,
        top,
    );
}

/// A filter adds up its taps times the samples from its position on.
pub proof fn lemma_filters_weigh_samples(
    src: Seq<u8>,
    filter: Seq<i32>,
    terms: spec_fn(int) -> int,
    i: int,
    n: int,
)
    requires
        0 <= n,
        forall|t: int| 0 <= t < n ==> #[trigger] terms(t) == src[i + t] * filter[t],
    ensures
        filter_sum(src, filter, i, n) == sum(terms, n),
    decreases n,
{
    if n > 0 {
        lemma_filters_weigh_samples(src, filter, terms, i, n - 1);
        assert(terms(n - 1) == src[i + (n - 1)] * filter[n - 1]);
        assert(i + n - 1 == i + (n - 1));
    }
}

/// A filter does the same at every position: it depends on the samples from there on alone.
pub proof fn lemma_filters_move(src: Seq<u8>, filter: Seq<i32>, k: int, i: int, n: int)
    requires
        0 <= k,
        0 <= i,
        0 <= n,
        k + i + n <= src.len(),
    ensures
        filter_sum(src.subrange(k, src.len() as int), filter, i, n) == filter_sum(
            src,
            filter,
            k + i,
            n,
        ),
    decreases n,
{
    if n > 0 {
        lemma_filters_move(src, filter, k, i, n - 1);
        assert(src.subrange(k, src.len() as int)[i + n - 1] == src[k + i + n - 1]);
    }
}

/// A filter at a sample gives 128 times that sample, the fourth of those that it is applied to.
pub proof fn lemma_filters_keep_samples(
    src: Seq<u8>,
    filter: Seq<i32>,
    i: int,
    mode: FilterMode,
    length: int,
)
    requires
        0 <= i,
        filter == crate::mc::SUBPEL_FILTERS[filter_table(mode, length)][0]@,
    ensures
        filter_sum(src, filter, i, 8) == 128 * src[i + 3],
{
    crate::mc::lemma_filters_mirror(mode, 0, length);
    assert(filter =~= seq![0i32, 0i32, 0i32, 128i32, 0i32, 0i32, 0i32, 0i32]);
    assert(filter[0] == 0 && filter[1] == 0 && filter[2] == 0 && filter[3] == 128 && filter[4] == 0
        && filter[5] == 0 && filter[6] == 0 && filter[7] == 0);
    lemma_idle_tap(src, filter, i, 1);
    lemma_idle_tap(src, filter, i, 2);
    lemma_idle_tap(src, filter, i, 3);
    assert(filter_sum(src, filter, i, 0) == 0);
    assert(filter_sum(src, filter, i, 4) == filter_sum(src, filter, i, 3) + src[i + 4 - 1]
        * filter[3]);
    lemma_idle_tap(src, filter, i, 5);
    lemma_idle_tap(src, filter, i, 6);
    lemma_idle_tap(src, filter, i, 7);
    lemma_idle_tap(src, filter, i, 8);
}

/// A tap of nothing adds nothing.
proof fn lemma_idle_tap(src: Seq<u8>, filter: Seq<i32>, i: int, n: int)
    requires
        0 < n,
        filter[n - 1] == 0,
    ensures
        filter_sum(src, filter, i, n) == filter_sum(src, filter, i, n - 1),
{
    let x = src[i + n - 1];
    assert(x * 0 == 0);
}

/// Which filters a mode has: larger blocks those of the mode, smaller ones shorter filters, of
/// which the regular mode has its own and all others the smooth ones. Bilinear filters are the
/// same for all blocks.
pub proof fn lemma_tables_of_modes(a: FilterMode, b: FilterMode, length: int, other: int)
    ensures
        0 <= filter_table(a, length) < 6,
        length > 4 && a != b ==> filter_table(a, length) != filter_table(b, length),
        length > 4 && other > 4 ==> filter_table(a, length) == filter_table(a, other),
        length <= 4 && other <= 4 ==> filter_table(a, length) == filter_table(a, other),
        filter_table(FilterMode::BILINEAR, length) == filter_table(FilterMode::BILINEAR, other),
        length <= 4 && a != FilterMode::BILINEAR && b != FilterMode::BILINEAR ==> (filter_table(
            a,
            length,
        ) == filter_table(b, length) <==> (a == FilterMode::REGULAR <==> b == FilterMode::REGULAR)),
{
}

} // verus!
