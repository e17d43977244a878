//! What holds of the directional filter.

use crate::cdef::{
    block_side, constrain, constrain_shift_of, filter_of, msb_of, tap_count, CdefTaps,
};
use crate::laws::direction::aligned;
use crate::laws::numbers::lemma_shift_is_quotient;
use crate::math::{abs_int, shr};
use crate::pixel::{pixel_range, PixelType, Sample};
use crate::plane::{PlaneRegion, PlaneRegionMut};
use vstd::arithmetic::power2::{lemma2_to64, lemma_pow2_pos, lemma_pow2_unfold, pow2};
use vstd::prelude::*;

verus! {

/// A limited difference points the same way as the difference, and is no larger. It is as large as
/// the threshold allows, of which the difference itself takes up one unit for every `2^shift`.
/// Without a threshold it is nothing.
///
/// Here `size` is the magnitude of the difference, `m` that of the limited one, and `q` what the
/// difference takes up.
pub proof fn lemma_limited_difference(
    diff: int,
    threshold: int,
    shift: int,
    size: int,
    m: int,
    q: int,
)
    requires
        0 <= shift,
        size >= 0 && (size == diff || size == -diff),
        m >= 0 && (m == constrain(diff, threshold, shift) || m == -constrain(
            diff,
            threshold,
            shift,
        )),
        pow2(shift as nat) * q <= size < pow2(shift as nat) * (q + 1),
    ensures
        diff > 0 ==> constrain(diff, threshold, shift) >= 0,
        diff < 0 ==> constrain(diff, threshold, shift) <= 0,
        m <= size,
        threshold == 0 ==> m == 0,
        m > 0 ==> m + q <= threshold,
        m < size && threshold != 0 ==> m + q >= threshold,
{
    lemma_shift_is_quotient(size, shift, q);
    assert(abs_int(diff) == size);
}

/// The highest bit of a number is that of the largest power of two in it.
pub proof fn lemma_highest_bit(x: int)
    requires
        0 < x,
    ensures
        msb_of(x) >= 0,
        pow2(msb_of(x) as nat) <= x < 2 * pow2(msb_of(x) as nat),
    decreases x,
{
    lemma2_to64();
    if x > 1 {
        lemma_highest_bit(x / 2);
        lemma_pow2_unfold(msb_of(x) as nat);
        assert(msb_of(x) == 1 + msb_of(x / 2));
    }
}

/// The shift of a strength is the damping, less one for every bit below the highest one of the
/// strength, and never negative. Without strength there is none.
pub proof fn lemma_shift_of_strength(strength: int, damping: int, bit: int)
    requires
        0 <= bit,
        strength > 0 ==> pow2(bit as nat) <= strength < 2 * pow2(bit as nat),
    ensures
        strength <= 0 ==> constrain_shift_of(strength, damping) == 0,
        strength > 0 && damping >= bit ==> constrain_shift_of(strength, damping) == damping - bit,
        strength > 0 && damping < bit ==> constrain_shift_of(strength, damping) == 0,
{
    if strength > 0 {
        lemma_highest_bit(strength);
        let k = msb_of(strength);
        lemma_pow2_unfold((bit + 1) as nat);
        lemma_pow2_unfold((k + 1) as nat);
        if k < bit {
            if k + 1 < bit {
                vstd::arithmetic::power2::lemma_pow2_strictly_increases((k + 1) as nat, bit as nat);
            }
        }
        if bit < k {
            if bit + 1 < k {
                vstd::arithmetic::power2::lemma_pow2_strictly_increases((bit + 1) as nat, k as nat);
            }
        }
        assert(k == bit);
    }
}

/// The filter of given strengths has these strengths, their shifts and the direction. Its taps
/// along the direction weigh the same where the strength, brought to eight bits, is odd.
pub proof fn lemma_filter_of_strengths(
    pri_strength: i32,
    sec_strength: i32,
    dir: usize,
    damping: i32,
    bit_depth: usize,
    q: int,
)
    requires
        8 <= bit_depth,
        constrain_shift_of(pri_strength as int, damping as int) < 32,
        constrain_shift_of(sec_strength as int, damping as int) < 32,
        pow2((bit_depth - 8) as nat) * q <= pri_strength < pow2((bit_depth - 8) as nat) * (q + 1),
    ensures
        ({
            let f = filter_of(pri_strength, sec_strength, dir, damping, bit_depth);
            &&& f.pri_strength == pri_strength
            &&& f.sec_strength == sec_strength
            &&& f.pri_shift == constrain_shift_of(pri_strength as int, damping as int)
            &&& f.sec_shift == constrain_shift_of(sec_strength as int, damping as int)
            &&& f.dir == dir
            &&& f.even <==> q % 2 == 1
        }),
{
    lemma_shift_is_quotient(pri_strength as int, bit_depth - 8, q);
}

/// Of the twelve taps, the first six are one row or column away and the others two. In both
/// halves the taps come in opposite pairs: the first pair along the direction, the second a quarter
/// turn on one side of it and the third on the other. A step of two stays on the line of its
/// direction, and a step of one goes half as far.
pub proof fn lemma_places_of_taps(f: CdefTaps, g: CdefTaps, half: int, y: int, x: int)
    requires
        f.dir < 8,
        half == 0 || half == 6,
    ensures
        aligned(f.dir as int, y, x, y + f.step(6).0, x + f.step(6).1),
        f.step(6).0 == 2 || f.step(6).1 == 2,
        -2 <= f.step(6).0 <= 2 && -2 <= f.step(6).1 <= 2,
        f.step(6).0 == 2 * f.step(0).0 || (f.step(0).0 == 0 && (f.step(6).0 == 1 || f.step(6).0
            == -1)),
        f.step(6).1 == 2 * f.step(0).1 || (f.step(0).1 == 0 && (f.step(6).1 == 1 || f.step(6).1
            == -1)),
        f.step(half + 1) == (-f.step(half).0, -f.step(half).1),
        f.step(half + 3) == (-f.step(half + 2).0, -f.step(half + 2).1),
        f.step(half + 5) == (-f.step(half + 4).0, -f.step(half + 4).1),
        g.dir == (f.dir + 2) % 8 ==> f.step(half + 2) == g.step(half),
        g.dir == (f.dir + 6) % 8 ==> f.step(half + 4) == g.step(half),
{
}

/// Each tap lies on the sample as many rows and columns away as its step says.
pub proof fn lemma_taps_lie_on_neighbours<U: Sample>(
    f: CdefTaps,
    input: PlaneRegion<'_, U>,
    y: int,
    x: int,
    t: int,
    dy: int,
    dx: int,
)
    requires
        f.step(t) == (dy, dx),
    ensures
        f.tap(input, y, x, t) == input.data@[input.origin + (y + dy) * input.stride + (x
            + dx)].val(),
{
}

/// The smallest and the largest of a sample and its neighbours bound all of them.
proof fn lemma_extremes<U: Sample>(
    f: CdefTaps,
    input: PlaneRegion<'_, U>,
    y: int,
    x: int,
    n: int,
    lo: int,
    hi: int,
)
    requires
        0 <= n,
        lo <= input.at(y, x) <= hi,
        forall|t: int| 0 <= t < n ==> lo <= #[trigger] f.tap(input, y, x, t),
        forall|t: int|
            0 <= t < n && f.tap(input, y, x, t) != 0x8000 ==> #[trigger] f.tap(input, y, x, t) <= hi,
    ensures
        lo <= f.min_to(input, y, x, n) <= input.at(y, x) <= f.max_to(input, y, x, n) <= hi,
        forall|t: int|
            0 <= t < n ==> f.min_to(input, y, x, n) <= #[trigger] f.tap(input, y, x, t),
        forall|t: int|
            0 <= t < n && f.tap(input, y, x, t) != 0x8000 ==> #[trigger] f.tap(input, y, x, t)
                <= f.max_to(input, y, x, n),
    decreases n,
{
    if n > 0 {
        lemma_extremes(f, input, y, x, n - 1, lo, hi);
        assert(lo <= f.tap(input, y, x, n - 1));
    }
}

/// The sum of the weighted taps.
proof fn lemma_weighted_taps<U: Sample>(
    f: CdefTaps,
    input: PlaneRegion<'_, U>,
    y: int,
    x: int,
    c: spec_fn(int) -> int,
    near: int,
    far: int,
)
    requires
        f.even ==> near == 3 && far == 3,
        !f.even ==> near == 4 && far == 2,
        forall|t: int|
            0 <= t < 12 ==> #[trigger] c(t) == constrain(
                f.tap(input, y, x, t) - input.at(y, x),
                f.strength(t),
                f.shift(t),
            ),
    ensures
        f.sum_to(input, y, x, 12) == near * (c(0) + c(1)) + far * (c(6) + c(7)) + 2 * (c(2) + c(3)
            + c(4) + c(5)) + (c(8) + c(9) + c(10) + c(11)),
{
    assert(f.sum_to(input, y, x, 0) == 0);
    assert(f.sum_to(input, y, x, 1) == f.sum_to(input, y, x, 0) + f.weight(0) * c(0));
    assert(f.sum_to(input, y, x, 2) == f.sum_to(input, y, x, 1) + f.weight(1) * c(1));
    assert(f.sum_to(input, y, x, 3) == f.sum_to(input, y, x, 2) + f.weight(2) * c(2));
    assert(f.sum_to(input, y, x, 4) == f.sum_to(input, y, x, 3) + f.weight(3) * c(3));
    assert(f.sum_to(input, y, x, 5) == f.sum_to(input, y, x, 4) + f.weight(4) * c(4));
    assert(f.sum_to(input, y, x, 6) == f.sum_to(input, y, x, 5) + f.weight(5) * c(5));
    assert(f.sum_to(input, y, x, 7) == f.sum_to(input, y, x, 6) + f.weight(6) * c(6));
    assert(f.sum_to(input, y, x, 8) == f.sum_to(input, y, x, 7) + f.weight(7) * c(7));
    assert(f.sum_to(input, y, x, 9) == f.sum_to(input, y, x, 8) + f.weight(8) * c(8));
    assert(f.sum_to(input, y, x, 10) == f.sum_to(input, y, x, 9) + f.weight(9) * c(9));
    assert(f.sum_to(input, y, x, 11) == f.sum_to(input, y, x, 10) + f.weight(10) * c(10));
    assert(f.sum_to(input, y, x, 12) == f.sum_to(input, y, x, 11) + f.weight(11) * c(11));
    let a = c(0);
    let b = c(1);
    let d = c(6);
    let e = c(7);
    assert(near * (a + b) == near * a + near * b && far * (d + e) == far * d + far * e)
        by (nonlinear_arith);
}

/// A filtered sample, from what its neighbours are.
#[verifier::spinoff_prover]
#[verifier::rlimit(40)]
proof fn lemma_filtered<U: Sample>(
    f: CdefTaps,
    input: PlaneRegion<'_, U>,
    y: int,
    x: int,
    p: spec_fn(int) -> int,
    c: spec_fn(int) -> int,
    near: int,
    far: int,
    total: int,
    a: int,
    lo: int,
    hi: int,
)
    requires
        forall|t: int| 0 <= t < 12 ==> #[trigger] p(t) == f.tap(input, y, x, t),
        forall|t: int|
            0 <= t < 12 ==> #[trigger] c(t) == constrain(
                p(t) - input.at(y, x),
                f.strength(t),
                f.shift(t),
            ),
        f.even ==> near == 3 && far == 3,
        !f.even ==> near == 4 && far == 2,
        total == near * (c(0) + c(1)) + far * (c(6) + c(7)) + 2 * (c(2) + c(3) + c(4) + c(5)) + (c(8)
            + c(9) + c(10) + c(11)),
        total >= 0 ==> 16 * a <= total + 8 < 16 * (a + 1),
        total < 0 ==> 16 * (a - 1) < total - 8 <= 16 * a,
        lo <= input.at(y, x) <= hi,
        forall|t: int| 0 <= t < 12 ==> lo <= #[trigger] p(t),
        forall|t: int| 0 <= t < 12 && p(t) != 0x8000 ==> #[trigger] p(t) <= hi,
        lo == input.at(y, x) || exists|t: int| 0 <= t < 12 && lo == #[trigger] p(t),
        hi == input.at(y, x) || exists|t: int|
            0 <= t < 12 && p(t) != 0x8000 && hi == #[trigger] p(t),
    ensures
        input.at(y, x) + a < lo ==> f.filtered(input, y, x) == lo,
        lo <= input.at(y, x) + a <= hi ==> f.filtered(input, y, x) == input.at(y, x) + a,
        input.at(y, x) + a > hi ==> f.filtered(input, y, x) == hi,
{
    assert forall|t: int| 0 <= t < 12 implies lo <= #[trigger] f.tap(input, y, x, t) by {
        assert(p(t) == f.tap(input, y, x, t));
    }
    assert forall|t: int|
        0 <= t < 12 && f.tap(input, y, x, t) != 0x8000 implies #[trigger] f.tap(input, y, x, t)
        <= hi by {
        assert(p(t) == f.tap(input, y, x, t));
    }
    lemma_extremes(f, input, y, x, 12, lo, hi);
    if lo != input.at(y, x) {
        let t = choose|t: int| 0 <= t < 12 && lo == #[trigger] p(t);
        assert(p(t) == f.tap(input, y, x, t));
    }
    if hi != input.at(y, x) {
        let t = choose|t: int| 0 <= t < 12 && p(t) != 0x8000 && hi == #[trigger] p(t);
        assert(p(t) == f.tap(input, y, x, t));
    }
    assert(f.min_to(input, y, x, tap_count()) == lo);
    assert(f.max_to(input, y, x, tap_count()) == hi);
    lemma_weighted_taps(f, input, y, x, c, near, far);
    lemma_sixteenth(total, a);
}

/// A sixteenth, rounded to the nearest and halves away from zero.
proof fn lemma_sixteenth(total: int, a: int)
    requires
        total >= 0 ==> 16 * a <= total + 8 < 16 * (a + 1),
        total < 0 ==> 16 * (a - 1) < total - 8 <= 16 * a,
    ensures
        total >= 0 ==> shr(8 + total - 0, 4) == a,
        total < 0 ==> shr(8 + total - 1, 4) == a,
{
    lemma2_to64();
    assert(shr(8 + total - 0, 4) == (8 + total) / 16);
    assert(shr(8 + total - 1, 4) == (7 + total) / 16);
}

/// Whether a tap lies along the direction, and with it its strength and its shift.
proof fn lemma_strength_of_tap(f: CdefTaps, t: int)
    requires
        0 <= t < 12,
    ensures
        t == 0 || t == 1 || t == 6 || t == 7 ==> f.strength(t) == f.pri_strength && f.shift(t)
            == f.pri_shift,
        !(t == 0 || t == 1 || t == 6 || t == 7) ==> f.strength(t) == f.sec_strength && f.shift(t)
            == f.sec_shift,
{
}

/// A filtered sample moves towards its neighbours by a sixteenth of their limited differences. The
/// near ones along the direction count four times and the far ones twice, or all of them three
/// times; those across it count twice and once. The move is rounded to the nearest, and halves
/// away from zero. The sample stays between the smallest and the largest of itself and its
/// neighbours, of which those outside the frame do not count as large.
///
/// Here `p` holds the neighbours, `c` their limited differences, `a` is the move, and `lo` and `hi`
/// are the extremes.
#[verifier::spinoff_prover]
#[verifier::rlimit(40)]
pub proof fn lemma_filtered_samples<U: Sample>(
    f: CdefTaps,
    input: PlaneRegion<'_, U>,
    y: int,
    x: int,
    centre: int,
    p: spec_fn(int) -> int,
    c: spec_fn(int) -> int,
    near: int,
    far: int,
    total: int,
    a: int,
    lo: int,
    hi: int,
)
    requires
        centre == input.data@[input.origin + y * input.stride + x].val(),
        forall|t: int| 0 <= t < 12 ==> #[trigger] p(t) == f.tap(input, y, x, t),
        forall|t: int|
            0 <= t < 12 && (t == 0 || t == 1 || t == 6 || t == 7) ==> #[trigger] c(t) == constrain(
                p(t) - centre,
                f.pri_strength as int,
                f.pri_shift as int,
            ),
        forall|t: int|
            0 <= t < 12 && !(t == 0 || t == 1 || t == 6 || t == 7) ==> #[trigger] c(t)
                == constrain(p(t) - centre, f.sec_strength as int, f.sec_shift as int),
        f.even ==> near == 3 && far == 3,
        !f.even ==> near == 4 && far == 2,
        total == near * (c(0) + c(1)) + far * (c(6) + c(7)) + 2 * (c(2) + c(3) + c(4) + c(5)) + (c(8)
            + c(9) + c(10) + c(11)),
        total >= 0 ==> 16 * a <= total + 8 < 16 * (a + 1),
        total < 0 ==> 16 * (a - 1) < total - 8 <= 16 * a,
        lo <= centre <= hi,
        forall|t: int| 0 <= t < 12 ==> lo <= #[trigger] p(t),
        forall|t: int| 0 <= t < 12 && p(t) != 0x8000 ==> #[trigger] p(t) <= hi,
        lo == centre || exists|t: int| 0 <= t < 12 && lo == #[trigger] p(t),
        hi == centre || exists|t: int| 0 <= t < 12 && p(t) != 0x8000 && hi == #[trigger] p(t),
    ensures
        centre + a < lo ==> f.filtered(input, y, x) == lo,
        lo <= centre + a <= hi ==> f.filtered(input, y, x) == centre + a,
        centre + a > hi ==> f.filtered(input, y, x) == hi,
{
    assert(centre == input.at(y, x));
    assert forall|t: int| 0 <= t < 12 implies #[trigger] c(t) == constrain(
        p(t) - input.at(y, x),
        f.strength(t),
        f.shift(t),
    ) by {
        lemma_strength_of_tap(f, t);
    }
    lemma_filtered(f, input, y, x, p, c, near, far, total, a, lo, hi);
}

/// A filtered block holds its filtered samples in their places, where they fit the storage.
pub proof fn lemma_filtered_blocks<T: Sample, U: Sample>(
    before: PlaneRegionMut<'_, T>,
    after: PlaneRegionMut<'_, T>,
    input: PlaneRegion<'_, U>,
    f: CdefTaps,
    w: int,
    h: int,
    y: int,
    x: int,
    v: int,
)
    requires
        after.wrote(
            before,
            w,
            h,
            |y: int, x: int| f.filtered(input, y, x) % pixel_range(T::storage()),
        ),
        0 <= y < h,
        0 <= x < w,
        v == after.data@[after.origin + y * after.stride + x].val(),
        0 <= f.filtered(input, y, x) < (if T::storage() == PixelType::U8 {
            0x100int
        } else {
            0x1_0000
        }),
    ensures
        v == f.filtered(input, y, x),
{
    let g = |y: int, x: int| f.filtered(input, y, x) % pixel_range(T::storage());
    assert(after.at(y, x) == g(y, x));
}

/// A block has eight rows and columns, halved as often as its plane is subsampled.
pub proof fn lemma_sides_of_blocks(dec: int)
    requires
        0 <= dec,
    ensures
        block_side(0) == 8,
        block_side(1) == 4,
        dec > 3 ==> block_side(dec) == 0,
        pow2(dec as nat) * block_side(dec) <= 8,
{
    lemma2_to64();
    lemma_pow2_pos(dec as nat);
    lemma_shift_is_quotient(8, dec, block_side(dec));
    assert(shr(8, 0) == 8int / 1);
    assert(shr(8, 1) == 8int / 2);
    if dec > 3 {
        vstd::arithmetic::power2::lemma_pow2_strictly_increases(3, dec as nat);
        lemma_shift_is_quotient(8, dec, 0);
    }
}

} // verus!
