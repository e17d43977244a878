//! What holds of windows onto planes.

use crate::pixel::{pixel_range, Coefficient, PixelType, Sample};
use crate::plane::{PlaneRegion, PlaneRegionMut};
use crate::portable::{block_of, starts_with};
use vstd::arithmetic::div_mod::lemma_fundamental_div_mod;
use vstd::prelude::*;

verus! {

/// A window shows, in row `y` and column `x`, the sample that lies `y` strides and `x` samples
/// behind its origin.
pub proof fn lemma_windows_show_storage<T: Sample>(r: PlaneRegion<'_, T>, y: int, x: int)
    ensures
        r.at(y, x) == r.data@[r.origin + y * r.stride + x].val(),
{
}

/// The values of samples and coefficients are those of their storage.
pub proof fn lemma_values(a: u8, b: u16, c: i16, d: i32)
    ensures
        Sample::val(a) == a,
        Sample::val(b) == b,
        Coefficient::val(c) == c,
        Coefficient::val(d) == d,
        <u8 as Sample>::storage() == PixelType::U8,
        <u16 as Sample>::storage() == PixelType::U16,
        <i16 as Coefficient>::narrow(),
        !<i32 as Coefficient>::narrow(),
        pixel_range(PixelType::U8) == 0x100,
        pixel_range(PixelType::U16) == 0x1_0000,
{
}

/// Windows that begin a number of rows and columns further on show the same samples as many rows
/// and columns before.
pub proof fn lemma_windows_move<T: Sample>(
    r: PlaneRegion<'_, T>,
    moved: PlaneRegion<'_, T>,
    rows: int,
    columns: int,
    y: int,
    x: int,
)
    requires
        moved.data@ == r.data@,
        moved.stride == r.stride,
        moved.origin == r.origin + rows * r.stride + columns,
    ensures
        moved.at(y, x) == r.at(rows + y, columns + x),
{
    assert((rows + y) * r.stride == rows * r.stride + y * r.stride) by (nonlinear_arith);
}

/// A block that was written has its samples in their places: row `y`, column `x` lies `y` strides
/// and `x` samples behind the origin.
pub proof fn lemma_written_samples<T: Sample>(
    before: PlaneRegionMut<'_, T>,
    after: PlaneRegionMut<'_, T>,
    w: int,
    h: int,
    f: spec_fn(int, int) -> int,
    y: int,
    x: int,
    v: int,
)
    requires
        after.wrote(before, w, h, f),
        0 <= y < h,
        0 <= x < w,
        v == after.data@[before.origin + y * before.stride + x].val(),
    ensures
        v == f(y, x),
{
    assert(after.at(y, x) == f(y, x));
}

/// What lies outside a block that was written is as before.
pub proof fn lemma_untouched_samples<T: Sample>(
    before: PlaneRegionMut<'_, T>,
    after: PlaneRegionMut<'_, T>,
    w: int,
    h: int,
    f: spec_fn(int, int) -> int,
    k: int,
    was: T,
    is: T,
)
    requires
        after.wrote(before, w, h, f),
        0 <= k < before.data@.len(),
        forall|y: int, x: int|
            0 <= y < h && 0 <= x < w ==> k != #[trigger] (before.origin + y * before.stride + x),
        was == before.data@[k],
        is == after.data@[k],
    ensures
        is == was,
{
    let d = k - before.origin;
    if before.in_block(w, h, k) {
        let stride = before.stride as int;
        lemma_fundamental_div_mod(d, stride);
        let y = d / stride;
        let x = d % stride;
        assert(stride * y == y * stride) by (nonlinear_arith);
        assert(y >= 0) by (nonlinear_arith)
            requires
                d == stride * y + x,
                0 <= d,
                0 <= x < stride,
        ;
        assert(k == before.origin + y * before.stride + x);
    }
}

/// A window that is read shows what the window that is written holds.
pub proof fn lemma_shown_samples<T: Sample>(
    m: PlaneRegionMut<'_, T>,
    r: PlaneRegion<'_, T>,
    k: int,
    held: T,
)
    requires
        m.shows(r),
        0 <= k < m.data@.len(),
        held == m.data@[k],
    ensures
        r.data@[k] == held,
        r.origin == m.origin,
        r.stride == m.stride,
{
}

/// The samples of a block are given row after row.
pub proof fn lemma_rows_follow_each_other<T: Sample>(v: Seq<T>, w: int, y: int, x: int)
    ensures
        block_of(v, w)(y, x) == v[y * w + x].val(),
{
}

/// Values are put at the beginning, and what lies behind them stays.
pub proof fn lemma_values_at_the_beginning<T>(before: Seq<T>, now: Seq<T>, v: Seq<T>)
    requires
        v.len() <= before.len(),
    ensures
        starts_with(before, now, v) <==> now =~= v + before.subrange(
            v.len() as int,
            before.len() as int,
        ),
{
    let all = v + before.subrange(v.len() as int, before.len() as int);
    if starts_with(before, now, v) {
        assert(now =~= all);
    }
    if now =~= all {
        assert forall|i: int| 0 <= i < v.len() implies #[trigger] now[i] == v[i] by {}
        assert forall|i: int| v.len() <= i < before.len() implies #[trigger] now[i] == before[i] by {}
    }
}

} // verus!
