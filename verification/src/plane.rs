//! Windows onto planes of samples.

use crate::pixel::{pixel_range, Sample};
use vstd::arithmetic::div_mod::{lemma_fundamental_div_mod, lemma_fundamental_div_mod_converse};
use vstd::prelude::*;
use vstd::slice::slice_subrange;

verus! {

/// The position in storage of row `y`, column `x` of a window.
pub open spec fn sample_index(origin: int, stride: int, y: int, x: int) -> int {
    origin + y * stride + x
}

/// Whether rows `y0` to `y1` and columns `x0` to `x1` of a window lie in storage of length `len`.
pub open spec fn spans(
    len: int,
    origin: int,
    stride: int,
    y0: int,
    y1: int,
    x0: int,
    x1: int,
) -> bool {
    y0 < y1 && x0 < x1 ==> {
        &&& sample_index(origin, stride, y0, x0) >= 0
        &&& sample_index(origin, stride, y1 - 1, x1 - 1) < len
    }
}

/// Every sample of a span has its place in storage.
pub proof fn lemma_spans(
    len: int,
    origin: int,
    stride: int,
    y0: int,
    y1: int,
    x0: int,
    x1: int,
    y: int,
    x: int,
)
    requires
        spans(len, origin, stride, y0, y1, x0, x1),
        stride >= 0,
        y0 <= y < y1,
        x0 <= x < x1,
    ensures
        0 <= sample_index(origin, stride, y, x) < len,
{
    assert(y0 * stride <= y * stride <= (y1 - 1) * stride) by (nonlinear_arith)
        requires
            stride >= 0,
            y0 <= y < y1,
    ;
}

/// A window onto samples that are read.
pub struct PlaneRegion<'a, T> {
    /// The storage.
    pub data: &'a [T],
    /// The distance between two samples of a column.
    pub stride: usize,
    /// The position of the top left sample.
    pub origin: usize,
}

impl<'a, T: Sample> PlaneRegion<'a, T> {
    /// The sample in row `y`, column `x`.
    pub open spec fn at(self, y: int, x: int) -> int {
        self.data@[sample_index(self.origin as int, self.stride as int, y, x)].val()
    }

    /// Whether the given rows and columns lie in the storage.
    pub open spec fn spans(self, y0: int, y1: int, x0: int, x1: int) -> bool {
        spans(
            self.data@.len() as int,
            self.origin as int,
            self.stride as int,
            y0,
            y1,
            x0,
            x1,
        )
    }

    /// Whether a block of `w` columns and `h` rows lies in the storage.
    pub open spec fn covers(self, w: int, h: int) -> bool {
        self.spans(0, h, 0, w)
    }

    /// A window that covers a block covers its first rows.
    pub proof fn lemma_covers_fewer(self, w: int, h: int, rows: int)
        requires
            self.covers(w, h),
            0 <= rows <= h,
        ensures
            self.covers(w, rows),
    {
        if rows > 0 && w > 0 {
            lemma_spans(
                self.data@.len() as int,
                self.origin as int,
                self.stride as int,
                0,
                h,
                0,
                w,
                rows - 1,
                w - 1,
            );
        }
    }

    /// A window that covers a block covers its first rows and columns.
    pub proof fn lemma_covers_part(self, w: int, h: int, cols: int, rows: int)
        requires
            self.covers(w, h),
            0 <= cols <= w,
            0 <= rows <= h,
        ensures
            self.covers(cols, rows),
    {
        if rows > 0 && cols > 0 {
            lemma_spans(
                self.data@.len() as int,
                self.origin as int,
                self.stride as int,
                0,
                h,
                0,
                w,
                rows - 1,
                cols - 1,
            );
        }
    }

    /// A sample of a window is unsigned and fits its storage.
    pub proof fn lemma_at_range(self, y: int, x: int)
        ensures
            0 <= self.at(y, x) < pixel_range(T::storage()),
    {
        let p = self.data@[sample_index(self.origin as int, self.stride as int, y, x)];
        p.lemma_val(p);
    }

    /// The first `w` samples of row `y`.
    pub fn row(&self, y: usize, w: usize) -> (r: &'a [T])
        requires
            self.covers(w as int, y + 1),
        ensures
            r@.len() == w,
            forall|x: int| 0 <= x < w ==> (#[trigger] r@[x]).val() == self.at(y as int, x),
    {
        if w == 0 {
            return slice_subrange(self.data, 0, 0);
        }
        proof {
            assert(y * self.stride >= 0) by (nonlinear_arith)
                requires
                    y >= 0,
                    self.stride >= 0,
            ;
        }
        let len: usize = self.data.len();
        assert(len == self.data@.len());
        let start: usize = self.origin + y * self.stride;
        slice_subrange(self.data, start, start + w)
    }
}

/// A window onto samples that are written.
pub struct PlaneRegionMut<'a, T> {
    /// The storage.
    pub data: &'a mut [T],
    /// The distance between two samples of a column.
    pub stride: usize,
    /// The position of the top left sample.
    pub origin: usize,
}

/// Whether position `k` of storage belongs to the first `r` rows of a block of `w` columns, or to
/// the first `c` columns of the row that follows them.
pub open spec fn in_rows(origin: int, stride: int, w: int, r: int, c: int, k: int) -> bool {
    let d = k - origin;
    &&& d >= 0
    &&& stride > 0
    &&& d % stride < w
    &&& d / stride < r || (d / stride == r && d % stride < c)
}

/// The storage after the first `r` rows, and `c` samples of the next one, have taken the values
/// that `f` gives for row and column, and nothing else has changed.
pub open spec fn painted<T: Sample>(
    before: Seq<T>,
    after: Seq<T>,
    origin: int,
    stride: int,
    w: int,
    r: int,
    c: int,
    f: spec_fn(int, int) -> int,
) -> bool {
    &&& after.len() == before.len()
    &&& forall|k: int|
        0 <= k < before.len() ==> if in_rows(origin, stride, w, r, c, k) {
            (#[trigger] after[k]).val() == f((k - origin) / stride, (k - origin) % stride)
        } else {
            after[k] == before[k]
        }
}

/// The row and the column of a position are those that it was made of.
pub proof fn lemma_position(origin: int, stride: int, y: int, x: int)
    requires
        0 <= x < stride,
        0 <= y,
    ensures
        (sample_index(origin, stride, y, x) - origin) / stride == y,
        (sample_index(origin, stride, y, x) - origin) % stride == x,
        sample_index(origin, stride, y, x) >= origin,
{
    assert(y * stride >= 0) by (nonlinear_arith)
        requires
            y >= 0,
            stride >= 0,
    ;
    lemma_fundamental_div_mod_converse(y * stride + x, stride, y, x);
}

/// A position is made of its row and its column.
pub proof fn lemma_position_of(origin: int, stride: int, k: int)
    requires
        stride > 0,
    ensures
        sample_index(origin, stride, (k - origin) / stride, (k - origin) % stride) == k,
        0 <= (k - origin) % stride < stride,
{
    lemma_fundamental_div_mod(k - origin, stride);
    assert(stride * ((k - origin) / stride) == ((k - origin) / stride) * stride)
        by (nonlinear_arith);
}

impl<'a, T: Sample> PlaneRegionMut<'a, T> {
    /// The sample in row `y`, column `x`.
    pub open spec fn at(self, y: int, x: int) -> int {
        self.data@[sample_index(self.origin as int, self.stride as int, y, x)].val()
    }

    /// Whether the sample in row `y`, column `x` lies in the storage.
    pub open spec fn in_storage(self, y: int, x: int) -> bool {
        0 <= sample_index(self.origin as int, self.stride as int, y, x) < self.data@.len()
    }

    /// Whether a block of `w` columns and `h` rows lies in the storage, its rows apart.
    pub open spec fn holds(self, w: int, h: int) -> bool {
        &&& spans(self.data@.len() as int, self.origin as int, self.stride as int, 0, h, 0, w)
        &&& w <= self.stride
    }

    /// Whether position `k` of the storage belongs to the block of `w` columns and `h` rows.
    pub open spec fn in_block(self, w: int, h: int, k: int) -> bool {
        in_rows(self.origin as int, self.stride as int, w, h, 0, k)
    }

    /// The block of `w` columns and `h` rows has the samples that `f` gives for row and column,
    /// and nothing else differs from `before`.
    pub open spec fn wrote(
        self,
        before: Self,
        w: int,
        h: int,
        f: spec_fn(int, int) -> int,
    ) -> bool {
        &&& self.stride == before.stride
        &&& self.origin == before.origin
        &&& self.data@.len() == before.data@.len()
        &&& forall|y: int, x: int|
            0 <= y < h && 0 <= x < w ==> #[trigger] self.at(y, x) == f(y, x)
        &&& forall|k: int|
            0 <= k < before.data@.len() && !before.in_block(w, h, k) ==> #[trigger] self.data@[k]
                == before.data@[k]
    }

    /// The work on a block so far: see `painted`.
    pub open spec fn progress(
        self,
        before: Self,
        w: int,
        r: int,
        c: int,
        f: spec_fn(int, int) -> int,
    ) -> bool {
        &&& self.stride == before.stride
        &&& self.origin == before.origin
        &&& painted(
            before.data@,
            self.data@,
            before.origin as int,
            before.stride as int,
            w,
            r,
            c,
            f,
        )
    }

    /// A block on which the work is done has been written.
    pub proof fn lemma_done(self, before: Self, w: int, h: int, f: spec_fn(int, int) -> int)
        requires
            before.holds(w, h),
            self.progress(before, w, h, 0, f),
        ensures
            self.wrote(before, w, h, f),
    {
        let origin = before.origin as int;
        let stride = before.stride as int;
        assert forall|y: int, x: int| 0 <= y < h && 0 <= x < w implies #[trigger] self.at(y, x)
            == f(y, x) by {
            lemma_position(origin, stride, y, x);
            lemma_spans(before.data@.len() as int, origin, stride, 0, h, 0, w, y, x);
            let k = sample_index(origin, stride, y, x);
            assert(in_rows(origin, stride, w, h, 0, k));
            assert(self.data@[k].val() == f(y, x));
        }
    }

    /// A full row is a row done.
    pub proof fn lemma_next_row(self, before: Self, w: int, r: int, f: spec_fn(int, int) -> int)
        requires
            self.progress(before, w, r, w, f),
        ensures
            self.progress(before, w, r + 1, 0, f),
    {
        let origin = before.origin as int;
        let stride = before.stride as int;
        assert forall|k: int| 0 <= k < before.data@.len() implies in_rows(
            origin,
            stride,
            w,
            r,
            w,
            k,
        ) == in_rows(origin, stride, w, r + 1, 0, k) by {
            if stride > 0 && k - origin >= 0 {
                lemma_position_of(origin, stride, k);
            }
        }
    }

    /// The rows below those that are done are as they were.
    pub proof fn lemma_untouched(
        self,
        before: Self,
        w: int,
        h: int,
        r: int,
        y: int,
        x: int,
        f: spec_fn(int, int) -> int,
    )
        requires
            before.holds(w, h),
            self.progress(before, w, r, 0, f),
            0 <= r <= y < h,
            0 <= x < w,
        ensures
            self.at(y, x) == before.at(y, x),
            self.in_storage(y, x),
    {
        let origin = before.origin as int;
        let stride = before.stride as int;
        lemma_position(origin, stride, y, x);
        lemma_spans(before.data@.len() as int, origin, stride, 0, h, 0, w, y, x);
        let k = sample_index(origin, stride, y, x);
        assert(!in_rows(origin, stride, w, r, 0, k));
        assert(self.data@[k] == before.data@[k]);
    }

    /// A sample of a window is unsigned and fits its storage.
    pub proof fn lemma_at_range(self, y: int, x: int)
        ensures
            0 <= self.at(y, x) < pixel_range(T::storage()),
    {
        let p = self.data@[sample_index(self.origin as int, self.stride as int, y, x)];
        p.lemma_val(p);
    }

    /// Whether a window onto samples that are read shows the same samples.
    pub open spec fn shows(self, r: PlaneRegion<'_, T>) -> bool {
        &&& r.data@ == self.data@
        &&& r.stride == self.stride
        &&& r.origin == self.origin
    }

    /// The same window, to be read.
    pub fn as_const(&self) -> (r: PlaneRegion<'_, T>)
        ensures
            self.shows(r),
    {
        PlaneRegion { data: &*self.data, stride: self.stride, origin: self.origin }
    }

    /// The sample in row `y`, column `x`.
    pub(crate) fn get(&self, y: usize, x: usize) -> (r: T)
        requires
            self.in_storage(y as int, x as int),
        ensures
            r.val() == self.at(y as int, x as int),
    {
        proof {
            assert(y * self.stride >= 0) by (nonlinear_arith)
                requires
                    y >= 0,
                    self.stride >= 0,
            ;
        }
        let len: usize = self.data.len();
        assert(len == self.data@.len());
        self.data[self.origin + y * self.stride + x]
    }

    /// Writes the next sample of a block, in row `y` and column `x`.
    pub(crate) fn paint(
        &mut self,
        y: usize,
        x: usize,
        v: T,
        Ghost(before): Ghost<Self>,
        Ghost(w): Ghost<int>,
        Ghost(f): Ghost<spec_fn(int, int) -> int>,
    )
        requires
            before.holds(w, y + 1),
            x < w,
            old(self).progress(before, w, y as int, x as int, f),
            v.val() == f(y as int, x as int),
        ensures
            final(self).progress(before, w, y as int, x + 1, f),
            final(final(self).data)@ == final(old(self).data)@,
    {
        let ghost origin = before.origin as int;
        let ghost stride = before.stride as int;
        let ghost at = sample_index(origin, stride, y as int, x as int);
        let ghost start = self.data@;
        proof {
            lemma_spans(
                before.data@.len() as int,
                origin,
                stride,
                0,
                y + 1,
                0,
                w,
                y as int,
                x as int,
            );
            assert(y * self.stride >= 0) by (nonlinear_arith)
                requires
                    y >= 0,
                    self.stride >= 0,
            ;
        }
        let len: usize = self.data.len();
        assert(len == self.data@.len());
        self.data[self.origin + y * self.stride + x] = v;
        proof {
            lemma_position(origin, stride, y as int, x as int);
            assert forall|k: int| 0 <= k < before.data@.len() implies if in_rows(
                origin,
                stride,
                w,
                y as int,
                x + 1,
                k,
            ) {
                (#[trigger] self.data@[k]).val() == f((k - origin) / stride, (k - origin) % stride)
            } else {
                self.data@[k] == before.data@[k]
            } by {
                lemma_position_of(origin, stride, k);
                if k != at {
                    assert(self.data@[k] == start[k]);
                    assert(in_rows(origin, stride, w, y as int, x + 1, k) == in_rows(
                        origin,
                        stride,
                        w,
                        y as int,
                        x as int,
                        k,
                    ));
                }
            }
        }
    }

    /// Writes row `y` of a block.
    pub(crate) fn paint_row(
        &mut self,
        y: usize,
        w: usize,
        row: &[T],
        Ghost(before): Ghost<Self>,
        Ghost(f): Ghost<spec_fn(int, int) -> int>,
    )
        requires
            before.holds(w as int, y + 1),
            w <= row@.len(),
            old(self).progress(before, w as int, y as int, 0, f),
            forall|x: int| 0 <= x < w ==> (#[trigger] row@[x]).val() == f(y as int, x),
        ensures
            final(self).progress(before, w as int, y + 1, 0, f),
            final(final(self).data)@ == final(old(self).data)@,
    {
        let ghost storage = final(self.data)@;
        let mut x: usize = 0;
        while x < w
            invariant
                x <= w,
                w <= row@.len(),
                before.holds(w as int, y + 1),
                self.progress(before, w as int, y as int, x as int, f),
                forall|i: int| 0 <= i < w ==> (#[trigger] row@[i]).val() == f(y as int, i),
                final(self.data)@ == storage,
            decreases w - x,
        {
            self.paint(y, x, row[x], Ghost(before), Ghost(w as int), Ghost(f));
            x += 1;
        }
        proof {
            self.lemma_next_row(before, w as int, y as int, f);
        }
    }

    /// Writes the same sample in all of row `y` of a block.
    pub(crate) fn fill_row(
        &mut self,
        y: usize,
        w: usize,
        v: T,
        Ghost(before): Ghost<Self>,
        Ghost(f): Ghost<spec_fn(int, int) -> int>,
    )
        requires
            before.holds(w as int, y + 1),
            old(self).progress(before, w as int, y as int, 0, f),
            forall|x: int| 0 <= x < w ==> v.val() == #[trigger] f(y as int, x),
        ensures
            final(self).progress(before, w as int, y + 1, 0, f),
            final(final(self).data)@ == final(old(self).data)@,
    {
        let ghost storage = final(self.data)@;
        let mut x: usize = 0;
        while x < w
            invariant
                x <= w,
                before.holds(w as int, y + 1),
                self.progress(before, w as int, y as int, x as int, f),
                forall|i: int| 0 <= i < w ==> v.val() == #[trigger] f(y as int, i),
                final(self.data)@ == storage,
            decreases w - x,
        {
            self.paint(y, x, v, Ghost(before), Ghost(w as int), Ghost(f));
            x += 1;
        }
        proof {
            self.lemma_next_row(before, w as int, y as int, f);
        }
    }

    /// A window that holds a block holds its first rows.
    pub proof fn lemma_holds_fewer(self, w: int, h: int, rows: int)
        requires
            self.holds(w, h),
            0 <= rows <= h,
        ensures
            self.holds(w, rows),
    {
        if rows > 0 && w > 0 {
            lemma_spans(
                self.data@.len() as int,
                self.origin as int,
                self.stride as int,
                0,
                h,
                0,
                w,
                rows - 1,
                w - 1,
            );
        }
    }
}

} // verus!
