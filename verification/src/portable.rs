//! What a portable routine returns, put where it belongs.
//!
//! Some operations have no vector kernel, or have one for some blocks only. They are handed a
//! routine that computes the rest, and store what it returns.

use crate::pixel::Sample;
use crate::plane::PlaneRegionMut;
use vstd::prelude::*;

verus! {

/// Whether `now` is `before` with `v` at its beginning.
pub open spec fn starts_with<T>(before: Seq<T>, now: Seq<T>, v: Seq<T>) -> bool {
    &&& now.len() == before.len()
    &&& forall|i: int| 0 <= i < v.len() ==> #[trigger] now[i] == v[i]
    &&& forall|i: int| v.len() <= i < before.len() ==> #[trigger] now[i] == before[i]
}

/// Puts values at the beginning of a slice.
pub(crate) fn store_front<T: Copy>(dst: &mut [T], v: &Vec<T>)
    requires
        v@.len() <= old(dst)@.len(),
    ensures
        starts_with(old(dst)@, final(dst)@, v@),
{
    let ghost before = dst@;
    let n: usize = v.len();
    let mut i: usize = 0;
    while i < n
        invariant
            i <= n,
            n == v@.len(),
            n <= before.len(),
            dst@.len() == before.len(),
            forall|k: int| 0 <= k < i ==> #[trigger] dst@[k] == v@[k],
            forall|k: int| i <= k < before.len() ==> #[trigger] dst@[k] == before[k],
        decreases n - i,
    {
        dst[i] = v[i];
        i += 1;
    }
}

/// The samples of a block of `w` columns, row after row.
pub open spec fn block_of<T: Sample>(v: Seq<T>, w: int) -> spec_fn(int, int) -> int {
    |y: int, x: int| v[y * w + x].val()
}

/// Writes a block, row after row.
pub(crate) fn store_block<T: Sample>(
    dst: &mut PlaneRegionMut<'_, T>,
    v: &Vec<T>,
    w: usize,
    h: usize,
)
    requires
        w * h <= v@.len(),
        old(dst).holds(w as int, h as int),
    ensures
        final(dst).wrote(*old(dst), w as int, h as int, block_of(v@, w as int)),
        final(final(dst).data)@ == final(old(dst).data)@,
{
    let ghost f = block_of(v@, w as int);
    let ghost before = *dst;
    let ghost storage = final(dst.data)@;
    let len: usize = v.len();
    let mut start: usize = 0;
    let mut y: usize = 0;
    while y < h
        invariant
            y <= h,
            start == y * w,
            len == v@.len(),
            w * h <= v@.len(),
            f == block_of(v@, w as int),
            before.holds(w as int, h as int),
            dst.progress(before, w as int, y as int, 0, f),
            final(dst.data)@ == storage,
        decreases h - y,
    {
        proof {
            before.lemma_holds_fewer(w as int, h as int, y + 1);
            assert(y * w + w == (y + 1) * w && (y + 1) * w <= w * h) by (nonlinear_arith)
                requires
                    0 <= y < h,
                    0 <= w,
            ;
        }
        let row = vstd::slice::slice_subrange(v.as_slice(), start, start + w);
        dst.paint_row(y, w, row, Ghost(before), Ghost(f));
        start = start + w;
        y += 1;
    }
    proof {
        dst.lemma_done(before, w as int, h as int, f);
    }
}

} // verus!
