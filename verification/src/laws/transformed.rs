//! What holds of transformed differences.

use crate::dist::satd::{
    diffs, hadamard, hadamard_magnitudes, lemma_hadamard4, lemma_hadamard8, lemma_hadamard_eq,
    row_coeffs, satd, satd_cell, satd_cells, satd_chunk, satd_chunks, satd_square,
};
use crate::dist::{abs_diffs, sad, shifted};
use crate::laws::distance::moved;
use crate::laws::numbers::{
    lemma_block_cut_behind, lemma_block_cut_below, lemma_smallest_blocks, lemma_sum_steps,
};
use crate::laws::planes::lemma_windows_move;
use crate::math::min_int;
use crate::pixel::Sample;
use crate::plane::PlaneRegion;
use crate::sums::{block_sum, lemma_block_sum_eq, row_of, sum};
use vstd::arithmetic::div_mod::lemma_fundamental_div_mod;
use vstd::prelude::*;

verus! {

/// Whether four values are made of four others by sums and differences in pairs, and of these
/// again.
pub open spec fn sums_and_differences4(f: spec_fn(int) -> int, g: spec_fn(int) -> int) -> bool {
    &&& g(0) == (f(0) + f(1)) + (f(2) + f(3))
    &&& g(1) == (f(0) - f(1)) + (f(2) - f(3))
    &&& g(2) == (f(0) + f(1)) - (f(2) + f(3))
    &&& g(3) == (f(0) - f(1)) - (f(2) - f(3))
}

/// Whether eight values are made of eight others by sums and differences in pairs, of these again
/// and of those once more.
pub open spec fn sums_and_differences8(f: spec_fn(int) -> int, g: spec_fn(int) -> int) -> bool {
    &&& g(0) == ((f(0) + f(1)) + (f(2) + f(3))) + ((f(4) + f(5)) + (f(6) + f(7)))
    &&& g(1) == ((f(0) - f(1)) + (f(2) - f(3))) + ((f(4) - f(5)) + (f(6) - f(7)))
    &&& g(2) == ((f(0) + f(1)) - (f(2) + f(3))) + ((f(4) + f(5)) - (f(6) + f(7)))
    &&& g(3) == ((f(0) - f(1)) - (f(2) - f(3))) + ((f(4) - f(5)) - (f(6) - f(7)))
    &&& g(4) == ((f(0) + f(1)) + (f(2) + f(3))) - ((f(4) + f(5)) + (f(6) + f(7)))
    &&& g(5) == ((f(0) - f(1)) + (f(2) - f(3))) - ((f(4) - f(5)) + (f(6) - f(7)))
    &&& g(6) == ((f(0) + f(1)) - (f(2) + f(3))) - ((f(4) + f(5)) - (f(6) + f(7)))
    &&& g(7) == ((f(0) - f(1)) - (f(2) - f(3))) - ((f(4) - f(5)) - (f(6) - f(7)))
}

/// Sums and differences of `n` values, 4 or 8.
pub open spec fn sums_and_differences(
    f: spec_fn(int) -> int,
    g: spec_fn(int) -> int,
    n: int,
) -> bool {
    if n == 4 {
        sums_and_differences4(f, g)
    } else {
        sums_and_differences8(f, g)
    }
}

/// Sums and differences are the coefficients.
proof fn lemma_coefficients(f: spec_fn(int) -> int, g: spec_fn(int) -> int, n: int, i: int)
    requires
        n == 4 || n == 8,
        0 <= i < n,
        sums_and_differences(f, g, n),
    ensures
        hadamard(f, n, i) == g(i),
{
    if n == 4 {
        lemma_hadamard4(f);
    } else {
        lemma_hadamard8(f);
    }
}

/// The transformed distance of two squares of side 4 or 8 is made of their differences by sums and
/// differences along every row, and then along every column: it is the sum of the magnitudes of
/// the results, over the side, rounded to the nearest and halves up.
///
/// Here `d` holds the differences, `across` the results along rows, and `down` those along columns,
/// the columns of `across` being its rows.
pub proof fn lemma_satd_of_squares<T: Sample>(
    src: PlaneRegion<'_, T>,
    dst: PlaneRegion<'_, T>,
    n: int,
    d: spec_fn(int, int) -> int,
    across: spec_fn(int, int) -> int,
    down: spec_fn(int, int) -> int,
    magnitudes: spec_fn(int, int) -> int,
)
    requires
        n == 4 || n == 8,
        forall|y: int, x: int|
            0 <= y < n && 0 <= x < n ==> #[trigger] d(y, x) == src.data@[src.origin + y * src.stride
                + x].val() - dst.data@[dst.origin + y * dst.stride + x].val(),
        forall|y: int|
            0 <= y < n ==> sums_and_differences(
                #[trigger] row_of(d, y),
                row_of(across, y),
                n,
            ),
        forall|i: int|
            0 <= i < n ==> sums_and_differences(
                |y: int| across(y, i),
                #[trigger] row_of(down, i),
                n,
            ),
        forall|i: int, j: int|
            0 <= i < n && 0 <= j < n ==> #[trigger] magnitudes(i, j) >= 0 && (magnitudes(i, j)
                == down(i, j) || magnitudes(i, j) == -down(i, j)),
    ensures
        n * satd(src, dst, n, n) <= block_sum(magnitudes, n, n) + n / 2 < n * (satd(
            src,
            dst,
            n,
            n,
        ) + 1),
{
    let e = shifted(diffs(src, dst), 0, 0);
    let m = hadamard_magnitudes(e, n);
    assert forall|i: int, j: int| 0 <= i < n && 0 <= j < n implies #[trigger] m(i, j) == magnitudes(
        i,
        j,
    ) by {
        let c = row_coeffs(e, n, i);
        let s = |y: int| across(y, i);
        assert forall|y: int| 0 <= y < n implies #[trigger] c(y) == s(y) by {
            let r = row_of(d, y);
            lemma_coefficients(r, row_of(across, y), n, i);
            assert forall|x: int| 0 <= x < n implies #[trigger] row_of(e, y)(x) == r(x) by {
                assert(d(y, x) == e(y, x));
            }
            lemma_hadamard_eq(row_of(e, y), r, n, i);
        }
        lemma_hadamard_eq(c, s, n, j);
        let t = row_of(down, i);
        assert(sums_and_differences(s, t, n));
        lemma_coefficients(s, t, n, j);
        assert(t(j) == down(i, j));
        assert(magnitudes(i, j) >= 0);
    }
    lemma_block_sum_eq(m, magnitudes, n, n);
    let total = block_sum(magnitudes, n, n);
    let r = (total + n / 2) / n;
    assert(satd_square(src, dst, 0, 0, n) == r);
    lemma_fundamental_div_mod(total + n / 2, n);
    assert(n * (r + 1) == n * r + n) by (nonlinear_arith);
    assert(satd(src, dst, n, n) == r) by {
        if n == 8 {
            let f = satd_chunks(src, dst, n, n);
            lemma_smallest_blocks(f, 1);
            assert(f(0, 0) == r);
        } else {
            let f = satd_cells(src, dst, n, n, 0, 0);
            lemma_smallest_blocks(f, 1);
            assert(f(0, 0) == r);
        }
    }
}

/// Blocks too small for a square are at their plain distance.
pub proof fn lemma_satd_of_small_blocks<T: Sample>(
    src: PlaneRegion<'_, T>,
    dst: PlaneRegion<'_, T>,
    w: int,
    h: int,
)
    requires
        1 <= w <= 4,
        1 <= h <= 4,
        w < 4 || h < 4,
    ensures
        satd(src, dst, w, h) == sad(src, dst, w, h),
{
    let f = satd_cells(src, dst, w, h, 0, 0);
    lemma_smallest_blocks(f, 1);
    assert(f(0, 0) == satd_cell(src, dst, w, h, 0, 0));
    lemma_block_sum_eq(shifted(abs_diffs(src, dst), 0, 0), abs_diffs(src, dst), w, h);
}

/// Squares of windows further on are squares further on.
proof fn lemma_moved_square<T: Sample>(
    src: PlaneRegion<'_, T>,
    dst: PlaneRegion<'_, T>,
    src2: PlaneRegion<'_, T>,
    dst2: PlaneRegion<'_, T>,
    rows: int,
    columns: int,
    y0: int,
    x0: int,
    n: int,
)
    requires
        moved(src, src2, rows, columns),
        moved(dst, dst2, rows, columns),
    ensures
        satd_square(src2, dst2, y0, x0, n) == satd_square(src, dst, rows + y0, columns + x0, n),
        shifted(abs_diffs(src2, dst2), y0, x0) == shifted(
            abs_diffs(src, dst),
            rows + y0,
            columns + x0,
        ),
{
    assert forall|y: int, x: int| #[trigger] src2.at(y, x) == src.at(rows + y, columns + x) by {
        lemma_windows_move(src, src2, rows, columns, y, x);
    }
    assert forall|y: int, x: int| #[trigger] dst2.at(y, x) == dst.at(rows + y, columns + x) by {
        lemma_windows_move(dst, dst2, rows, columns, y, x);
    }
    assert forall|y: int, x: int|
        #![trigger src2.at(y0 + y, x0 + x)]
        src2.at(y0 + y, x0 + x) == src.at(rows + y0 + y, columns + x0 + x) by {
        assert(rows + y0 + y == rows + (y0 + y) && columns + x0 + x == columns + (x0 + x));
    }
    assert(shifted(diffs(src2, dst2), y0, x0) =~= shifted(
        diffs(src, dst),
        rows + y0,
        columns + x0,
    ));
    assert(shifted(abs_diffs(src2, dst2), y0, x0) =~= shifted(
        abs_diffs(src, dst),
        rows + y0,
        columns + x0,
    ));
}

/// Cells of windows further on are cells further on.
proof fn lemma_moved_cells<T: Sample>(
    src: PlaneRegion<'_, T>,
    dst: PlaneRegion<'_, T>,
    src2: PlaneRegion<'_, T>,
    dst2: PlaneRegion<'_, T>,
    w: int,
    h: int,
    rows: int,
    columns: int,
    y0: int,
    x0: int,
    i: int,
    j: int,
)
    requires
        moved(src, src2, rows, columns),
        moved(dst, dst2, rows, columns),
    ensures
        satd_cells(src2, dst2, w - columns, h - rows, y0, x0)(i, j) == satd_cells(
            src,
            dst,
            w,
            h,
            rows + y0,
            columns + x0,
        )(i, j),
{
    lemma_moved_square(src, dst, src2, dst2, rows, columns, y0 + 4 * i, x0 + 4 * j, 4);
    assert(rows + (y0 + 4 * i) == rows + y0 + 4 * i);
    assert(columns + (x0 + 4 * j) == columns + x0 + 4 * j);
}

/// Chunks of windows further on are chunks further on.
proof fn lemma_moved_chunk<T: Sample>(
    src: PlaneRegion<'_, T>,
    dst: PlaneRegion<'_, T>,
    src2: PlaneRegion<'_, T>,
    dst2: PlaneRegion<'_, T>,
    w: int,
    h: int,
    rows: int,
    columns: int,
    y0: int,
    x0: int,
)
    requires
        moved(src, src2, rows, columns),
        moved(dst, dst2, rows, columns),
    ensures
        satd_chunk(src2, dst2, w - columns, h - rows, y0, x0) == satd_chunk(
            src,
            dst,
            w,
            h,
            rows + y0,
            columns + x0,
        ),
{
    lemma_moved_square(src, dst, src2, dst2, rows, columns, y0, x0, 8);
    let f = satd_cells(src2, dst2, w - columns, h - rows, y0, x0);
    let g = satd_cells(src, dst, w, h, rows + y0, columns + x0);
    let cols = (min_int(w - columns - x0, 8) + 3) / 4;
    let lines = (min_int(h - rows - y0, 8) + 3) / 4;
    assert forall|i: int, j: int| 0 <= i < lines && 0 <= j < cols implies #[trigger] f(i, j) == g(
        i,
        j,
    ) by {
        lemma_moved_cells(src, dst, src2, dst2, w, h, rows, columns, y0, x0, i, j);
    }
    lemma_block_sum_eq(f, g, cols, lines);
}

/// A chunk that a block's left or upper part holds whole is the same chunk there.
proof fn lemma_chunk_of_part<T: Sample>(
    src: PlaneRegion<'_, T>,
    dst: PlaneRegion<'_, T>,
    w: int,
    h: int,
    pw: int,
    ph: int,
    y0: int,
    x0: int,
)
    requires
        x0 + 8 <= pw <= w || pw == w,
        y0 + 8 <= ph <= h || ph == h,
    ensures
        satd_chunk(src, dst, pw, ph, y0, x0) == satd_chunk(src, dst, w, h, y0, x0),
{
    let f = satd_cells(src, dst, pw, ph, y0, x0);
    let g = satd_cells(src, dst, w, h, y0, x0);
    let cols = (min_int(w - x0, 8) + 3) / 4;
    let lines = (min_int(h - y0, 8) + 3) / 4;
    assert forall|i: int, j: int| 0 <= i < lines && 0 <= j < cols implies #[trigger] f(i, j) == g(
        i,
        j,
    ) by {}
    lemma_block_sum_eq(f, g, cols, lines);
}

/// A column of chunks too narrow for a square of side 8 is made of its cells.
proof fn lemma_narrow_column<T: Sample>(
    src: PlaneRegion<'_, T>,
    dst: PlaneRegion<'_, T>,
    w: int,
    h: int,
    k: int,
)
    requires
        0 < w < 8,
        0 <= k <= (h + 7) / 8,
        0 <= h,
    ensures
        block_sum(satd_chunks(src, dst, w, h), 1, k) == block_sum(
            satd_cells(src, dst, w, h, 0, 0),
            (w + 3) / 4,
            min_int(2 * k, (h + 3) / 4),
        ),
    decreases k,
{
    let f = satd_chunks(src, dst, w, h);
    let g = satd_cells(src, dst, w, h, 0, 0);
    if k > 0 {
        lemma_narrow_column(src, dst, w, h, k - 1);
        let y0 = 8 * (k - 1);
        let lower = satd_cells(src, dst, w, h, y0, 0);
        let lines = (min_int(h - y0, 8) + 3) / 4;
        assert forall|i: int, j: int| 0 <= i < lines && 0 <= j < (w + 3) / 4 implies #[trigger] lower(
            i,
            j,
        ) == g(2 * (k - 1) + i, j) by {
            assert(y0 + 4 * i == 0 + 4 * (2 * (k - 1) + i));
        }
        lemma_block_cut_below(g, lower, (w + 3) / 4, 2 * (k - 1), lines);
        let r = row_of(f, k - 1);
        assert(sum(r, 1) == f(k - 1, 0)) by {
            lemma_sum_steps(r, 0);
        }
        assert(f(k - 1, 0) == satd_chunk(src, dst, w, h, y0, 0));
    }
}

/// A row of chunks too low for a square of side 8 is made of its cells.
proof fn lemma_low_row<T: Sample>(
    src: PlaneRegion<'_, T>,
    dst: PlaneRegion<'_, T>,
    w: int,
    h: int,
    k: int,
)
    requires
        0 < h < 8,
        0 <= k <= (w + 7) / 8,
        0 <= w,
    ensures
        sum(row_of(satd_chunks(src, dst, w, h), 0), k) == block_sum(
            satd_cells(src, dst, w, h, 0, 0),
            min_int(2 * k, (w + 3) / 4),
            (h + 3) / 4,
        ),
    decreases k,
{
    let f = satd_chunks(src, dst, w, h);
    let g = satd_cells(src, dst, w, h, 0, 0);
    if k > 0 {
        lemma_low_row(src, dst, w, h, k - 1);
        let x0 = 8 * (k - 1);
        let right = satd_cells(src, dst, w, h, 0, x0);
        let cols = (min_int(w - x0, 8) + 3) / 4;
        assert forall|i: int, j: int| 0 <= i < (h + 3) / 4 && 0 <= j < cols implies #[trigger] right(
            i,
            j,
        ) == g(i, 2 * (k - 1) + j) by {
            assert(x0 + 4 * j == 0 + 4 * (2 * (k - 1) + j));
        }
        lemma_block_cut_behind(g, right, 2 * (k - 1), cols, (h + 3) / 4);
        lemma_sum_steps(row_of(f, 0), k - 1);
        assert(row_of(f, 0)(k - 1) == satd_chunk(src, dst, w, h, 0, x0));
    } else {
        lemma_smallest_blocks(g, (h + 3) / 4);
    }
}

/// The transformed distance of two blocks is that of their left parts and that of their right
/// parts. They can be cut behind any multiple of eight columns; blocks of less than eight rows or
/// columns behind any multiple of four.
#[verifier::spinoff_prover]
#[verifier::rlimit(40)]
pub proof fn lemma_satd_of_columns<T: Sample>(
    src: PlaneRegion<'_, T>,
    dst: PlaneRegion<'_, T>,
    src2: PlaneRegion<'_, T>,
    dst2: PlaneRegion<'_, T>,
    m: int,
    n: int,
    h: int,
)
    requires
        0 < m,
        0 < n,
        0 < h,
        m % 8 == 0 || (m % 4 == 0 && (m + n < 8 || h < 8)),
        moved(src, src2, 0, m),
        moved(dst, dst2, 0, m),
    ensures
        satd(src, dst, m + n, h) == satd(src, dst, m, h) + satd(src2, dst2, n, h),
{
    let w = m + n;
    if w >= 8 && h >= 8 {
        let f = satd_chunks(src, dst, w, h);
        let left = satd_chunks(src, dst, m, h);
        let right = satd_chunks(src2, dst2, n, h);
        let k = m / 8;
        let lines = (h + 7) / 8;
        assert forall|i: int, j: int|
            0 <= i < lines && 0 <= j < (n + 7) / 8 implies #[trigger] right(i, j) == f(
            i,
            k + j,
        ) by {
            lemma_moved_chunk(src, dst, src2, dst2, w, h, 0, m, 8 * i, 8 * j);
            assert(m + 8 * j == 8 * (k + j));
        }
        assert forall|i: int, j: int| 0 <= i < lines && 0 <= j < k implies #[trigger] left(i, j)
            == f(i, j) by {
            lemma_chunk_of_part(src, dst, w, h, m, h, 8 * i, 8 * j);
        }
        lemma_block_sum_eq(left, f, k, lines);
        lemma_block_cut_behind(f, right, k, (n + 7) / 8, lines);
        if n < 8 {
            lemma_narrow_column(src2, dst2, n, h, lines);
        }
    } else {
        let f = satd_cells(src, dst, w, h, 0, 0);
        let left = satd_cells(src, dst, m, h, 0, 0);
        let right = satd_cells(src2, dst2, n, h, 0, 0);
        let k = m / 4;
        let lines = (h + 3) / 4;
        assert forall|i: int, j: int|
            0 <= i < lines && 0 <= j < (n + 3) / 4 implies #[trigger] right(i, j) == f(
            i,
            k + j,
        ) by {
            lemma_moved_cells(src, dst, src2, dst2, w, h, 0, m, 0, 0, i, j);
            assert(0 + m + 4 * j == 0 + 4 * (k + j));
        }
        assert forall|i: int, j: int| 0 <= i < lines && 0 <= j < k implies #[trigger] left(i, j)
            == f(i, j) by {}
        lemma_block_sum_eq(left, f, k, lines);
        lemma_block_cut_behind(f, right, k, (n + 3) / 4, lines);
    }
}

/// The transformed distance of two blocks is that of their upper parts and that of their lower
/// parts. They can be cut below any multiple of eight rows; blocks of less than eight rows or
/// columns below any multiple of four.
#[verifier::spinoff_prover]
#[verifier::rlimit(40)]
pub proof fn lemma_satd_of_rows<T: Sample>(
    src: PlaneRegion<'_, T>,
    dst: PlaneRegion<'_, T>,
    src2: PlaneRegion<'_, T>,
    dst2: PlaneRegion<'_, T>,
    w: int,
    m: int,
    n: int,
)
    requires
        0 < m,
        0 < n,
        0 < w,
        m % 8 == 0 || (m % 4 == 0 && (m + n < 8 || w < 8)),
        moved(src, src2, m, 0),
        moved(dst, dst2, m, 0),
    ensures
        satd(src, dst, w, m + n) == satd(src, dst, w, m) + satd(src2, dst2, w, n),
{
    let h = m + n;
    if w >= 8 && h >= 8 {
        let f = satd_chunks(src, dst, w, h);
        let upper = satd_chunks(src, dst, w, m);
        let lower = satd_chunks(src2, dst2, w, n);
        let k = m / 8;
        let cols = (w + 7) / 8;
        assert forall|i: int, j: int|
            0 <= i < (n + 7) / 8 && 0 <= j < cols implies #[trigger] lower(i, j) == f(
            k + i,
            j,
        ) by {
            lemma_moved_chunk(src, dst, src2, dst2, w, h, m, 0, 8 * i, 8 * j);
            assert(m + 8 * i == 8 * (k + i));
        }
        assert forall|i: int, j: int| 0 <= i < k && 0 <= j < cols implies #[trigger] upper(i, j)
            == f(i, j) by {
            lemma_chunk_of_part(src, dst, w, h, w, m, 8 * i, 8 * j);
        }
        lemma_block_sum_eq(upper, f, cols, k);
        lemma_block_cut_below(f, lower, cols, k, (n + 7) / 8);
        if n < 8 {
            lemma_low_row(src2, dst2, w, n, cols);
            lemma_smallest_blocks(lower, cols);
            assert(block_sum(lower, cols, 1) == block_sum(lower, cols, 0) + sum(
                row_of(lower, 0),
                cols,
            ));
        }
    } else {
        let f = satd_cells(src, dst, w, h, 0, 0);
        let upper = satd_cells(src, dst, w, m, 0, 0);
        let lower = satd_cells(src2, dst2, w, n, 0, 0);
        let k = m / 4;
        let cols = (w + 3) / 4;
        assert forall|i: int, j: int|
            0 <= i < (n + 3) / 4 && 0 <= j < cols implies #[trigger] lower(i, j) == f(
            k + i,
            j,
        ) by {
            lemma_moved_cells(src, dst, src2, dst2, w, h, m, 0, 0, 0, i, j);
            assert(0 + m + 4 * i == 0 + 4 * (k + i));
        }
        assert forall|i: int, j: int| 0 <= i < k && 0 <= j < cols implies #[trigger] upper(i, j)
            == f(i, j) by {}
        lemma_block_sum_eq(upper, f, cols, k);
        lemma_block_cut_below(f, lower, cols, k, (n + 3) / 4);
    }
}

} // verus!
