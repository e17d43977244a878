//! Sums of absolute Hadamard-transformed differences.

use crate::dist::{abs_diffs, sad_block_scalar, same_samples, shifted};
use crate::math::{abs_int, min_int, min_usize, unsigned_abs_i32};
use crate::pixel::Sample;
use crate::plane::PlaneRegion;
use crate::sums::{
    block_sum, lemma_block_sum_bound, lemma_block_sum_entry, lemma_block_sum_eq,
    lemma_block_sum_mono, lemma_block_sum_nonneg, lemma_block_sum_rows, row_of, sum,
};
use vstd::prelude::*;

verus! {

/// Bit `k` of `i`, for `k` from 0 to 2.
pub open spec fn bit(i: int, k: int) -> int {
    if k == 0 {
        i % 2
    } else if k == 1 {
        (i / 2) % 2
    } else {
        (i / 4) % 2
    }
}

/// Whether the Hadamard matrix has a minus in row `i`, column `j`: whether the numbers `i` and
/// `j` have an odd number of set bits in common.
pub open spec fn negative(i: int, j: int) -> bool {
    (bit(i, 0) * bit(j, 0) + bit(i, 1) * bit(j, 1) + bit(i, 2) * bit(j, 2)) % 2 == 1
}

/// The terms of coefficient `i` of the Hadamard transform of `f`.
pub open spec fn hadamard_terms(f: spec_fn(int) -> int, i: int) -> spec_fn(int) -> int {
    |j: int|
        if negative(i, j) {
            -f(j)
        } else {
            f(j)
        }
}

/// Coefficient `i` of the Hadamard transform of the first `n` values of `f`.
pub open spec fn hadamard(f: spec_fn(int) -> int, n: int, i: int) -> int {
    sum(hadamard_terms(f, i), n)
}

/// The Hadamard transform of the first `n` values of `f`.
pub open spec fn hadamard_of(f: spec_fn(int) -> int, n: int) -> spec_fn(int) -> int {
    |i: int| hadamard(f, n, i)
}

/// Coefficient `i` of each row of a table.
pub open spec fn row_coeffs(d: spec_fn(int, int) -> int, n: int, i: int) -> spec_fn(int) -> int {
    |y: int| hadamard(row_of(d, y), n, i)
}

/// The magnitudes of the two-dimensional Hadamard transform of `n` rows and columns of a table.
/// The first index is the horizontal frequency, the second the vertical one.
pub open spec fn hadamard_magnitudes(
    d: spec_fn(int, int) -> int,
    n: int,
) -> spec_fn(int, int) -> int {
    |i: int, j: int| abs_int(hadamard(row_coeffs(d, n, i), n, j))
}

/// The differences of the samples of two blocks.
pub open spec fn diffs<T: Sample>(
    src: PlaneRegion<'_, T>,
    dst: PlaneRegion<'_, T>,
) -> spec_fn(int, int) -> int {
    |y: int, x: int| src.at(y, x) - dst.at(y, x)
}

/// The normalized sum of absolute transformed differences of the square of side `n`, 4 or 8, whose
/// top left sample is in row `y0`, column `x0`.
pub open spec fn satd_square<T: Sample>(
    src: PlaneRegion<'_, T>,
    dst: PlaneRegion<'_, T>,
    y0: int,
    x0: int,
    n: int,
) -> int {
    (block_sum(hadamard_magnitudes(shifted(diffs(src, dst), y0, x0), n), n, n) + n / 2) / n
}

/// A cell of side 4 of a block of `w` columns and `h` rows: its transformed differences where the
/// block holds all of it, and else the plain differences of the part that the block holds.
pub open spec fn satd_cell<T: Sample>(
    src: PlaneRegion<'_, T>,
    dst: PlaneRegion<'_, T>,
    w: int,
    h: int,
    y0: int,
    x0: int,
) -> int {
    if x0 + 4 <= w && y0 + 4 <= h {
        satd_square(src, dst, y0, x0, 4)
    } else {
        block_sum(
            shifted(abs_diffs(src, dst), y0, x0),
            min_int(w - x0, 4),
            min_int(h - y0, 4),
        )
    }
}

/// A chunk of side 8 of a block: its transformed differences where the block holds all of it, and
/// else its cells.
pub open spec fn satd_chunk<T: Sample>(
    src: PlaneRegion<'_, T>,
    dst: PlaneRegion<'_, T>,
    w: int,
    h: int,
    y0: int,
    x0: int,
) -> int {
    if x0 + 8 <= w && y0 + 8 <= h {
        satd_square(src, dst, y0, x0, 8)
    } else {
        block_sum(
            satd_cells(src, dst, w, h, y0, x0),
            (min_int(w - x0, 8) + 3) / 4,
            (min_int(h - y0, 8) + 3) / 4,
        )
    }
}

/// The chunks of a block.
pub open spec fn satd_chunks<T: Sample>(
    src: PlaneRegion<'_, T>,
    dst: PlaneRegion<'_, T>,
    w: int,
    h: int,
) -> spec_fn(int, int) -> int {
    |i: int, j: int| satd_chunk(src, dst, w, h, 8 * i, 8 * j)
}

/// The cells of a block, from row `y0` and column `x0` on.
pub open spec fn satd_cells<T: Sample>(
    src: PlaneRegion<'_, T>,
    dst: PlaneRegion<'_, T>,
    w: int,
    h: int,
    y0: int,
    x0: int,
) -> spec_fn(int, int) -> int {
    |i: int, j: int| satd_cell(src, dst, w, h, y0 + 4 * i, x0 + 4 * j)
}

/// The sum of absolute transformed differences of two blocks of `w` columns and `h` rows: of
/// their chunks of side 8 where both dimensions are at least 8, and else of their cells of side 4.
pub open spec fn satd<T: Sample>(
    src: PlaneRegion<'_, T>,
    dst: PlaneRegion<'_, T>,
    w: int,
    h: int,
) -> int {
    if w >= 8 && h >= 8 {
        block_sum(satd_chunks(src, dst, w, h), (w + 7) / 8, (h + 7) / 8)
    } else {
        block_sum(satd_cells(src, dst, w, h, 0, 0), (w + 3) / 4, (h + 3) / 4)
    }
}

/// Four values under the Hadamard transform.
fn hadamard4_1d(a: i32, b: i32, c: i32, d: i32) -> (r: (i32, i32, i32, i32))
    requires
        -0x0fff_ffff <= a <= 0x0fff_ffff,
        -0x0fff_ffff <= b <= 0x0fff_ffff,
        -0x0fff_ffff <= c <= 0x0fff_ffff,
        -0x0fff_ffff <= d <= 0x0fff_ffff,
    ensures
        r.0 == a + b + c + d,
        r.1 == a - b + c - d,
        r.2 == a + b - c - d,
        r.3 == a - b - c + d,
{
    let t0: i32 = a + b;
    let t1: i32 = a - b;
    let t2: i32 = c + d;
    let t3: i32 = c - d;
    (t0 + t2, t1 + t3, t0 - t2, t1 - t3)
}

/// Eight values under the Hadamard transform.
pub fn hadamard8_1d(x: &[i32; 8]) -> (r: [i32; 8])
    requires
        forall|k: int| 0 <= k < 8 ==> -0x0fff_ffff <= #[trigger] x[k] <= 0x0fff_ffff,
    ensures
        forall|i: int| 0 <= i < 8 ==> #[trigger] r[i] == hadamard(values(x@), 8, i),
{
    let (t0, t1, t2, t3) = hadamard4_1d(x[0], x[1], x[2], x[3]);
    let (t4, t5, t6, t7) = hadamard4_1d(x[4], x[5], x[6], x[7]);
    let r = [t0 + t4, t1 + t5, t2 + t6, t3 + t7, t0 - t4, t1 - t5, t2 - t6, t3 - t7];
    proof {
        lemma_hadamard8(values(x@));
    }
    r
}

/// The values of a sequence.
pub open spec fn values(s: Seq<i32>) -> spec_fn(int) -> int {
    |k: int| s[k] as int
}

/// The eight coefficients of eight values.
pub proof fn lemma_hadamard8(f: spec_fn(int) -> int)
    ensures
        hadamard(f, 8, 0) == f(0) + f(1) + f(2) + f(3) + f(4) + f(5) + f(6) + f(7),
        hadamard(f, 8, 1) == f(0) - f(1) + f(2) - f(3) + f(4) - f(5) + f(6) - f(7),
        hadamard(f, 8, 2) == f(0) + f(1) - f(2) - f(3) + f(4) + f(5) - f(6) - f(7),
        hadamard(f, 8, 3) == f(0) - f(1) - f(2) + f(3) + f(4) - f(5) - f(6) + f(7),
        hadamard(f, 8, 4) == f(0) + f(1) + f(2) + f(3) - f(4) - f(5) - f(6) - f(7),
        hadamard(f, 8, 5) == f(0) - f(1) + f(2) - f(3) - f(4) + f(5) - f(6) + f(7),
        hadamard(f, 8, 6) == f(0) + f(1) - f(2) - f(3) - f(4) - f(5) + f(6) + f(7),
        hadamard(f, 8, 7) == f(0) - f(1) - f(2) + f(3) - f(4) + f(5) + f(6) - f(7),
{
    reveal_with_fuel(sum, 9);
    assert(hadamard(f, 8, 0) == f(0) + f(1) + f(2) + f(3) + f(4) + f(5) + f(6) + f(7));
    assert(hadamard(f, 8, 1) == f(0) - f(1) + f(2) - f(3) + f(4) - f(5) + f(6) - f(7));
    assert(hadamard(f, 8, 2) == f(0) + f(1) - f(2) - f(3) + f(4) + f(5) - f(6) - f(7));
    assert(hadamard(f, 8, 3) == f(0) - f(1) - f(2) + f(3) + f(4) - f(5) - f(6) + f(7));
    assert(hadamard(f, 8, 4) == f(0) + f(1) + f(2) + f(3) - f(4) - f(5) - f(6) - f(7));
    assert(hadamard(f, 8, 5) == f(0) - f(1) + f(2) - f(3) - f(4) + f(5) - f(6) + f(7));
    assert(hadamard(f, 8, 6) == f(0) + f(1) - f(2) - f(3) - f(4) - f(5) + f(6) + f(7));
    assert(hadamard(f, 8, 7) == f(0) - f(1) - f(2) + f(3) - f(4) + f(5) + f(6) - f(7));
}

/// The four coefficients of four values.
pub proof fn lemma_hadamard4(f: spec_fn(int) -> int)
    ensures
        hadamard(f, 4, 0) == f(0) + f(1) + f(2) + f(3),
        hadamard(f, 4, 1) == f(0) - f(1) + f(2) - f(3),
        hadamard(f, 4, 2) == f(0) + f(1) - f(2) - f(3),
        hadamard(f, 4, 3) == f(0) - f(1) - f(2) + f(3),
{
    reveal_with_fuel(sum, 5);
    assert(hadamard(f, 4, 0) == f(0) + f(1) + f(2) + f(3));
    assert(hadamard(f, 4, 1) == f(0) - f(1) + f(2) - f(3));
    assert(hadamard(f, 4, 2) == f(0) + f(1) - f(2) - f(3));
    assert(hadamard(f, 4, 3) == f(0) - f(1) - f(2) + f(3));
}

/// Equal values have equal coefficients.
pub proof fn lemma_hadamard_eq(f: spec_fn(int) -> int, g: spec_fn(int) -> int, n: int, i: int)
    requires
        forall|k: int| 0 <= k < n ==> #[trigger] f(k) == g(k),
    ensures
        hadamard(f, n, i) == hadamard(g, n, i),
{
    crate::sums::lemma_sum_eq(hadamard_terms(f, i), hadamard_terms(g, i), n);
}

/// A coefficient of `n` values is at most `n` times as large as these.
proof fn lemma_hadamard_bound(f: spec_fn(int) -> int, n: int, i: int, b: int)
    requires
        n >= 0,
        forall|k: int| 0 <= k < n ==> -b <= #[trigger] f(k) <= b,
    ensures
        -b * n <= hadamard(f, n, i) <= b * n,
{
    assert forall|k: int| 0 <= k < n implies -b <= #[trigger] hadamard_terms(f, i)(k) <= b by {
        assert(-b <= f(k) <= b);
    }
    crate::sums::lemma_sum_bounds(hadamard_terms(f, i), n, -b, b);
}

/// The differences of a square of side 4.
fn load_diffs4<T: Sample>(
    src: &PlaneRegion<'_, T>,
    dst: &PlaneRegion<'_, T>,
    y0: usize,
    x0: usize,
) -> (r: [[i32; 4]; 4])
    requires
        x0 + 4 <= usize::MAX,
        y0 + 4 <= usize::MAX,
        src.covers(x0 + 4, y0 + 4),
        dst.covers(x0 + 4, y0 + 4),
    ensures
        forall|y: int, x: int|
            0 <= y < 4 && 0 <= x < 4 ==> #[trigger] r[y][x] == shifted(
                diffs(*src, *dst),
                y0 as int,
                x0 as int,
            )(y, x),
        forall|y: int, x: int|
            0 <= y < 4 && 0 <= x < 4 ==> -0xffff <= #[trigger] r[y][x] <= 0xffff,
{
    let mut diff: [[i32; 4]; 4] = [[0; 4]; 4];
    let ghost d = shifted(diffs(*src, *dst), y0 as int, x0 as int);
    let mut y: usize = 0;
    while y < 4
        invariant
            y <= 4,
            x0 + 4 <= usize::MAX,
            y0 + 4 <= usize::MAX,
            src.covers(x0 + 4, y0 + 4),
            dst.covers(x0 + 4, y0 + 4),
            d == shifted(diffs(*src, *dst), y0 as int, x0 as int),
            forall|j: int, i: int|
                0 <= j < y && 0 <= i < 4 ==> #[trigger] diff[j][i] == d(j, i) && -0xffff <= diff[j][i]
                    <= 0xffff,
        decreases 4 - y,
    {
        proof {
            src.lemma_covers_fewer(x0 + 4, y0 + 4, y0 + y + 1);
            dst.lemma_covers_fewer(x0 + 4, y0 + 4, y0 + y + 1);
        }
        let s_row = src.row(y0 + y, x0 + 4);
        let d_row = dst.row(y0 + y, x0 + 4);
        let mut line: [i32; 4] = [0; 4];
        let mut x: usize = 0;
        while x < 4
            invariant
                x <= 4,
                y < 4,
                x0 + 4 <= usize::MAX,
                s_row@.len() == x0 + 4,
                d_row@.len() == x0 + 4,
                d == shifted(diffs(*src, *dst), y0 as int, x0 as int),
                forall|i: int|
                    0 <= i < x0 + 4 ==> (#[trigger] s_row@[i]).val() == src.at(y0 + y, i),
                forall|i: int|
                    0 <= i < x0 + 4 ==> (#[trigger] d_row@[i]).val() == dst.at(y0 + y, i),
                forall|i: int|
                    0 <= i < x ==> #[trigger] line[i] == d(y as int, i) && -0xffff <= line[i]
                        <= 0xffff,
            decreases 4 - x,
        {
            line[x] = s_row[x0 + x].to_i32() - d_row[x0 + x].to_i32();
            x += 1;
        }
        diff[y] = line;
        y += 1;
    }
    diff
}

/// The differences of a square of side 8.
fn load_diffs8<T: Sample>(
    src: &PlaneRegion<'_, T>,
    dst: &PlaneRegion<'_, T>,
    y0: usize,
    x0: usize,
) -> (r: [[i32; 8]; 8])
    requires
        x0 + 8 <= usize::MAX,
        y0 + 8 <= usize::MAX,
        src.covers(x0 + 8, y0 + 8),
        dst.covers(x0 + 8, y0 + 8),
    ensures
        forall|y: int, x: int|
            0 <= y < 8 && 0 <= x < 8 ==> #[trigger] r[y][x] == shifted(
                diffs(*src, *dst),
                y0 as int,
                x0 as int,
            )(y, x),
        forall|y: int, x: int|
            0 <= y < 8 && 0 <= x < 8 ==> -0xffff <= #[trigger] r[y][x] <= 0xffff,
{
    let mut diff: [[i32; 8]; 8] = [[0; 8]; 8];
    let ghost d = shifted(diffs(*src, *dst), y0 as int, x0 as int);
    let mut y: usize = 0;
    while y < 8
        invariant
            y <= 8,
            x0 + 8 <= usize::MAX,
            y0 + 8 <= usize::MAX,
            src.covers(x0 + 8, y0 + 8),
            dst.covers(x0 + 8, y0 + 8),
            d == shifted(diffs(*src, *dst), y0 as int, x0 as int),
            forall|j: int, i: int|
                0 <= j < y && 0 <= i < 8 ==> #[trigger] diff[j][i] == d(j, i) && -0xffff <= diff[j][i]
                    <= 0xffff,
        decreases 8 - y,
    {
        proof {
            src.lemma_covers_fewer(x0 + 8, y0 + 8, y0 + y + 1);
            dst.lemma_covers_fewer(x0 + 8, y0 + 8, y0 + y + 1);
        }
        let s_row = src.row(y0 + y, x0 + 8);
        let d_row = dst.row(y0 + y, x0 + 8);
        let mut line: [i32; 8] = [0; 8];
        let mut x: usize = 0;
        while x < 8
            invariant
                x <= 8,
                y < 8,
                x0 + 8 <= usize::MAX,
                s_row@.len() == x0 + 8,
                d_row@.len() == x0 + 8,
                d == shifted(diffs(*src, *dst), y0 as int, x0 as int),
                forall|i: int|
                    0 <= i < x0 + 8 ==> (#[trigger] s_row@[i]).val() == src.at(y0 + y, i),
                forall|i: int|
                    0 <= i < x0 + 8 ==> (#[trigger] d_row@[i]).val() == dst.at(y0 + y, i),
                forall|i: int|
                    0 <= i < x ==> #[trigger] line[i] == d(y as int, i) && -0xffff <= line[i]
                        <= 0xffff,
            decreases 8 - x,
        {
            line[x] = s_row[x0 + x].to_i32() - d_row[x0 + x].to_i32();
            x += 1;
        }
        diff[y] = line;
        y += 1;
    }
    diff
}

/// The normalized transformed differences of a square of side 4.
fn satd_4x4_simd128<T: Sample>(
    src: &PlaneRegion<'_, T>,
    dst: &PlaneRegion<'_, T>,
    y0: usize,
    x0: usize,
) -> (r: u32)
    requires
        x0 + 4 <= usize::MAX,
        y0 + 4 <= usize::MAX,
        src.covers(x0 + 4, y0 + 4),
        dst.covers(x0 + 4, y0 + 4),
    ensures
        r == satd_square(*src, *dst, y0 as int, x0 as int, 4),
{
    let ghost d = shifted(diffs(*src, *dst), y0 as int, x0 as int);
    let diff = load_diffs4(src, dst, y0, x0);
    // Horizontal transform
    let mut tmp: [[i32; 4]; 4] = [[0; 4]; 4];
    let mut y: usize = 0;
    while y < 4
        invariant
            y <= 4,
            forall|j: int, i: int|
                0 <= j < 4 && 0 <= i < 4 ==> #[trigger] diff[j][i] == d(j, i) && -0xffff
                    <= diff[j][i] <= 0xffff,
            forall|j: int, i: int|
                0 <= j < y && 0 <= i < 4 ==> #[trigger] tmp[j][i] == hadamard(row_of(d, j), 4, i)
                    && -0x4_0000 <= tmp[j][i] <= 0x4_0000,
        decreases 4 - y,
    {
        let (a, b, c, e) = hadamard4_1d(diff[y][0], diff[y][1], diff[y][2], diff[y][3]);
        proof {
            lemma_hadamard4(row_of(d, y as int));
            assert(diff[y as int][0] == row_of(d, y as int)(0));
            assert(diff[y as int][1] == row_of(d, y as int)(1));
            assert(diff[y as int][2] == row_of(d, y as int)(2));
            assert(diff[y as int][3] == row_of(d, y as int)(3));
        }
        tmp[y] = [a, b, c, e];
        y += 1;
    }
    // Vertical transform and the sum of the magnitudes
    let ghost m = hadamard_magnitudes(d, 4);
    let mut total: u32 = 0;
    let mut x: usize = 0;
    while x < 4
        invariant
            x <= 4,
            m == hadamard_magnitudes(d, 4),
            forall|j: int, i: int|
                0 <= j < 4 && 0 <= i < 4 ==> #[trigger] tmp[j][i] == hadamard(row_of(d, j), 4, i)
                    && -0x4_0000 <= tmp[j][i] <= 0x4_0000,
            total == block_sum(m, 4, x as int),
            total <= 0x40_0000 * x,
        decreases 4 - x,
    {
        let (a, b, c, e) = hadamard4_1d(tmp[0][x], tmp[1][x], tmp[2][x], tmp[3][x]);
        proof {
            let f = row_coeffs(d, 4, x as int);
            lemma_hadamard4(f);
            assert(tmp[0][x as int] == f(0));
            assert(tmp[1][x as int] == f(1));
            assert(tmp[2][x as int] == f(2));
            assert(tmp[3][x as int] == f(3));
            let g = row_of(m, x as int);
            assert(g(0) == abs_int(a as int) && g(1) == abs_int(b as int) && g(2) == abs_int(
                c as int,
            ) && g(3) == abs_int(e as int));
            assert(sum(g, 4) == g(0) + g(1) + g(2) + g(3)) by {
                reveal_with_fuel(sum, 5);
            }
        }
        total = total + (unsigned_abs_i32(a) + unsigned_abs_i32(b) + unsigned_abs_i32(c)
            + unsigned_abs_i32(e));
        x += 1;
    }
    (total + 2) / 4
}

/// The normalized transformed differences of a square of side 8.
fn satd_8x8_simd128<T: Sample>(
    src: &PlaneRegion<'_, T>,
    dst: &PlaneRegion<'_, T>,
    y0: usize,
    x0: usize,
) -> (r: u32)
    requires
        x0 + 8 <= usize::MAX,
        y0 + 8 <= usize::MAX,
        src.covers(x0 + 8, y0 + 8),
        dst.covers(x0 + 8, y0 + 8),
    ensures
        r == satd_square(*src, *dst, y0 as int, x0 as int, 8),
{
    let ghost d = shifted(diffs(*src, *dst), y0 as int, x0 as int);
    let diff = load_diffs8(src, dst, y0, x0);
    // Horizontal transform
    let mut tmp: [[i32; 8]; 8] = [[0; 8]; 8];
    let mut y: usize = 0;
    while y < 8
        invariant
            y <= 8,
            forall|j: int, i: int|
                0 <= j < 8 && 0 <= i < 8 ==> #[trigger] diff[j][i] == d(j, i) && -0xffff
                    <= diff[j][i] <= 0xffff,
            forall|j: int, i: int|
                0 <= j < y && 0 <= i < 8 ==> #[trigger] tmp[j][i] == hadamard(row_of(d, j), 8, i)
                    && -0x8_0000 <= tmp[j][i] <= 0x8_0000,
        decreases 8 - y,
    {
        let line: [i32; 8] = diff[y];
        assert(forall|i: int| 0 <= i < 8 ==> #[trigger] line[i] == diff[y as int][i]);
        let t = hadamard8_1d(&line);
        proof {
            let f = row_of(d, y as int);
            assert forall|i: int| 0 <= i < 8 implies #[trigger] t[i] == hadamard(f, 8, i)
                && -0x8_0000 <= t[i] <= 0x8_0000 by {
                lemma_hadamard_eq(values(line@), f, 8, i);
                lemma_hadamard_bound(values(line@), 8, i, 0xffff);
            }
        }
        tmp[y] = t;
        y += 1;
    }
    // Vertical transform and the sum of the magnitudes
    let ghost m = hadamard_magnitudes(d, 8);
    let mut total: u32 = 0;
    let mut x: usize = 0;
    while x < 8
        invariant
            x <= 8,
            m == hadamard_magnitudes(d, 8),
            forall|j: int, i: int|
                0 <= j < 8 && 0 <= i < 8 ==> #[trigger] tmp[j][i] == hadamard(row_of(d, j), 8, i)
                    && -0x8_0000 <= tmp[j][i] <= 0x8_0000,
            total == block_sum(m, 8, x as int),
            total <= 0x200_0000 * x,
        decreases 8 - x,
    {
        let col = [
            tmp[0][x],
            tmp[1][x],
            tmp[2][x],
            tmp[3][x],
            tmp[4][x],
            tmp[5][x],
            tmp[6][x],
            tmp[7][x],
        ];
        let t = hadamard8_1d(&col);
        let ghost g = row_of(m, x as int);
        proof {
            let f = row_coeffs(d, 8, x as int);
            assert forall|k: int| 0 <= k < 8 implies #[trigger] values(col@)(k) == f(k) && -0x8_0000
                <= values(col@)(k) <= 0x8_0000 by {
                assert(col@[k] == tmp[k][x as int]);
            }
            assert forall|j: int| 0 <= j < 8 implies #[trigger] g(j) == abs_int(t[j] as int)
                && -0x40_0000 <= t[j] <= 0x40_0000 by {
                lemma_hadamard_eq(values(col@), f, 8, j);
                lemma_hadamard_bound(values(col@), 8, j, 0x8_0000);
            }
        }
        let mut part: u32 = 0;
        let mut j: usize = 0;
        while j < 8
            invariant
                j <= 8,
                forall|k: int|
                    0 <= k < 8 ==> #[trigger] g(k) == abs_int(t[k] as int) && -0x40_0000 <= t[k]
                        <= 0x40_0000,
                part == sum(g, j as int),
                part <= 0x40_0000 * j,
            decreases 8 - j,
        {
            assert(g(j as int) == abs_int(t[j as int] as int));
            part = part + unsigned_abs_i32(t[j]);
            j += 1;
        }
        total = total + part;
        x += 1;
    }
    (total + 4) / 8
}

/// The transformed differences of a cell, or its plain differences at an edge.
fn satd_cell_at<T: Sample>(
    src: &PlaneRegion<'_, T>,
    dst: &PlaneRegion<'_, T>,
    w: usize,
    h: usize,
    y0: usize,
    x0: usize,
) -> (r: u32)
    requires
        src.covers(w as int, h as int),
        dst.covers(w as int, h as int),
        y0 < h,
        x0 < w,
    ensures
        r == satd_cell(*src, *dst, w as int, h as int, y0 as int, x0 as int),
{
    let cw: usize = min_usize(w - x0, 4);
    let ch: usize = min_usize(h - y0, 4);
    proof {
        src.lemma_covers_part(w as int, h as int, x0 + cw, y0 + ch);
        dst.lemma_covers_part(w as int, h as int, x0 + cw, y0 + ch);
    }
    if cw == 4 && ch == 4 {
        satd_4x4_simd128(src, dst, y0, x0)
    } else {
        proof {
            let f = shifted(abs_diffs(*src, *dst), y0 as int, x0 as int);
            assert forall|j: int, i: int| 0 <= j < ch && 0 <= i < cw implies 0 <= #[trigger] f(j, i)
                <= 0xffff by {
                src.lemma_at_range(y0 + j, x0 + i);
                dst.lemma_at_range(y0 + j, x0 + i);
            }
            lemma_block_sum_bound(f, cw as int, ch as int, 0xffff);
            assert(0xffff * cw * ch <= 0xf_fff0) by (nonlinear_arith)
                requires
                    0 <= cw <= 4,
                    0 <= ch <= 4,
            ;
        }
        sad_block_scalar(src, dst, y0, x0, cw, ch)
    }
}

/// A cell is not negative.
proof fn lemma_cell_nonneg<T: Sample>(
    src: PlaneRegion<'_, T>,
    dst: PlaneRegion<'_, T>,
    w: int,
    h: int,
    y0: int,
    x0: int,
)
    ensures
        satd_cell(src, dst, w, h, y0, x0) >= 0,
{
    if x0 + 4 <= w && y0 + 4 <= h {
        lemma_square_nonneg(src, dst, y0, x0, 4);
    } else {
        lemma_block_sum_nonneg(
            shifted(abs_diffs(src, dst), y0, x0),
            min_int(w - x0, 4),
            min_int(h - y0, 4),
        );
    }
}

/// The transformed differences of a square are not negative.
proof fn lemma_square_nonneg<T: Sample>(
    src: PlaneRegion<'_, T>,
    dst: PlaneRegion<'_, T>,
    y0: int,
    x0: int,
    n: int,
)
    requires
        n > 0,
    ensures
        satd_square(src, dst, y0, x0, n) >= 0,
{
    let s = block_sum(hadamard_magnitudes(shifted(diffs(src, dst), y0, x0), n), n, n);
    lemma_block_sum_nonneg(hadamard_magnitudes(shifted(diffs(src, dst), y0, x0), n), n, n);
    assert((s + n / 2) / n >= 0) by (nonlinear_arith)
        requires
            s >= 0,
            n > 0,
    ;
}

/// A chunk is not negative.
proof fn lemma_chunk_nonneg<T: Sample>(
    src: PlaneRegion<'_, T>,
    dst: PlaneRegion<'_, T>,
    w: int,
    h: int,
    y0: int,
    x0: int,
)
    ensures
        satd_chunk(src, dst, w, h, y0, x0) >= 0,
{
    if x0 + 8 <= w && y0 + 8 <= h {
        lemma_square_nonneg(src, dst, y0, x0, 8);
    } else {
        let f = satd_cells(src, dst, w, h, y0, x0);
        assert forall|i: int, j: int| #[trigger] f(i, j) >= 0 by {
            lemma_cell_nonneg(src, dst, w, h, y0 + 4 * i, x0 + 4 * j);
        }
        lemma_block_sum_nonneg(f, (min_int(w - x0, 8) + 3) / 4, (min_int(h - y0, 8) + 3) / 4);
    }
}

/// The cells of `cw` columns and `ch` rows of a block, from row `y0` and column `x0` on.
fn satd_cells_at<T: Sample>(
    src: &PlaneRegion<'_, T>,
    dst: &PlaneRegion<'_, T>,
    w: usize,
    h: usize,
    y0: usize,
    x0: usize,
    cw: usize,
    ch: usize,
) -> (r: u32)
    requires
        src.covers(w as int, h as int),
        dst.covers(w as int, h as int),
        y0 + ch <= h,
        x0 + cw <= w,
        block_sum(
            satd_cells(*src, *dst, w as int, h as int, y0 as int, x0 as int),
            (cw + 3) / 4,
            (ch + 3) / 4,
        ) <= u32::MAX,
    ensures
        r == block_sum(
            satd_cells(*src, *dst, w as int, h as int, y0 as int, x0 as int),
            (cw + 3) / 4,
            (ch + 3) / 4,
        ),
{
    let ghost f = satd_cells(*src, *dst, w as int, h as int, y0 as int, x0 as int);
    let cols: usize = count_steps(cw, 4);
    let rows: usize = count_steps(ch, 4);
    let mut total: u32 = 0;
    let mut i: usize = 0;
    while i < rows
        invariant
            i <= rows,
            cols == (cw + 3) / 4,
            rows == (ch + 3) / 4,
            y0 + ch <= h,
            x0 + cw <= w,
            src.covers(w as int, h as int),
            dst.covers(w as int, h as int),
            f == satd_cells(*src, *dst, w as int, h as int, y0 as int, x0 as int),
            block_sum(f, cols as int, rows as int) <= u32::MAX,
            total == block_sum(f, cols as int, i as int),
        decreases rows - i,
    {
        let ghost g = row_of(f, i as int);
        let ghost done = block_sum(f, cols as int, i as int);
        let mut j: usize = 0;
        while j < cols
            invariant
                j <= cols,
                i < rows,
                cols == (cw + 3) / 4,
                rows == (ch + 3) / 4,
                y0 + ch <= h,
                x0 + cw <= w,
                src.covers(w as int, h as int),
                dst.covers(w as int, h as int),
                f == satd_cells(*src, *dst, w as int, h as int, y0 as int, x0 as int),
                g == row_of(f, i as int),
                done == block_sum(f, cols as int, i as int),
                block_sum(f, cols as int, rows as int) <= u32::MAX,
                total == done + sum(g, j as int),
            decreases cols - j,
        {
            let cell: u32 = satd_cell_at(src, dst, w, h, y0 + 4 * i, x0 + 4 * j);
            proof {
                assert(g(j as int) == cell);
                assert forall|a: int, b: int| #[trigger] f(a, b) >= 0 by {
                    lemma_cell_nonneg(*src, *dst, w as int, h as int, y0 + 4 * a, x0 + 4 * b);
                }
                lemma_block_sum_mono(f, cols as int, rows as int, i as int, j + 1);
            }
            total = total + cell;
            j += 1;
        }
        i += 1;
    }
    total
}

/// The number of steps of `n` that it takes to cover `len`.
pub(crate) fn count_steps(len: usize, n: usize) -> (r: usize)
    requires
        n > 0,
    ensures
        r == (len + n - 1) / n as int,
{
    proof {
        vstd::arithmetic::div_mod::lemma_fundamental_div_mod(len as int, n as int);
        vstd::arithmetic::div_mod::lemma_fundamental_div_mod(len + n - 1, n as int);
        let q = len as int / n as int;
        let m = len as int % n as int;
        assert((len + n - 1) / n as int == if m == 0 {
            q
        } else {
            q + 1
        }) by (nonlinear_arith)
            requires
                n > 0,
                len == n * q + m,
                0 <= m < n,
        ;
        assert(m != 0 ==> q < len) by (nonlinear_arith)
            requires
                n > 0,
                len == n * q + m,
                0 <= m < n,
                q >= 0,
        ;
    }
    if len % n == 0 {
        len / n
    } else {
        len / n + 1
    }
}

/// The transformed differences of a chunk, or its cells at an edge.
fn satd_chunk_at<T: Sample>(
    src: &PlaneRegion<'_, T>,
    dst: &PlaneRegion<'_, T>,
    w: usize,
    h: usize,
    y0: usize,
    x0: usize,
) -> (r: u32)
    requires
        src.covers(w as int, h as int),
        dst.covers(w as int, h as int),
        y0 < h,
        x0 < w,
        satd_chunk(*src, *dst, w as int, h as int, y0 as int, x0 as int) <= u32::MAX,
    ensures
        r == satd_chunk(*src, *dst, w as int, h as int, y0 as int, x0 as int),
{
    let cw: usize = min_usize(w - x0, 8);
    let ch: usize = min_usize(h - y0, 8);
    if cw == 8 && ch == 8 {
        proof {
            src.lemma_covers_part(w as int, h as int, x0 + 8, y0 + 8);
            dst.lemma_covers_part(w as int, h as int, x0 + 8, y0 + 8);
        }
        satd_8x8_simd128(src, dst, y0, x0)
    } else {
        satd_cells_at(src, dst, w, h, y0, x0, cw, ch)
    }
}

/// The sum of absolute transformed differences of a block of at least 8 rows and columns.
fn satd_chunks_simd128<T: Sample>(
    src: &PlaneRegion<'_, T>,
    dst: &PlaneRegion<'_, T>,
    w: usize,
    h: usize,
) -> (r: u32)
    requires
        src.covers(w as int, h as int),
        dst.covers(w as int, h as int),
        block_sum(satd_chunks(*src, *dst, w as int, h as int), (w + 7) / 8, (h + 7) / 8)
            <= u32::MAX,
    ensures
        r == block_sum(satd_chunks(*src, *dst, w as int, h as int), (w + 7) / 8, (h + 7) / 8),
{
    let ghost f = satd_chunks(*src, *dst, w as int, h as int);
    let cols: usize = count_steps(w, 8);
    let rows: usize = count_steps(h, 8);
    let mut total: u32 = 0;
    let mut i: usize = 0;
    while i < rows
        invariant
            i <= rows,
            cols == (w + 7) / 8,
            rows == (h + 7) / 8,
            src.covers(w as int, h as int),
            dst.covers(w as int, h as int),
            f == satd_chunks(*src, *dst, w as int, h as int),
            block_sum(f, cols as int, rows as int) <= u32::MAX,
            total == block_sum(f, cols as int, i as int),
        decreases rows - i,
    {
        let ghost g = row_of(f, i as int);
        let ghost done = block_sum(f, cols as int, i as int);
        let mut j: usize = 0;
        while j < cols
            invariant
                j <= cols,
                i < rows,
                cols == (w + 7) / 8,
                rows == (h + 7) / 8,
                src.covers(w as int, h as int),
                dst.covers(w as int, h as int),
                f == satd_chunks(*src, *dst, w as int, h as int),
                g == row_of(f, i as int),
                done == block_sum(f, cols as int, i as int),
                block_sum(f, cols as int, rows as int) <= u32::MAX,
                total == done + sum(g, j as int),
            decreases cols - j,
        {
            proof {
                assert forall|a: int, b: int| #[trigger] f(a, b) >= 0 by {
                    lemma_chunk_nonneg(*src, *dst, w as int, h as int, 8 * a, 8 * b);
                }
                lemma_block_sum_mono(f, cols as int, rows as int, i as int, j as int);
                lemma_block_sum_mono(f, cols as int, rows as int, i as int, j + 1);
                assert(g(j as int) == satd_chunk(*src, *dst, w as int, h as int, 8 * i, 8 * j));
            }
            let chunk: u32 = satd_chunk_at(src, dst, w, h, 8 * i, 8 * j);
            total = total + chunk;
            j += 1;
        }
        i += 1;
    }
    total
}

/// The sum of absolute transformed differences of two blocks.
pub fn satd_wxh_simd128<T: Sample>(
    src: &PlaneRegion<'_, T>,
    dst: &PlaneRegion<'_, T>,
    w: usize,
    h: usize,
) -> (r: u32)
    requires
        src.covers(w as int, h as int),
        dst.covers(w as int, h as int),
        satd(*src, *dst, w as int, h as int) <= u32::MAX,
    ensures
        r == satd(*src, *dst, w as int, h as int),
{
    if w >= 8 && h >= 8 {
        satd_chunks_simd128(src, dst, w, h)
    } else {
        satd_cells_at(src, dst, w, h, 0, 0, w, h)
    }
}

/// The transform of opposite values is opposite.
proof fn lemma_hadamard_neg(f: spec_fn(int) -> int, g: spec_fn(int) -> int, n: int, i: int)
    requires
        forall|k: int| 0 <= k < n ==> #[trigger] f(k) == -g(k),
    ensures
        hadamard(f, n, i) == -hadamard(g, n, i),
    decreases n,
{
    if n > 0 {
        lemma_hadamard_neg(f, g, n - 1, i);
        assert(f(n - 1) == -g(n - 1));
    }
}

/// The transformed differences of a square do not depend on the order of the blocks.
proof fn lemma_square_symmetric<T: Sample>(
    src: PlaneRegion<'_, T>,
    dst: PlaneRegion<'_, T>,
    y0: int,
    x0: int,
    n: int,
)
    ensures
        satd_square(src, dst, y0, x0, n) == satd_square(dst, src, y0, x0, n),
{
    let d = shifted(diffs(src, dst), y0, x0);
    let e = shifted(diffs(dst, src), y0, x0);
    let f = hadamard_magnitudes(d, n);
    let g = hadamard_magnitudes(e, n);
    assert forall|i: int, j: int| 0 <= i < n && 0 <= j < n implies #[trigger] f(i, j) == g(i, j) by {
        assert forall|y: int| 0 <= y < n implies #[trigger] row_coeffs(d, n, i)(y) == -row_coeffs(
            e,
            n,
            i,
        )(y) by {
            lemma_hadamard_neg(row_of(d, y), row_of(e, y), n, i);
        }
        lemma_hadamard_neg(row_coeffs(d, n, i), row_coeffs(e, n, i), n, j);
    }
    lemma_block_sum_eq(f, g, n, n);
}

/// The transformed distance of a cell does not depend on the order of the blocks.
proof fn lemma_cell_symmetric<T: Sample>(
    src: PlaneRegion<'_, T>,
    dst: PlaneRegion<'_, T>,
    w: int,
    h: int,
    y0: int,
    x0: int,
)
    ensures
        satd_cell(src, dst, w, h, y0, x0) == satd_cell(dst, src, w, h, y0, x0),
{
    lemma_square_symmetric(src, dst, y0, x0, 4);
    lemma_block_sum_eq(
        shifted(abs_diffs(src, dst), y0, x0),
        shifted(abs_diffs(dst, src), y0, x0),
        min_int(w - x0, 4),
        min_int(h - y0, 4),
    );
}

/// The transformed distance of two blocks does not depend on their order.
pub proof fn lemma_satd_symmetric<T: Sample>(
    src: PlaneRegion<'_, T>,
    dst: PlaneRegion<'_, T>,
    w: int,
    h: int,
)
    ensures
        satd(src, dst, w, h) == satd(dst, src, w, h),
{
    if w >= 8 && h >= 8 {
        let f = satd_chunks(src, dst, w, h);
        let g = satd_chunks(dst, src, w, h);
        assert forall|i: int, j: int|
            0 <= i < (h + 7) / 8 && 0 <= j < (w + 7) / 8 implies #[trigger] f(i, j) == g(i, j) by {
            let y0 = 8 * i;
            let x0 = 8 * j;
            lemma_square_symmetric(src, dst, y0, x0, 8);
            let p = satd_cells(src, dst, w, h, y0, x0);
            let q = satd_cells(dst, src, w, h, y0, x0);
            let cols = (min_int(w - x0, 8) + 3) / 4;
            let rows = (min_int(h - y0, 8) + 3) / 4;
            assert forall|a: int, b: int| 0 <= a < rows && 0 <= b < cols implies #[trigger] p(a, b)
                == q(a, b) by {
                lemma_cell_symmetric(src, dst, w, h, y0 + 4 * a, x0 + 4 * b);
            }
            lemma_block_sum_eq(p, q, cols, rows);
        }
        lemma_block_sum_eq(f, g, (w + 7) / 8, (h + 7) / 8);
    } else {
        let p = satd_cells(src, dst, w, h, 0, 0);
        let q = satd_cells(dst, src, w, h, 0, 0);
        assert forall|a: int, b: int|
            0 <= a < (h + 3) / 4 && 0 <= b < (w + 3) / 4 implies #[trigger] p(a, b) == q(a, b) by {
            lemma_cell_symmetric(src, dst, w, h, 0 + 4 * a, 0 + 4 * b);
        }
        lemma_block_sum_eq(p, q, (w + 3) / 4, (h + 3) / 4);
    }
}

/// The transformed differences of a square whose differences are at most `top`.
proof fn lemma_square_bound<T: Sample>(
    src: PlaneRegion<'_, T>,
    dst: PlaneRegion<'_, T>,
    y0: int,
    x0: int,
    n: int,
    top: int,
)
    requires
        n == 4 || n == 8,
        0 <= top,
        forall|y: int, x: int|
            y0 <= y < y0 + n && x0 <= x < x0 + n ==> -top <= #[trigger] src.at(y, x) - dst.at(y, x)
                <= top,
    ensures
        0 <= satd_square(src, dst, y0, x0, n) <= n * n * n * top,
{
    let d = shifted(diffs(src, dst), y0, x0);
    let m = hadamard_magnitudes(d, n);
    assert forall|i: int, j: int| 0 <= i < n && 0 <= j < n implies 0 <= #[trigger] m(i, j) <= top * n
        * n by {
        let f = row_coeffs(d, n, i);
        assert forall|y: int| 0 <= y < n implies -(top * n) <= #[trigger] f(y) <= top * n by {
            let g = row_of(d, y);
            assert forall|x: int| 0 <= x < n implies -top <= #[trigger] g(x) <= top by {
                assert(src.at(y0 + y, x0 + x) - dst.at(y0 + y, x0 + x) == g(x));
            }
            lemma_hadamard_bound(g, n, i, top);
            assert(-top * n == -(top * n)) by (nonlinear_arith);
        }
        lemma_hadamard_bound(f, n, j, top * n);
        assert(-(top * n) * n == -(top * n * n)) by (nonlinear_arith);
    }
    lemma_block_sum_bound(m, n, n, top * n * n);
    let s = block_sum(m, n, n);
    assert((s + n / 2) / n <= n * n * n * top && (s + n / 2) / n >= 0) by (nonlinear_arith)
        requires
            0 <= s <= top * n * n * n * n,
            n == 4 || n == 8,
            0 <= top,
    ;
}

/// Equal blocks are at no transformed distance, whatever their size.
pub proof fn lemma_satd_equal<T: Sample>(
    src: PlaneRegion<'_, T>,
    dst: PlaneRegion<'_, T>,
    w: int,
    h: int,
)
    requires
        0 <= w,
        0 <= h,
        forall|y: int, x: int| 0 <= y < h && 0 <= x < w ==> #[trigger] src.at(y, x) == dst.at(y, x),
    ensures
        satd(src, dst, w, h) == 0,
{
    lemma_satd_bound(src, dst, w, h, 0);
    let a = (w + 7) / 8;
    let b = (h + 7) / 8;
    let c = (w + 3) / 4;
    let d = (h + 3) / 4;
    assert(512 * 0 * a * b == 0 && 64 * 0 * c * d == 0) by (nonlinear_arith);
}

/// The transformed distance of a cell whose differences are at most `top`.
proof fn lemma_cell_bound<T: Sample>(
    src: PlaneRegion<'_, T>,
    dst: PlaneRegion<'_, T>,
    w: int,
    h: int,
    y0: int,
    x0: int,
    top: int,
)
    requires
        0 <= y0 < h,
        0 <= x0 < w,
        0 <= top,
        forall|y: int, x: int|
            0 <= y < h && 0 <= x < w ==> -top <= #[trigger] src.at(y, x) - dst.at(y, x) <= top,
    ensures
        0 <= satd_cell(src, dst, w, h, y0, x0) <= 64 * top,
{
    if x0 + 4 <= w && y0 + 4 <= h {
        lemma_square_bound(src, dst, y0, x0, 4, top);
    } else {
        let f = shifted(abs_diffs(src, dst), y0, x0);
        let cw = min_int(w - x0, 4);
        let ch = min_int(h - y0, 4);
        assert forall|y: int, x: int| 0 <= y < ch && 0 <= x < cw implies 0 <= #[trigger] f(y, x)
            <= top by {
            assert(-top <= src.at(y0 + y, x0 + x) - dst.at(y0 + y, x0 + x) <= top);
        }
        lemma_block_sum_bound(f, cw, ch, top);
        assert(top * cw * ch <= 64 * top) by (nonlinear_arith)
            requires
                0 <= cw <= 4,
                0 <= ch <= 4,
                0 <= top,
        ;
    }
}

/// The transformed distance of blocks is at most 64 times the largest difference for every cell
/// of side 4, or 512 times for every chunk of side 8.
pub proof fn lemma_satd_bound<T: Sample>(
    src: PlaneRegion<'_, T>,
    dst: PlaneRegion<'_, T>,
    w: int,
    h: int,
    top: int,
)
    requires
        0 <= w,
        0 <= h,
        0 <= top,
        forall|y: int, x: int|
            0 <= y < h && 0 <= x < w ==> -top <= #[trigger] src.at(y, x) - dst.at(y, x) <= top,
    ensures
        0 <= satd(src, dst, w, h),
        w >= 8 && h >= 8 ==> satd(src, dst, w, h) <= 512 * top * ((w + 7) / 8) * ((h + 7) / 8),
        w < 8 || h < 8 ==> satd(src, dst, w, h) <= 64 * top * ((w + 3) / 4) * ((h + 3) / 4),
{
    if w >= 8 && h >= 8 {
        let f = satd_chunks(src, dst, w, h);
        assert forall|i: int, j: int|
            0 <= i < (h + 7) / 8 && 0 <= j < (w + 7) / 8 implies 0 <= #[trigger] f(i, j) <= 512
            * top by {
            let y0 = 8 * i;
            let x0 = 8 * j;
            if x0 + 8 <= w && y0 + 8 <= h {
                lemma_square_bound(src, dst, y0, x0, 8, top);
            } else {
                let p = satd_cells(src, dst, w, h, y0, x0);
                let cols = (min_int(w - x0, 8) + 3) / 4;
                let rows = (min_int(h - y0, 8) + 3) / 4;
                assert forall|a: int, b: int|
                    0 <= a < rows && 0 <= b < cols implies 0 <= #[trigger] p(a, b) <= 64 * top by {
                    lemma_cell_bound(src, dst, w, h, y0 + 4 * a, x0 + 4 * b, top);
                }
                lemma_block_sum_bound(p, cols, rows, 64 * top);
                assert(64 * top * cols * rows <= 512 * top) by (nonlinear_arith)
                    requires
                        0 <= cols <= 2,
                        0 <= rows <= 2,
                        0 <= top,
                ;
            }
        }
        lemma_block_sum_bound(f, (w + 7) / 8, (h + 7) / 8, 512 * top);
    } else {
        let p = satd_cells(src, dst, w, h, 0, 0);
        assert forall|a: int, b: int|
            0 <= a < (h + 3) / 4 && 0 <= b < (w + 3) / 4 implies 0 <= #[trigger] p(a, b) <= 64
            * top by {
            lemma_cell_bound(src, dst, w, h, 0 + 4 * a, 0 + 4 * b, top);
        }
        lemma_block_sum_bound(p, (w + 3) / 4, (h + 3) / 4, 64 * top);
    }
}

/// The Hadamard transform undoes itself, but for a factor: applied twice to four or eight values,
/// it gives as many times each of them. The first coefficient is their sum.
pub proof fn lemma_hadamard_twice(f: spec_fn(int) -> int, n: int, k: int)
    requires
        n == 4 || n == 8,
        0 <= k < n,
    ensures
        hadamard(hadamard_of(f, n), n, k) == n * f(k),
        hadamard(f, n, 0) == sum(f, n),
{
    if n == 8 {
        lemma_hadamard8(f);
        lemma_hadamard8(hadamard_of(f, 8));
        assert(hadamard(f, 8, 0) == sum(f, 8)) by {
            reveal_with_fuel(sum, 9);
        }
        if k == 0 {
            assert(hadamard(hadamard_of(f, 8), 8, 0) == 8 * f(0));
        } else if k == 1 {
            assert(hadamard(hadamard_of(f, 8), 8, 1) == 8 * f(1));
        } else if k == 2 {
            assert(hadamard(hadamard_of(f, 8), 8, 2) == 8 * f(2));
        } else if k == 3 {
            assert(hadamard(hadamard_of(f, 8), 8, 3) == 8 * f(3));
        } else if k == 4 {
            assert(hadamard(hadamard_of(f, 8), 8, 4) == 8 * f(4));
        } else if k == 5 {
            assert(hadamard(hadamard_of(f, 8), 8, 5) == 8 * f(5));
        } else if k == 6 {
            assert(hadamard(hadamard_of(f, 8), 8, 6) == 8 * f(6));
        } else {
            assert(hadamard(hadamard_of(f, 8), 8, 7) == 8 * f(7));
        }
    } else {
        lemma_hadamard4(f);
        lemma_hadamard4(hadamard_of(f, 4));
        assert(hadamard(f, 4, 0) == sum(f, 4)) by {
            reveal_with_fuel(sum, 5);
        }
        if k == 0 {
            assert(hadamard(hadamard_of(f, 4), 4, 0) == 4 * f(0));
        } else if k == 1 {
            assert(hadamard(hadamard_of(f, 4), 4, 1) == 4 * f(1));
        } else if k == 2 {
            assert(hadamard(hadamard_of(f, 4), 4, 2) == 4 * f(2));
        } else {
            assert(hadamard(hadamard_of(f, 4), 4, 3) == 4 * f(3));
        }
    }
}

/// The magnitudes of values.
spec fn magnitudes(f: spec_fn(int) -> int) -> spec_fn(int) -> int {
    |i: int| abs_int(f(i))
}

/// A multiple of the magnitudes of values.
spec fn times(n: int, f: spec_fn(int) -> int) -> spec_fn(int) -> int {
    |i: int| n * abs_int(f(i))
}

/// A coefficient is no larger than the magnitudes of the values together.
proof fn lemma_hadamard_magnitude(f: spec_fn(int) -> int, n: int, i: int)
    ensures
        abs_int(hadamard(f, n, i)) <= sum(magnitudes(f), n),
    decreases n,
{
    if n > 0 {
        lemma_hadamard_magnitude(f, n - 1, i);
    }
}

/// A common factor can be taken out of a sum.
proof fn lemma_sum_times(n: int, f: spec_fn(int) -> int, len: int)
    ensures
        sum(times(n, f), len) == n * sum(magnitudes(f), len),
    decreases len,
{
    if len > 0 {
        lemma_sum_times(n, f, len - 1);
        let a = sum(magnitudes(f), len - 1);
        let b = abs_int(f(len - 1));
        assert(n * (a + b) == n * a + n * b) by (nonlinear_arith);
    }
}

/// No difference in a square is lost: its transformed differences, before they are normalized, are
/// together at least `n * n` times as large.
proof fn lemma_magnitudes_at_least(d: spec_fn(int, int) -> int, n: int, y: int, x: int)
    requires
        n == 4 || n == 8,
        0 <= y < n,
        0 <= x < n,
    ensures
        n * n * abs_int(d(y, x)) <= block_sum(hadamard_magnitudes(d, n), n, n),
{
    let m = hadamard_magnitudes(d, n);
    let f = hadamard_of(row_of(d, y), n);
    assert forall|i: int| 0 <= i < n implies #[trigger] times(n, f)(i) <= sum(row_of(m, i), n) by {
        let c = row_coeffs(d, n, i);
        let g = hadamard_of(c, n);
        lemma_hadamard_twice(c, n, y);
        lemma_hadamard_magnitude(g, n, y);
        crate::sums::lemma_sum_eq(magnitudes(g), row_of(m, i), n);
        assert(c(y) == f(i));
        let v = c(y);
        assert(abs_int(n * v) == n * abs_int(v)) by (nonlinear_arith)
            requires
                n > 0,
        ;
    }
    lemma_block_sum_rows(m, times(n, f), n, n);
    lemma_sum_times(n, f, n);
    lemma_hadamard_twice(row_of(d, y), n, x);
    lemma_hadamard_magnitude(f, n, x);
    let v = d(y, x);
    let s = sum(magnitudes(f), n);
    assert(row_of(d, y)(x) == v);
    assert(n * n * abs_int(v) <= n * s) by (nonlinear_arith)
        requires
            n > 0,
            abs_int(n * v) <= s,
    ;
}

/// The transformed differences of a square of side 4 or 8 are at least as many times as large as
/// each of its differences.
pub proof fn lemma_square_at_least<T: Sample>(
    src: PlaneRegion<'_, T>,
    dst: PlaneRegion<'_, T>,
    y0: int,
    x0: int,
    n: int,
    y: int,
    x: int,
)
    requires
        n == 4 || n == 8,
        y0 <= y < y0 + n,
        x0 <= x < x0 + n,
    ensures
        satd_square(src, dst, y0, x0, n) >= n * abs_int(src.at(y, x) - dst.at(y, x)),
{
    let d = shifted(diffs(src, dst), y0, x0);
    lemma_magnitudes_at_least(d, n, y - y0, x - x0);
    assert(d(y - y0, x - x0) == src.at(y, x) - dst.at(y, x));
}

/// The transformed distance of a cell is at least as large as each of its differences.
proof fn lemma_cell_at_least<T: Sample>(
    src: PlaneRegion<'_, T>,
    dst: PlaneRegion<'_, T>,
    w: int,
    h: int,
    y0: int,
    x0: int,
    y: int,
    x: int,
)
    requires
        y0 <= y < y0 + 4,
        x0 <= x < x0 + 4,
        y < h,
        x < w,
    ensures
        satd_cell(src, dst, w, h, y0, x0) >= abs_int(src.at(y, x) - dst.at(y, x)),
{
    if x0 + 4 <= w && y0 + 4 <= h {
        lemma_square_at_least(src, dst, y0, x0, 4, y, x);
    } else {
        let f = shifted(abs_diffs(src, dst), y0, x0);
        lemma_block_sum_entry(f, min_int(w - x0, 4), min_int(h - y0, 4), y - y0, x - x0);
    }
}

/// The transformed distance of two blocks is at least as large as each of their differences.
pub proof fn lemma_satd_at_least<T: Sample>(
    src: PlaneRegion<'_, T>,
    dst: PlaneRegion<'_, T>,
    w: int,
    h: int,
    y: int,
    x: int,
)
    requires
        0 <= y < h,
        0 <= x < w,
    ensures
        satd(src, dst, w, h) >= abs_int(src.at(y, x) - dst.at(y, x)),
{
    if w >= 8 && h >= 8 {
        let y0 = 8 * (y / 8);
        let x0 = 8 * (x / 8);
        let f = satd_chunks(src, dst, w, h);
        assert forall|i: int, j: int| #[trigger] f(i, j) >= 0 by {
            lemma_chunk_nonneg(src, dst, w, h, 8 * i, 8 * j);
        }
        lemma_block_sum_entry(f, (w + 7) / 8, (h + 7) / 8, y / 8, x / 8);
        assert(f(y / 8, x / 8) == satd_chunk(src, dst, w, h, y0, x0));
        if x0 + 8 <= w && y0 + 8 <= h {
            lemma_square_at_least(src, dst, y0, x0, 8, y, x);
        } else {
            let cw = min_int(w - x0, 8);
            let ch = min_int(h - y0, 8);
            lemma_cells_at_least(src, dst, w, h, y0, x0, cw, ch, y, x);
        }
    } else {
        lemma_cells_at_least(src, dst, w, h, 0, 0, w, h, y, x);
    }
}

/// The transformed distance of the cells of `cw` columns and `ch` rows is at least as large as each
/// of their differences.
proof fn lemma_cells_at_least<T: Sample>(
    src: PlaneRegion<'_, T>,
    dst: PlaneRegion<'_, T>,
    w: int,
    h: int,
    y0: int,
    x0: int,
    cw: int,
    ch: int,
    y: int,
    x: int,
)
    requires
        y0 <= y < y0 + ch,
        x0 <= x < x0 + cw,
        y < h,
        x < w,
    ensures
        block_sum(satd_cells(src, dst, w, h, y0, x0), (cw + 3) / 4, (ch + 3) / 4) >= abs_int(
            src.at(y, x) - dst.at(y, x),
        ),
{
    let i = (y - y0) / 4;
    let j = (x - x0) / 4;
    let f = satd_cells(src, dst, w, h, y0, x0);
    assert forall|a: int, b: int| #[trigger] f(a, b) >= 0 by {
        lemma_cell_nonneg(src, dst, w, h, y0 + 4 * a, x0 + 4 * b);
    }
    lemma_block_sum_entry(f, (cw + 3) / 4, (ch + 3) / 4, i, j);
    lemma_cell_at_least(src, dst, w, h, y0 + 4 * i, x0 + 4 * j, y, x);
}

/// Blocks at no transformed distance are equal.
pub proof fn lemma_satd_zero<T: Sample>(
    src: PlaneRegion<'_, T>,
    dst: PlaneRegion<'_, T>,
    w: int,
    h: int,
    y: int,
    x: int,
)
    requires
        satd(src, dst, w, h) == 0,
        0 <= y < h,
        0 <= x < w,
    ensures
        src.at(y, x) == dst.at(y, x),
{
    lemma_satd_at_least(src, dst, w, h, y, x);
}

/// The squares of side `n` of a block.
pub open spec fn satd_squares<T: Sample>(
    src: PlaneRegion<'_, T>,
    dst: PlaneRegion<'_, T>,
    n: int,
) -> spec_fn(int, int) -> int {
    |i: int, j: int| satd_square(src, dst, n * i, n * j, n)
}

/// The transformed distance of blocks that squares cover is the sum over these squares: of side 8
/// where both dimensions are at least 8, and else of side 4.
pub proof fn lemma_satd_squares<T: Sample>(
    src: PlaneRegion<'_, T>,
    dst: PlaneRegion<'_, T>,
    w: int,
    h: int,
)
    ensures
        8 <= w && 8 <= h && w % 8 == 0 && h % 8 == 0 ==> satd(src, dst, w, h) == block_sum(
            satd_squares(src, dst, 8),
            w / 8,
            h / 8,
        ),
        4 <= w && 4 <= h && (w < 8 || h < 8) && w % 4 == 0 && h % 4 == 0 ==> satd(src, dst, w, h)
            == block_sum(satd_squares(src, dst, 4), w / 4, h / 4),
{
    if 8 <= w && 8 <= h && w % 8 == 0 && h % 8 == 0 {
        lemma_block_sum_eq(
            satd_chunks(src, dst, w, h),
            satd_squares(src, dst, 8),
            w / 8,
            h / 8,
        );
    }
    if 4 <= w && 4 <= h && (w < 8 || h < 8) && w % 4 == 0 && h % 4 == 0 {
        lemma_block_sum_eq(
            satd_cells(src, dst, w, h, 0, 0),
            satd_squares(src, dst, 4),
            w / 4,
            h / 4,
        );
    }
}

/// Squares of the same samples have the same transformed differences.
proof fn lemma_square_same<T: Sample, U: Sample>(
    src: PlaneRegion<'_, T>,
    dst: PlaneRegion<'_, T>,
    src2: PlaneRegion<'_, U>,
    dst2: PlaneRegion<'_, U>,
    w: int,
    h: int,
    y0: int,
    x0: int,
    n: int,
)
    requires
        same_samples(src, dst, src2, dst2, w, h),
        0 <= y0,
        0 <= x0,
        y0 + n <= h,
        x0 + n <= w,
    ensures
        satd_square(src, dst, y0, x0, n) == satd_square(src2, dst2, y0, x0, n),
{
    let d = shifted(diffs(src, dst), y0, x0);
    let e = shifted(diffs(src2, dst2), y0, x0);
    let f = hadamard_magnitudes(d, n);
    let g = hadamard_magnitudes(e, n);
    assert forall|i: int, j: int| 0 <= i < n && 0 <= j < n implies #[trigger] f(i, j) == g(i, j) by {
        assert forall|y: int| 0 <= y < n implies #[trigger] row_coeffs(d, n, i)(y) == row_coeffs(
            e,
            n,
            i,
        )(y) by {
            assert forall|x: int| 0 <= x < n implies #[trigger] row_of(d, y)(x) == row_of(
                e,
                y,
            )(x) by {
                assert(src.at(y0 + y, x0 + x) == src2.at(y0 + y, x0 + x));
                assert(dst.at(y0 + y, x0 + x) == dst2.at(y0 + y, x0 + x));
            }
            lemma_hadamard_eq(row_of(d, y), row_of(e, y), n, i);
        }
        lemma_hadamard_eq(row_coeffs(d, n, i), row_coeffs(e, n, i), n, j);
    }
    lemma_block_sum_eq(f, g, n, n);
}

/// Cells of the same samples are at the same transformed distance.
proof fn lemma_cell_same<T: Sample, U: Sample>(
    src: PlaneRegion<'_, T>,
    dst: PlaneRegion<'_, T>,
    src2: PlaneRegion<'_, U>,
    dst2: PlaneRegion<'_, U>,
    w: int,
    h: int,
    y0: int,
    x0: int,
)
    requires
        same_samples(src, dst, src2, dst2, w, h),
        0 <= y0,
        0 <= x0,
    ensures
        satd_cell(src, dst, w, h, y0, x0) == satd_cell(src2, dst2, w, h, y0, x0),
{
    if x0 + 4 <= w && y0 + 4 <= h {
        lemma_square_same(src, dst, src2, dst2, w, h, y0, x0, 4);
    } else {
        let f = shifted(abs_diffs(src, dst), y0, x0);
        let g = shifted(abs_diffs(src2, dst2), y0, x0);
        let cw = min_int(w - x0, 4);
        let ch = min_int(h - y0, 4);
        assert forall|y: int, x: int| 0 <= y < ch && 0 <= x < cw implies #[trigger] f(y, x) == g(
            y,
            x,
        ) by {
            assert(src.at(y0 + y, x0 + x) == src2.at(y0 + y, x0 + x));
            assert(dst.at(y0 + y, x0 + x) == dst2.at(y0 + y, x0 + x));
        }
        lemma_block_sum_eq(f, g, cw, ch);
    }
}

/// Cells of the same samples are at the same transformed distance, all together.
proof fn lemma_cells_same<T: Sample, U: Sample>(
    src: PlaneRegion<'_, T>,
    dst: PlaneRegion<'_, T>,
    src2: PlaneRegion<'_, U>,
    dst2: PlaneRegion<'_, U>,
    w: int,
    h: int,
    y0: int,
    x0: int,
    cols: int,
    rows: int,
)
    requires
        same_samples(src, dst, src2, dst2, w, h),
        0 <= y0,
        0 <= x0,
    ensures
        block_sum(satd_cells(src, dst, w, h, y0, x0), cols, rows) == block_sum(
            satd_cells(src2, dst2, w, h, y0, x0),
            cols,
            rows,
        ),
{
    let p = satd_cells(src, dst, w, h, y0, x0);
    let q = satd_cells(src2, dst2, w, h, y0, x0);
    assert forall|a: int, b: int| 0 <= a < rows && 0 <= b < cols implies #[trigger] p(a, b) == q(
        a,
        b,
    ) by {
        lemma_cell_same(src, dst, src2, dst2, w, h, y0 + 4 * a, x0 + 4 * b);
    }
    lemma_block_sum_eq(p, q, cols, rows);
}

/// The transformed distance of two blocks depends on their samples alone: it is the same for
/// samples of eight and of sixteen bits.
pub proof fn lemma_satd_same<T: Sample, U: Sample>(
    src: PlaneRegion<'_, T>,
    dst: PlaneRegion<'_, T>,
    src2: PlaneRegion<'_, U>,
    dst2: PlaneRegion<'_, U>,
    w: int,
    h: int,
)
    requires
        same_samples(src, dst, src2, dst2, w, h),
    ensures
        satd(src, dst, w, h) == satd(src2, dst2, w, h),
{
    if w >= 8 && h >= 8 {
        let f = satd_chunks(src, dst, w, h);
        let g = satd_chunks(src2, dst2, w, h);
        assert forall|i: int, j: int|
            0 <= i < (h + 7) / 8 && 0 <= j < (w + 7) / 8 implies #[trigger] f(i, j) == g(i, j) by {
            let y0 = 8 * i;
            let x0 = 8 * j;
            if x0 + 8 <= w && y0 + 8 <= h {
                lemma_square_same(src, dst, src2, dst2, w, h, y0, x0, 8);
            } else {
                let cols = (min_int(w - x0, 8) + 3) / 4;
                let rows = (min_int(h - y0, 8) + 3) / 4;
                lemma_cells_same(src, dst, src2, dst2, w, h, y0, x0, cols, rows);
            }
        }
        lemma_block_sum_eq(f, g, (w + 7) / 8, (h + 7) / 8);
    } else {
        lemma_cells_same(src, dst, src2, dst2, w, h, 0, 0, (w + 3) / 4, (h + 3) / 4);
    }
}

/// The transformed distance of blocks of up to 128 rows and columns and up to 12 bits has 32 bits.
pub proof fn lemma_satd_fits<T: Sample>(
    src: PlaneRegion<'_, T>,
    dst: PlaneRegion<'_, T>,
    w: int,
    h: int,
)
    requires
        0 <= w <= 128,
        0 <= h <= 128,
        forall|y: int, x: int|
            0 <= y < h && 0 <= x < w ==> -4095 <= #[trigger] src.at(y, x) - dst.at(y, x) <= 4095,
    ensures
        satd(src, dst, w, h) <= u32::MAX,
{
    lemma_satd_bound(src, dst, w, h, 4095);
    let a = (w + 7) / 8;
    let b = (h + 7) / 8;
    let c = (w + 3) / 4;
    let d = (h + 3) / 4;
    assert(512 * 4095 * a * b <= 0xffff_ffff) by (nonlinear_arith)
        requires
            0 <= a <= 16,
            0 <= b <= 16,
    ;
    assert(64 * 4095 * c * d <= 0xffff_ffff) by (nonlinear_arith)
        requires
            0 <= c <= 32,
            0 <= d <= 32,
    ;
}

} // verus!
