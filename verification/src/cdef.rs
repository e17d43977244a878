//! The constrained directional enhancement filter: the direction of a block, and its filtering.

use crate::arch::{
    i32x4, i32x4_abs, i32x4_add, i32x4_extract_lane, i32x4_lt, i32x4_max, i32x4_min, i32x4_mul,
    i32x4_ne, i32x4_neg, i32x4_shr, i32x4_splat, i32x4_sub, lemma_select_bits, mask, v128, v128_and,
    v128_bitselect,
};
use crate::cpu_features::CpuFeatureLevel;
use crate::math::{
    abs_int, clamp, clamp_int, lemma_shr_bounds, max_int, min_int, shr, shr_i32, shr_i64,
};
use crate::pixel::{pixel_range, PixelType, Sample};
use crate::plane::{PlaneRegion, PlaneRegionMut, sample_index};
use crate::portable::{block_of, store_block};
use crate::sums::{block_sum, lemma_sum_mono, row_of, sum};
use vstd::arithmetic::power2::pow2;
use vstd::prelude::*;

verus! {

broadcast use {crate::math::group_wrap, crate::vector::group_lanes};

/// Marks a sample outside the frame.
pub const CDEF_VERY_LARGE: u16 = 0x8000;

/// All four neighbours of a block are there.
pub const CDEF_HAVE_ALL: u8 = 15;

/// `840 / n`: what the square of the sum of a line of `n` samples weighs.
const CDEF_DIV_TABLE: [i32; 9] = [0, 840, 420, 280, 210, 168, 140, 120, 105];

// ---------------------------------------------------------------------------
// The direction of a block
// ---------------------------------------------------------------------------

/// The line of direction `d` on which row `i`, column `j` of a block lies.
pub open spec fn line(d: int, i: int, j: int) -> int {
    if d == 0 {
        i + j
    } else if d == 1 {
        i + j / 2
    } else if d == 2 {
        i
    } else if d == 3 {
        3 + i - j / 2
    } else if d == 4 {
        7 + i - j
    } else if d == 5 {
        3 - i / 2 + j
    } else if d == 6 {
        j
    } else {
        i / 2 + j
    }
}

/// How many samples of a block lie on line `k` of direction `d`.
pub open spec fn line_length(d: int, k: int) -> int {
    if d == 2 || d == 6 {
        if k < 8 {
            8
        } else {
            0
        }
    } else if d == 0 || d == 4 {
        if k <= 7 {
            k + 1
        } else {
            15 - k
        }
    } else if k > 10 {
        0
    } else if 3 <= k <= 7 {
        8
    } else if k < 3 {
        2 * k + 2
    } else {
        22 - 2 * k
    }
}

/// The samples of a block, shifted and centred on zero.
pub open spec fn centred<T: Sample>(
    img: PlaneRegion<'_, T>,
    shift: int,
) -> spec_fn(int, int) -> int {
    |i: int, j: int| shr(img.at(i, j), shift) - 128
}

/// The values of a table that lie on line `k` of direction `d`.
pub open spec fn on_line(x: spec_fn(int, int) -> int, d: int, k: int) -> spec_fn(int, int) -> int {
    |i: int, j: int|
        if line(d, i, j) == k {
            x(i, j)
        } else {
            0
        }
}

/// The sum of the values of a block on line `k` of direction `d`.
pub open spec fn line_sum(x: spec_fn(int, int) -> int, d: int, k: int) -> int {
    block_sum(on_line(x, d, k), 8, 8)
}

/// What line `k` adds to the cost of direction `d`: the square of its sum, divided by its length
/// and scaled by 840.
pub open spec fn line_cost(x: spec_fn(int, int) -> int, d: int) -> spec_fn(int) -> int {
    |k: int| line_sum(x, d, k) * line_sum(x, d, k) * weight(line_length(d, k))
}

/// `840 / n`, and 0 for no samples.
pub open spec fn weight(n: int) -> int {
    if n == 0 {
        0
    } else {
        840int / n
    }
}

/// The weights of the lengths that lines have.
proof fn lemma_weight(n: int)
    requires
        0 <= n <= 8,
    ensures
        weight(n) == CDEF_DIV_TABLE[n],
        n * n * weight(n) == 840 * n,
{
    let w = weight(n);
    if n == 0 {
        assert(n * n * w == 0) by (nonlinear_arith)
            requires
                n == 0,
        ;
    } else if n == 1 {
        assert(840int / 1 == 840) by (nonlinear_arith);
        assert(n * n * w == 840 * n) by (nonlinear_arith)
            requires
                n == 1,
                w == 840,
        ;
    } else if n == 2 {
        assert(840int / 2 == 420) by (nonlinear_arith);
        assert(n * n * w == 840 * n) by (nonlinear_arith)
            requires
                n == 2,
                w == 420,
        ;
    } else if n == 3 {
        assert(840int / 3 == 280) by (nonlinear_arith);
        assert(n * n * w == 840 * n) by (nonlinear_arith)
            requires
                n == 3,
                w == 280,
        ;
    } else if n == 4 {
        assert(840int / 4 == 210) by (nonlinear_arith);
        assert(n * n * w == 840 * n) by (nonlinear_arith)
            requires
                n == 4,
                w == 210,
        ;
    } else if n == 5 {
        assert(840int / 5 == 168) by (nonlinear_arith);
        assert(n * n * w == 840 * n) by (nonlinear_arith)
            requires
                n == 5,
                w == 168,
        ;
    } else if n == 6 {
        assert(840int / 6 == 140) by (nonlinear_arith);
        assert(n * n * w == 840 * n) by (nonlinear_arith)
            requires
                n == 6,
                w == 140,
        ;
    } else if n == 7 {
        assert(840int / 7 == 120) by (nonlinear_arith);
        assert(n * n * w == 840 * n) by (nonlinear_arith)
            requires
                n == 7,
                w == 120,
        ;
    } else {
        assert(840int / 8 == 105) by (nonlinear_arith);
        assert(n * n * w == 840 * n) by (nonlinear_arith)
            requires
                n == 8,
                w == 105,
        ;
    }
}

/// How well direction `d` fits a block.
pub open spec fn direction_cost(x: spec_fn(int, int) -> int, d: int) -> int {
    sum(line_cost(x, d), 15)
}

/// Whether `r` is the first of the directions with the highest cost.
pub open spec fn best_direction(x: spec_fn(int, int) -> int, r: int) -> bool {
    &&& 0 <= r < 8
    &&& forall|d: int| 0 <= d < 8 ==> #[trigger] direction_cost(x, d) <= direction_cost(x, r)
    &&& forall|d: int| 0 <= d < r ==> #[trigger] direction_cost(x, d) < direction_cost(x, r)
}

/// Whether the costs of all directions fit 32 bits.
pub open spec fn costs_fit(x: spec_fn(int, int) -> int) -> bool {
    forall|d: int| 0 <= d < 8 ==> #[trigger] direction_cost(x, d) <= i32::MAX
}

/// The line of direction `d` on which a sample lies.
fn line_of(d: usize, i: usize, j: usize) -> (r: usize)
    requires
        d < 8,
        i < 8,
        j < 8,
    ensures
        r == line(d as int, i as int, j as int),
        r < 15,
{
    match d {
        0 => i + j,
        1 => i + j / 2,
        2 => i,
        3 => 3 + i - j / 2,
        4 => 7 + i - j,
        5 => 3 - i / 2 + j,
        6 => j,
        _ => i / 2 + j,
    }
}

/// Ones, where a table is on a line.
spec fn ones() -> spec_fn(int, int) -> int {
    |i: int, j: int| 1int
}

/// How many samples of row `i` lie on line `k`.
spec fn row_length(d: int, k: int, i: int) -> int {
    if d == 0 {
        if 0 <= k - i < 8 {
            1
        } else {
            0
        }
    } else if d == 1 {
        if 0 <= k - i < 4 {
            2
        } else {
            0
        }
    } else if d == 2 {
        if k == i {
            8
        } else {
            0
        }
    } else if d == 3 {
        if 0 <= 3 + i - k < 4 {
            2
        } else {
            0
        }
    } else if d == 4 {
        if 0 <= 7 + i - k < 8 {
            1
        } else {
            0
        }
    } else if d == 5 {
        if 0 <= k - 3 + i / 2 < 8 {
            1
        } else {
            0
        }
    } else if d == 6 {
        if 0 <= k < 8 {
            1
        } else {
            0
        }
    } else {
        if 0 <= k - i / 2 < 8 {
            1
        } else {
            0
        }
    }
}

/// The samples of a row on a line, counted.
proof fn lemma_row_length(d: int, k: int, i: int)
    requires
        0 <= d < 8,
        0 <= k < 15,
        0 <= i < 8,
    ensures
        sum(row_of(on_line(ones(), d, k), i), 8) == row_length(d, k, i),
{
    let f = row_of(on_line(ones(), d, k), i);
    reveal_with_fuel(sum, 9);
    assert(sum(f, 8) == f(0) + f(1) + f(2) + f(3) + f(4) + f(5) + f(6) + f(7));
}

/// The samples of a block on a line, counted.
pub proof fn lemma_line_length(d: int, k: int)
    requires
        0 <= d < 8,
        0 <= k < 15,
    ensures
        block_sum(on_line(|i: int, j: int| 1int, d, k), 8, 8) == line_length(d, k),
{
    let f = on_line(ones(), d, k);
    reveal_with_fuel(block_sum, 9);
    lemma_row_length(d, k, 0);
    lemma_row_length(d, k, 1);
    lemma_row_length(d, k, 2);
    lemma_row_length(d, k, 3);
    lemma_row_length(d, k, 4);
    lemma_row_length(d, k, 5);
    lemma_row_length(d, k, 6);
    lemma_row_length(d, k, 7);
    assert(block_sum(f, 8, 8) == row_length(d, k, 0) + row_length(d, k, 1) + row_length(d, k, 2)
        + row_length(d, k, 3) + row_length(d, k, 4) + row_length(d, k, 5) + row_length(d, k, 6)
        + row_length(d, k, 7));
    assert(f == on_line(|i: int, j: int| 1int, d, k));
}

/// A table whose entries are at most `c` times those of another one has a sum that is.
proof fn lemma_sum_scaled(
    f: spec_fn(int, int) -> int,
    g: spec_fn(int, int) -> int,
    c: int,
    w: int,
    h: int,
)
    requires
        forall|i: int, j: int|
            0 <= i < h && 0 <= j < w ==> -c * g(i, j) <= #[trigger] f(i, j) <= c * g(i, j),
    ensures
        -c * block_sum(g, w, h) <= block_sum(f, w, h) <= c * block_sum(g, w, h),
    decreases h,
{
    if h > 0 {
        lemma_sum_scaled(f, g, c, w, h - 1);
        lemma_row_scaled(f, g, c, w, h - 1);
        let a = block_sum(g, w, h - 1);
        let b = sum(row_of(g, h - 1), w);
        assert(c * (a + b) == c * a + c * b && -c * (a + b) == -c * a + -c * b)
            by (nonlinear_arith);
    } else {
        assert(c * 0 == 0 && -c * 0 == 0);
    }
}

/// One row of `lemma_sum_scaled`.
proof fn lemma_row_scaled(
    f: spec_fn(int, int) -> int,
    g: spec_fn(int, int) -> int,
    c: int,
    w: int,
    y: int,
)
    requires
        forall|j: int| 0 <= j < w ==> -c * g(y, j) <= #[trigger] f(y, j) <= c * g(y, j),
    ensures
        -c * sum(row_of(g, y), w) <= sum(row_of(f, y), w) <= c * sum(row_of(g, y), w),
    decreases w,
{
    if w > 0 {
        lemma_row_scaled(f, g, c, w - 1, y);
        let a = sum(row_of(g, y), w - 1);
        let b = g(y, w - 1);
        assert(-c * g(y, w - 1) <= f(y, w - 1) <= c * g(y, w - 1));
        assert(c * (a + b) == c * a + c * b && -c * (a + b) == -c * a + -c * b)
            by (nonlinear_arith);
    } else {
        assert(c * 0 == 0 && -c * 0 == 0);
    }
}

/// The sum of a line of numbers up to `top` is at most `top` times its length.
proof fn lemma_line_sum_bound(x: spec_fn(int, int) -> int, d: int, k: int, top: int)
    requires
        0 <= d < 8,
        0 <= k < 15,
        forall|i: int, j: int| 0 <= i < 8 && 0 <= j < 8 ==> -top <= #[trigger] x(i, j) <= top,
    ensures
        -top * line_length(d, k) <= line_sum(x, d, k) <= top * line_length(d, k),
{
    let f = on_line(x, d, k);
    let g = on_line(|i: int, j: int| 1int, d, k);
    assert forall|i: int, j: int| 0 <= i < 8 && 0 <= j < 8 implies -top * g(i, j) <= #[trigger] f(
        i,
        j,
    ) <= top * g(i, j) by {
        assert(-top <= x(i, j) <= top);
        if line(d, i, j) == k {
            assert(top * g(i, j) == top * 1 && -top * g(i, j) == -top * 1);
        } else {
            assert(top * g(i, j) == top * 0 && -top * g(i, j) == -top * 0);
        }
    }
    lemma_sum_scaled(f, g, top, 8, 8);
    lemma_line_length(d, k);
}

/// The lengths of the lines of a direction.
spec fn lengths(d: int) -> spec_fn(int) -> int {
    |k: int| line_length(d, k)
}

/// Every sample lies on one line.
proof fn lemma_lengths(d: int, k: int)
    requires
        0 <= d < 8,
        0 <= k <= 15,
    ensures
        0 <= sum(lengths(d), k) <= 64,
        sum(lengths(d), 15) == 64,
{
    let f = lengths(d);
    lemma_sum_mono(f, k, 15);
    reveal_with_fuel(sum, 16);
    assert(sum(f, 15) == f(0) + f(1) + f(2) + f(3) + f(4) + f(5) + f(6) + f(7) + f(8) + f(9) + f(10)
        + f(11) + f(12) + f(13) + f(14));
}

/// The cost of a line of eight-bit samples is bounded by its length.
proof fn lemma_line_cost_bound(s: int, n: int)
    requires
        0 <= n <= 8,
        -128 * n <= s <= 128 * n,
    ensures
        0 <= s * s * weight(n) <= 13762560 * n,
{
    let w = weight(n);
    lemma_weight(n);
    assert(0 <= w) by (nonlinear_arith)
        requires
            n * n * w == 840 * n,
            0 <= n,
            n == 0 ==> w == 0,
    ;
    assert(0 <= s * s <= 16384 * (n * n)) by (nonlinear_arith)
        requires
            -128 * n <= s <= 128 * n,
    ;
    assert(0 <= s * s * w <= 16384 * (n * n) * w) by (nonlinear_arith)
        requires
            0 <= s * s <= 16384 * (n * n),
            0 <= w,
    ;
    assert(16384 * (n * n) * w == 16384 * (n * n * w)) by (nonlinear_arith);
}

/// The costs of a block whose samples have eight bits fit 32 bits.
pub proof fn lemma_eight_bit_costs(x: spec_fn(int, int) -> int, d: int)
    requires
        0 <= d < 8,
        forall|i: int, j: int| 0 <= i < 8 && 0 <= j < 8 ==> -128 <= #[trigger] x(i, j) <= 127,
    ensures
        0 <= direction_cost(x, d) <= 880803840,
{
    lemma_eight_bit_sum(x, d, 15);
    lemma_lengths(d, 15);
}

/// The costs of the first lines.
proof fn lemma_eight_bit_sum(x: spec_fn(int, int) -> int, d: int, n: int)
    requires
        0 <= d < 8,
        0 <= n <= 15,
        forall|i: int, j: int| 0 <= i < 8 && 0 <= j < 8 ==> -128 <= #[trigger] x(i, j) <= 127,
    ensures
        0 <= sum(line_cost(x, d), n) <= 13762560 * sum(lengths(d), n),
    decreases n,
{
    if n > 0 {
        lemma_eight_bit_sum(x, d, n - 1);
        let k = n - 1;
        assert forall|i: int, j: int| 0 <= i < 8 && 0 <= j < 8 implies -128 <= #[trigger] x(i, j)
            <= 128 by {}
        lemma_line_sum_bound(x, d, k, 128);
        lemma_line_cost_bound(line_sum(x, d, k), line_length(d, k));
        assert(lengths(d)(k) == line_length(d, k));
        assert(line_cost(x, d)(k) == line_sum(x, d, k) * line_sum(x, d, k) * weight(
            line_length(d, k),
        ));
    }
}

/// The length of a line.
fn length_of(d: usize, k: usize) -> (r: usize)
    requires
        d < 8,
        k < 15,
    ensures
        r == line_length(d as int, k as int),
        r <= 8,
{
    match d {
        2 | 6 => if k < 8 {
            8
        } else {
            0
        },
        0 | 4 => if k <= 7 {
            k + 1
        } else {
            15 - k
        },
        _ => if k > 10 {
            0
        } else if 3 <= k && k <= 7 {
            8
        } else if k < 3 {
            2 * k + 2
        } else {
            22 - 2 * k
        },
    }
}

/// The sums of the lines of a direction.
fn partial_sums(
    rows: &[[i32; 8]; 8],
    d: usize,
    Ghost(x): Ghost<spec_fn(int, int) -> int>,
) -> (r: [i32; 15])
    requires
        d < 8,
        forall|i: int, j: int|
            0 <= i < 8 && 0 <= j < 8 ==> -0xffff <= #[trigger] x(i, j) <= 0xffff && rows[i][j] == x(
                i,
                j,
            ),
    ensures
        forall|k: int| 0 <= k < 15 ==> #[trigger] r[k] == line_sum(x, d as int, k),
{
    let mut partial: [i32; 15] = [0; 15];
    let mut i: usize = 0;
    while i < 8
        invariant
            i <= 8,
            d < 8,
            forall|a: int, b: int|
                0 <= a < 8 && 0 <= b < 8 ==> -0xffff <= #[trigger] x(a, b) <= 0xffff && rows[a][b]
                    == x(a, b),
            forall|k: int|
                0 <= k < 15 ==> #[trigger] partial[k] == block_sum(
                    on_line(x, d as int, k),
                    8,
                    i as int,
                ) && -0x8_0000 * i <= partial[k] <= 0x8_0000 * i,
        decreases 8 - i,
    {
        let row = rows[i];
        let mut j: usize = 0;
        while j < 8
            invariant
                j <= 8,
                i < 8,
                d < 8,
                row == rows[i as int],
                forall|a: int, b: int|
                    0 <= a < 8 && 0 <= b < 8 ==> -0xffff <= #[trigger] x(a, b) <= 0xffff
                        && rows[a][b] == x(a, b),
                forall|k: int|
                    0 <= k < 15 ==> #[trigger] partial[k] == block_sum(
                        on_line(x, d as int, k),
                        8,
                        i as int,
                    ) + sum(row_of(on_line(x, d as int, k), i as int), j as int) && -0x8_0000 * i
                        - 0x1_0000 * j <= partial[k] <= 0x8_0000 * i + 0x1_0000 * j,
            decreases 8 - j,
        {
            let at: usize = line_of(d, i, j);
            let ghost prev = partial;
            assert(-0xffff <= x(i as int, j as int) <= 0xffff);
            assert(-0x8_0000 * i - 0x1_0000 * j <= partial[at as int] <= 0x8_0000 * i + 0x1_0000
                * j);
            partial[at] = partial[at] + row[j];
            proof {
                assert forall|k: int| 0 <= k < 15 implies #[trigger] partial[k] == block_sum(
                    on_line(x, d as int, k),
                    8,
                    i as int,
                ) + sum(row_of(on_line(x, d as int, k), i as int), j + 1) && -0x8_0000 * i
                    - 0x1_0000 * (j + 1) <= partial[k] <= 0x8_0000 * i + 0x1_0000 * (j + 1) by {
                    let g = row_of(on_line(x, d as int, k), i as int);
                    assert(prev[k] == block_sum(on_line(x, d as int, k), 8, i as int) + sum(
                        g,
                        j as int,
                    ));
                    assert(g(j as int) == if k == at {
                        x(i as int, j as int)
                    } else {
                        0
                    });
                    assert(sum(g, j + 1) == sum(g, j as int) + g(j as int));
                }
            }
            j += 1;
        }
        i += 1;
    }
    partial
}

/// The cost of a direction.
fn cost_of(
    rows: &[[i32; 8]; 8],
    d: usize,
    Ghost(x): Ghost<spec_fn(int, int) -> int>,
) -> (r: i64)
    requires
        d < 8,
        forall|i: int, j: int|
            0 <= i < 8 && 0 <= j < 8 ==> -0xffff <= #[trigger] x(i, j) <= 0xffff && rows[i][j] == x(
                i,
                j,
            ),
    ensures
        r == direction_cost(x, d as int),
        0 <= r,
{
    let partial = partial_sums(rows, d, Ghost(x));
    let ghost f = line_cost(x, d as int);
    let mut cost: i64 = 0;
    let mut k: usize = 0;
    while k < 15
        invariant
            k <= 15,
            d < 8,
            f == line_cost(x, d as int),
            forall|i: int, j: int|
                0 <= i < 8 && 0 <= j < 8 ==> -0xffff <= #[trigger] x(i, j) <= 0xffff,
            forall|l: int| 0 <= l < 15 ==> #[trigger] partial[l] == line_sum(x, d as int, l),
            cost == sum(f, k as int),
            0 <= cost <= 0x1_0000_0000_0000 * k,
        decreases 15 - k,
    {
        let n: usize = length_of(d, k);
        let s: i64 = partial[k] as i64;
        let w: i64 = CDEF_DIV_TABLE[n] as i64;
        proof {
            lemma_weight(n as int);
            lemma_line_sum_bound(x, d as int, k as int, 0xffff);
            assert(f(k as int) == s * s * weight(n as int));
            assert(0 <= s * s <= 0x40_0000_0000) by (nonlinear_arith)
                requires
                    -0x8_0000 <= s <= 0x8_0000,
            ;
            assert(0 <= s * s * w <= 0x1_0000_0000_0000) by (nonlinear_arith)
                requires
                    0 <= s * s <= 0x40_0000_0000,
                    0 <= w <= 840,
            ;
        }
        cost = cost + s * s * w;
        k += 1;
    }
    cost
}

/// The position and the value of the first of the largest elements.
fn first_max_element(elems: &[i64; 8]) -> (r: (usize, i64))
    ensures
        r.0 < 8,
        r.1 == elems[r.0 as int],
        forall|k: int| 0 <= k < 8 ==> #[trigger] elems[k] <= r.1,
        forall|k: int| 0 <= k < r.0 ==> #[trigger] elems[k] < r.1,
{
    let mut best: usize = 0;
    let mut i: usize = 1;
    while i < 8
        invariant
            1 <= i <= 8,
            best < i,
            forall|k: int| 0 <= k < i ==> #[trigger] elems[k] <= elems[best as int],
            forall|k: int| 0 <= k < best ==> #[trigger] elems[k] < elems[best as int],
        decreases 8 - i,
    {
        if elems[i] > elems[best] {
            best = i;
        }
        i += 1;
    }
    (best, elems[best])
}

/// The samples of a block, shifted and centred on zero.
fn load_block<T: Sample>(img: &PlaneRegion<'_, T>, shift: u32) -> (r: [[i32; 8]; 8])
    requires
        img.covers(8, 8),
        shift < 32,
    ensures
        forall|i: int, j: int|
            0 <= i < 8 && 0 <= j < 8 ==> #[trigger] r[i][j] == centred(*img, shift as int)(i, j)
                && -128 <= r[i][j] <= 0xffff && (T::storage() == PixelType::U8 ==> r[i][j] <= 127),
{
    let ghost x = centred(*img, shift as int);
    let mut rows: [[i32; 8]; 8] = [[0; 8]; 8];
    let mut i: usize = 0;
    while i < 8
        invariant
            i <= 8,
            img.covers(8, 8),
            shift < 32,
            x == centred(*img, shift as int),
            forall|a: int, b: int|
                0 <= a < i && 0 <= b < 8 ==> #[trigger] rows[a][b] == x(a, b) && -128 <= rows[a][b]
                    <= 0xffff && (T::storage() == PixelType::U8 ==> rows[a][b] <= 127),
        decreases 8 - i,
    {
        proof {
            img.lemma_covers_fewer(8, 8, i + 1);
        }
        let src = img.row(i, 8);
        let mut line: [i32; 8] = [0; 8];
        let mut j: usize = 0;
        while j < 8
            invariant
                j <= 8,
                i < 8,
                src@.len() == 8,
                shift < 32,
                x == centred(*img, shift as int),
                forall|b: int| 0 <= b < 8 ==> (#[trigger] src@[b]).val() == img.at(i as int, b),
                forall|b: int|
                    0 <= b < j ==> #[trigger] line[b] == x(i as int, b) && -128 <= line[b] <= 0xffff
                        && (T::storage() == PixelType::U8 ==> line[b] <= 127),
            decreases 8 - j,
        {
            let p: i32 = src[j].to_i32();
            proof {
                assert(p == img.at(i as int, j as int));
                lemma_shr_bounds(p as int, shift as int);
            }
            line[j] = shr_i32(p, shift) - 128;
            j += 1;
        }
        rows[i] = line;
        i += 1;
    }
    rows
}

/// The costs of the directions of a block.
pub(crate) fn costs_of<T: Sample>(img: &PlaneRegion<'_, T>, shift: u32) -> (r: [i64; 8])
    requires
        img.covers(8, 8),
        shift < 32,
    ensures
        forall|d: int|
            0 <= d < 8 ==> #[trigger] r[d] == direction_cost(centred(*img, shift as int), d) && 0
                <= r[d],
        T::storage() == PixelType::U8 ==> costs_fit(centred(*img, shift as int)),
{
    let ghost x = centred(*img, shift as int);
    let rows = load_block(img, shift);
    assert forall|i: int, j: int| 0 <= i < 8 && 0 <= j < 8 implies -0xffff <= #[trigger] x(i, j)
        <= 0xffff && rows[i][j] == x(i, j) && (T::storage() == PixelType::U8 ==> -128 <= x(i, j)
        <= 127) by {
        assert(rows[i][j] == x(i, j));
    }
    let mut cost: [i64; 8] = [0; 8];
    let mut d: usize = 0;
    while d < 8
        invariant
            d <= 8,
            forall|i: int, j: int|
                0 <= i < 8 && 0 <= j < 8 ==> -0xffff <= #[trigger] x(i, j) <= 0xffff && rows[i][j]
                    == x(i, j),
            forall|k: int| 0 <= k < d ==> #[trigger] cost[k] == direction_cost(x, k) && 0 <= cost[k],
        decreases 8 - d,
    {
        cost[d] = cost_of(&rows, d, Ghost(x));
        d += 1;
    }
    proof {
        if T::storage() == PixelType::U8 {
            assert forall|k: int| 0 <= k < 8 implies #[trigger] direction_cost(x, k) <= i32::MAX by {
                lemma_eight_bit_costs(x, k);
            }
        }
    }
    cost
}

/// The direction of an 8x8 block, and how much it stands out from the one across it.
///
/// The best direction is the one whose lines have sums with the largest squares. `var` is the
/// difference of its cost and that of the orthogonal direction, scaled down. The costs have 32
/// bits: those of eight-bit samples always do.
pub fn cdef_find_dir<T: Sample>(
    img: &PlaneRegion<'_, T>,
    var: &mut u32,
    coeff_shift: usize,
    _cpu: CpuFeatureLevel,
) -> (r: i32)
    requires
        img.covers(8, 8),
        coeff_shift < 32,
        T::storage() == PixelType::U8 || costs_fit(centred(*img, coeff_shift as int)),
    ensures
        best_direction(centred(*img, coeff_shift as int), r as int),
        *final(var) == (direction_cost(centred(*img, coeff_shift as int), r as int)
            - direction_cost(centred(*img, coeff_shift as int), (r + 4) % 8)) / 1024,
{
    let ghost x = centred(*img, coeff_shift as int);
    let cost = costs_of(img, coeff_shift as u32);
    let (best_dir, best_cost) = first_max_element(&cost);
    let across: usize = (best_dir + 4) % 8;
    proof {
        vstd::arithmetic::power2::lemma2_to64();
        assert(cost[across as int] <= best_cost);
        assert(pow2(10) == 1024);
        assert forall|k: int| 0 <= k < 8 implies #[trigger] direction_cost(x, k) == cost[k] by {}
        assert(direction_cost(x, best_dir as int) <= i32::MAX);
        assert(direction_cost(x, across as int) >= 0);
        lemma_shr_bounds(best_cost - cost[across as int], 10);
    }
    *var = shr_i64(best_cost - cost[across], 10) as u32;
    best_dir as i32
}

/// A flat block fits every direction equally well: its direction is 0, and its `var` is 0.
pub proof fn lemma_flat_block(x: spec_fn(int, int) -> int, c: int, r: int)
    requires
        forall|i: int, j: int| 0 <= i < 8 && 0 <= j < 8 ==> #[trigger] x(i, j) == c,
        best_direction(x, r),
    ensures
        r == 0,
        direction_cost(x, r) == direction_cost(x, (r + 4) % 8),
{
    assert forall|d: int| 0 <= d < 8 implies #[trigger] direction_cost(x, d) == 53760 * (c * c) by {
        lemma_flat_cost(x, c, d);
    }
    if r > 0 {
        assert(direction_cost(x, 0) < direction_cost(x, r));
    }
    assert(direction_cost(x, (r + 4) % 8) == 53760 * (c * c));
}

/// The cost of a direction of a flat block.
proof fn lemma_flat_cost(x: spec_fn(int, int) -> int, c: int, d: int)
    requires
        forall|i: int, j: int| 0 <= i < 8 && 0 <= j < 8 ==> #[trigger] x(i, j) == c,
        0 <= d < 8,
    ensures
        direction_cost(x, d) == 53760 * (c * c),
{
    let f = line_cost(x, d);
    assert forall|k: int| 0 <= k < 15 implies #[trigger] f(k) == 840 * line_length(d, k) * (c * c) by {
        let g = on_line(|i: int, j: int| 1int, d, k);
        let h = on_line(x, d, k);
        let n = line_length(d, k);
        lemma_line_length(d, k);
        assert forall|i: int, j: int| 0 <= i < 8 && 0 <= j < 8 implies #[trigger] h(i, j) == c * g(
            i,
            j,
        ) by {
            assert(x(i, j) == c);
            if line(d, i, j) == k {
                assert(c * g(i, j) == c * 1);
            } else {
                assert(c * g(i, j) == c * 0);
            }
        }
        lemma_block_sum_times(h, g, c);
        assert((c * n) * (c * n) * weight(n) == (n * n * weight(n)) * (c * c)) by (nonlinear_arith);
        lemma_weight(n);
    }
    let q = c * c;
    lemma_flat_sum(f, d, q, 15);
    lemma_lengths(d, 15);
    assert(840 * 64 * q == 53760 * q);
}

/// The costs of the first lines of a flat block, added up.
proof fn lemma_flat_sum(f: spec_fn(int) -> int, d: int, q: int, n: int)
    requires
        0 <= n <= 15,
        forall|k: int| 0 <= k < 15 ==> #[trigger] f(k) == 840 * line_length(d, k) * q,
    ensures
        sum(f, n) == 840 * sum(lengths(d), n) * q,
    decreases n,
{
    if n > 0 {
        lemma_flat_sum(f, d, q, n - 1);
        let a = sum(lengths(d), n - 1);
        let b = line_length(d, n - 1);
        assert(f(n - 1) == 840 * b * q);
        assert(lengths(d)(n - 1) == b);
        assert(840 * a * q + 840 * b * q == 840 * (a + b) * q) by (nonlinear_arith);
    } else {
        assert(840 * 0 * q == 0) by (nonlinear_arith);
    }
}

/// The sum of a block that is `c` times another one.
proof fn lemma_block_sum_times(f: spec_fn(int, int) -> int, g: spec_fn(int, int) -> int, c: int)
    requires
        forall|i: int, j: int| 0 <= i < 8 && 0 <= j < 8 ==> #[trigger] f(i, j) == c * g(i, j),
    ensures
        block_sum(f, 8, 8) == c * block_sum(g, 8, 8),
{
    lemma_times(f, g, c, 8);
}

/// The induction of `lemma_block_sum_times`, by rows.
proof fn lemma_times(f: spec_fn(int, int) -> int, g: spec_fn(int, int) -> int, c: int, h: int)
    requires
        0 <= h <= 8,
        forall|i: int, j: int| 0 <= i < 8 && 0 <= j < 8 ==> #[trigger] f(i, j) == c * g(i, j),
    ensures
        block_sum(f, 8, h) == c * block_sum(g, 8, h),
    decreases h,
{
    if h > 0 {
        lemma_times(f, g, c, h - 1);
        lemma_times_row(f, g, c, h - 1, 8);
        let a = block_sum(g, 8, h - 1);
        let b = sum(row_of(g, h - 1), 8);
        assert(c * (a + b) == c * a + c * b) by (nonlinear_arith);
    } else {
        assert(c * 0 == 0);
    }
}

/// The induction of `lemma_block_sum_times`, along a row.
proof fn lemma_times_row(
    f: spec_fn(int, int) -> int,
    g: spec_fn(int, int) -> int,
    c: int,
    y: int,
    n: int,
)
    requires
        0 <= n <= 8,
        0 <= y < 8,
        forall|i: int, j: int| 0 <= i < 8 && 0 <= j < 8 ==> #[trigger] f(i, j) == c * g(i, j),
    ensures
        sum(row_of(f, y), n) == c * sum(row_of(g, y), n),
    decreases n,
{
    if n > 0 {
        lemma_times_row(f, g, c, y, n - 1);
        let a = sum(row_of(g, y), n - 1);
        let b = g(y, n - 1);
        assert(f(y, n - 1) == c * b);
        assert(c * (a + b) == c * a + c * b) by (nonlinear_arith);
    } else {
        assert(c * 0 == 0);
    }
}

// ---------------------------------------------------------------------------
// The filter
// ---------------------------------------------------------------------------

/// How a block is filtered.
#[derive(Debug, Copy, Clone, PartialEq, Eq, Structural)]
pub struct CdefTaps {
    /// The strength along the direction.
    pub pri_strength: i32,
    /// The strength across the direction.
    pub sec_strength: i32,
    /// How fast the strength along the direction falls with the difference.
    pub pri_shift: u32,
    /// How fast the strength across the direction falls with the difference.
    pub sec_shift: u32,
    /// The direction.
    pub dir: usize,
    /// Whether the taps along the direction weigh the same.
    pub even: bool,
}

/// The step of direction `d`, in rows and columns, to its neighbour `k`.
pub open spec fn direction_step(d: int, k: int) -> (int, int) {
    if d == 0 {
        if k == 0 {
            (-1, 1)
        } else {
            (-2, 2)
        }
    } else if d == 1 {
        if k == 0 {
            (0, 1)
        } else {
            (-1, 2)
        }
    } else if d == 2 {
        if k == 0 {
            (0, 1)
        } else {
            (0, 2)
        }
    } else if d == 3 {
        if k == 0 {
            (0, 1)
        } else {
            (1, 2)
        }
    } else if d == 4 {
        if k == 0 {
            (1, 1)
        } else {
            (2, 2)
        }
    } else if d == 5 {
        if k == 0 {
            (1, 0)
        } else {
            (2, 1)
        }
    } else if d == 6 {
        if k == 0 {
            (1, 0)
        } else {
            (2, 0)
        }
    } else {
        if k == 0 {
            (1, 0)
        } else {
            (2, -1)
        }
    }
}

/// A difference, limited by a threshold that falls with its size.
pub open spec fn constrain(diff: int, threshold: int, shift: int) -> int {
    if threshold == 0 {
        0
    } else {
        let magnitude = clamp_int(threshold - shr(abs_int(diff), shift), 0, abs_int(diff));
        if diff < 0 {
            -magnitude
        } else {
            magnitude
        }
    }
}

/// The position of the highest bit of a positive number.
pub open spec fn msb_of(x: int) -> int
    decreases x,
{
    if x <= 1 {
        0
    } else {
        1 + msb_of(x / 2)
    }
}

/// The shift that belongs to a strength.
pub open spec fn constrain_shift_of(strength: int, damping: int) -> int {
    if strength > 0 {
        max_int(0, damping - msb_of(strength))
    } else {
        0
    }
}

/// Whether the shift that belongs to a strength can be computed in 32 bits, and words be shifted
/// by it.
pub open spec fn shift_fits(strength: int, damping: int) -> bool {
    &&& strength > 0 ==> i32::MIN <= damping - msb_of(strength)
    &&& constrain_shift_of(strength, damping) < 32
}

/// The filter that belongs to the given strengths.
pub open spec fn filter_of(
    pri_strength: i32,
    sec_strength: i32,
    dir: usize,
    damping: i32,
    bit_depth: usize,
) -> CdefTaps {
    CdefTaps {
        pri_strength,
        sec_strength,
        pri_shift: constrain_shift_of(pri_strength as int, damping as int) as u32,
        sec_shift: constrain_shift_of(sec_strength as int, damping as int) as u32,
        dir,
        even: shr(pri_strength as int, bit_depth - 8) % 2 == 1,
    }
}

/// The number of taps of the filter.
pub open spec fn tap_count() -> int {
    12
}

impl CdefTaps {
    /// Whether tap `t` lies along the direction rather than across it.
    pub open spec fn primary(self, t: int) -> bool {
        t % 6 < 2
    }

    /// The place of tap `t`, relative to the sample that is filtered: near ones first, along the
    /// direction first, and each before its opposite.
    pub open spec fn step(self, t: int) -> (int, int) {
        let d = if t % 6 < 2 {
            self.dir as int
        } else if t % 6 < 4 {
            (self.dir + 2) % 8
        } else {
            (self.dir + 6) % 8
        };
        let s = direction_step(d, t / 6);
        if t % 2 == 0 {
            s
        } else {
            (-s.0, -s.1)
        }
    }

    /// The strength of tap `t`.
    pub open spec fn strength(self, t: int) -> int {
        if self.primary(t) {
            self.pri_strength as int
        } else {
            self.sec_strength as int
        }
    }

    /// The shift of tap `t`.
    pub open spec fn shift(self, t: int) -> int {
        if self.primary(t) {
            self.pri_shift as int
        } else {
            self.sec_shift as int
        }
    }

    /// The weight of tap `t`.
    pub open spec fn weight(self, t: int) -> int {
        if self.primary(t) {
            if self.even {
                3
            } else if t < 6 {
                4
            } else {
                2
            }
        } else if t < 6 {
            2
        } else {
            1
        }
    }

    /// The sample under tap `t`.
    pub open spec fn tap<U: Sample>(
        self,
        input: PlaneRegion<'_, U>,
        y: int,
        x: int,
        t: int,
    ) -> int {
        input.at(y + self.step(t).0, x + self.step(t).1)
    }

    /// The weighted, limited differences of the first `n` taps.
    pub open spec fn sum_to<U: Sample>(
        self,
        input: PlaneRegion<'_, U>,
        y: int,
        x: int,
        n: int,
    ) -> int
        decreases n,
    {
        if n <= 0 {
            0
        } else {
            self.sum_to(input, y, x, n - 1) + self.weight(n - 1) * constrain(
                self.tap(input, y, x, n - 1) - input.at(y, x),
                self.strength(n - 1),
                self.shift(n - 1),
            )
        }
    }

    /// The largest of a sample and the first `n` taps that lie in the frame.
    pub open spec fn max_to<U: Sample>(
        self,
        input: PlaneRegion<'_, U>,
        y: int,
        x: int,
        n: int,
    ) -> int
        decreases n,
    {
        if n <= 0 {
            input.at(y, x)
        } else {
            let p = self.tap(input, y, x, n - 1);
            if p == CDEF_VERY_LARGE {
                self.max_to(input, y, x, n - 1)
            } else {
                max_int(self.max_to(input, y, x, n - 1), p)
            }
        }
    }

    /// The smallest of a sample and the first `n` taps.
    pub open spec fn min_to<U: Sample>(
        self,
        input: PlaneRegion<'_, U>,
        y: int,
        x: int,
        n: int,
    ) -> int
        decreases n,
    {
        if n <= 0 {
            input.at(y, x)
        } else {
            min_int(self.min_to(input, y, x, n - 1), self.tap(input, y, x, n - 1))
        }
    }

    /// The filtered sample: moved by a sixteenth of the sum, rounded to the nearest and halves
    /// away from zero, and kept among its neighbours.
    pub open spec fn filtered<U: Sample>(self, input: PlaneRegion<'_, U>, y: int, x: int) -> int {
        filtered_value(
            input.at(y, x),
            self.sum_to(input, y, x, tap_count()),
            self.min_to(input, y, x, tap_count()),
            self.max_to(input, y, x, tap_count()),
        )
    }

    /// Whether the parameters are in range.
    pub open spec fn valid(self) -> bool {
        &&& self.dir < 8
        &&& self.pri_shift < 32
        &&& self.sec_shift < 32
        &&& -0x7fff_0001 <= self.pri_strength
        &&& -0x7fff_0001 <= self.sec_strength
    }

    /// Whether every tap of a block of `w` columns and `h` rows lies in the storage.
    pub open spec fn taps_in_storage<U: Sample>(
        self,
        input: PlaneRegion<'_, U>,
        w: int,
        h: int,
    ) -> bool {
        forall|y: int, x: int, t: int|
            #![trigger self.tap(input, y, x, t)]
            0 <= y < h && 0 <= x < w && 0 <= t < tap_count() ==> 0 <= sample_index(
                input.origin as int,
                input.stride as int,
                y + self.step(t).0,
                x + self.step(t).1,
            ) < input.data@.len()
    }
}

/// A sample moved by a sixteenth of `sum`, kept between `min` and `max`.
pub open spec fn filtered_value(x: int, sum: int, min: int, max: int) -> int {
    let adjust: int = if sum < 0 {
        1
    } else {
        0
    };
    min_int(max_int(x + shr(8 + sum - adjust, 4), min), max)
}

/// The number of rows or columns of a block in a plane that is subsampled `dec` times.
pub open spec fn block_side(dec: int) -> int {
    shr(8, dec)
}

/// Whether a block is filtered in vectors: where there are vectors and all neighbours.
pub open spec fn filters_in_vectors(edges: u8, cpu: CpuFeatureLevel) -> bool {
    cpu == CpuFeatureLevel::SIMD128 && edges == CDEF_HAVE_ALL
}

/// The position of the highest bit.
fn msb(x: i32) -> (r: i32)
    requires
        x > 0,
    ensures
        r == msb_of(x as int),
        0 <= r <= 30,
{
    let mut rest: i32 = x;
    let mut r: i32 = 0;
    let ghost mut top: int = 0x8000_0000;
    proof {
        vstd::arithmetic::power2::lemma2_to64();
    }
    while rest > 1
        invariant
            0 < rest < top,
            r + msb_of(rest as int) == msb_of(x as int),
            0 <= r,
            top == pow2((31 - r) as nat),
            r <= 31,
        decreases rest,
    {
        proof {
            vstd::arithmetic::power2::lemma2_to64();
            if r >= 30 {
                assert(pow2(1) == 2 && pow2(0) == 1);
            }
            vstd::arithmetic::power2::lemma_pow2_adds((30 - r) as nat, 1);
            top = pow2((30 - r) as nat) as int;
        }
        rest = rest / 2;
        r += 1;
    }
    proof {
        vstd::arithmetic::power2::lemma2_to64();
    }
    r
}

/// The highest bit of a number bounds it from both sides.
pub proof fn lemma_msb(x: int)
    requires
        x > 0,
    ensures
        msb_of(x) >= 0,
        pow2(msb_of(x) as nat) <= x < pow2((msb_of(x) + 1) as nat),
    decreases x,
{
    vstd::arithmetic::power2::lemma2_to64();
    if x > 1 {
        lemma_msb(x / 2);
        vstd::arithmetic::power2::lemma_pow2_adds(msb_of(x / 2) as nat, 1);
        vstd::arithmetic::power2::lemma_pow2_adds((msb_of(x / 2) + 1) as nat, 1);
    }
}

/// The shift that belongs to a strength.
fn constrain_shift(strength: i32, damping: i32) -> (r: u32)
    requires
        shift_fits(strength as int, damping as int),
    ensures
        r == constrain_shift_of(strength as int, damping as int),
        r < 32,
{
    if strength > 0 {
        let m: i32 = msb(strength);
        let d: i32 = damping - m;
        if d > 0 {
            d as u32
        } else {
            0
        }
    } else {
        0
    }
}

/// A limited difference is no larger than the difference.
proof fn lemma_constrain_bound(diff: int, threshold: int, shift: int)
    ensures
        -abs_int(diff) <= constrain(diff, threshold, shift) <= abs_int(diff),
{
}

/// A limited difference has the sign of the difference, and is no larger than the difference and
/// the threshold. The opposite difference is limited to the opposite.
pub proof fn lemma_constrain(diff: int, threshold: int, shift: int)
    requires
        0 <= threshold,
        0 <= shift,
    ensures
        diff >= 0 ==> 0 <= constrain(diff, threshold, shift) <= min_int(diff, threshold),
        diff < 0 ==> -min_int(-diff, threshold) <= constrain(diff, threshold, shift) <= 0,
        constrain(-diff, threshold, shift) == -constrain(diff, threshold, shift),
{
    lemma_shr_bounds(abs_int(diff), shift);
}

/// Whether a difference can be limited in 32 bits.
pub open spec fn constrain_fits(diff: int, threshold: int, shift: int) -> bool {
    &&& diff != i32::MIN
    &&& i32::MIN <= threshold - shr(abs_int(diff), shift)
}

/// Small differences can be limited by all but the lowest thresholds.
proof fn lemma_constrain_fits(diff: int, threshold: int, shift: int)
    requires
        -0x7fff_0001 <= threshold,
        0 <= shift,
        -0xffff <= diff <= 0xffff,
    ensures
        constrain_fits(diff, threshold, shift),
{
    lemma_shr_bounds(abs_int(diff), shift);
}

/// Four limited differences, weighted.
pub fn constrain_simd(diff: v128, threshold: i32, shift: u32, tap: i32) -> (r: v128)
    requires
        shift < 32,
        forall|k: int|
            0 <= k < 4 ==> constrain_fits(
                #[trigger] diff.lane_i32(k) as int,
                threshold as int,
                shift as int,
            ),
        forall|k: int|
            0 <= k < 4 ==> i32::MIN <= tap * constrain(
                #[trigger] diff.lane_i32(k) as int,
                threshold as int,
                shift as int,
            ) <= i32::MAX,
    ensures
        forall|k: int|
            0 <= k < 4 ==> #[trigger] r.lane_i32(k) == tap * constrain(
                diff.lane_i32(k) as int,
                threshold as int,
                shift as int,
            ),
{
    if threshold == 0 {
        let r = i32x4_splat(0);
        assert(tap * 0 == 0);
        return r;
    }
    let threshold_vec = i32x4_splat(threshold);
    let tap_vec = i32x4_splat(tap);
    let abs_diff = i32x4_abs(diff);
    let shifted = i32x4_shr(abs_diff, shift);
    let reduced = i32x4_sub(threshold_vec, shifted);
    let zero = i32x4_splat(0);
    let magnitude = i32x4_min(i32x4_max(reduced, zero), abs_diff);
    let neg_magnitude = i32x4_neg(magnitude);
    let is_negative = i32x4_lt(diff, zero);
    let signed = v128_bitselect(neg_magnitude, magnitude, is_negative);
    let r = i32x4_mul(tap_vec, signed);
    proof {
        assert forall|k: int| 0 <= k < 4 implies #[trigger] r.lane_i32(k) == tap * constrain(
            diff.lane_i32(k) as int,
            threshold as int,
            shift as int,
        ) by {
            let d = diff.lane_i32(k) as int;
            let c = constrain(d, threshold as int, shift as int);
            assert(constrain_fits(d, threshold as int, shift as int));
            assert(zero.lane_i32(k) == 0 && threshold_vec.lane_i32(k) == threshold);
            assert(abs_diff.lane_i32(k) == abs_int(d));
            lemma_shr_bounds(abs_int(d), shift as int);
            assert(shifted.lane_i32(k) == shr(abs_int(d), shift as int));
            assert(reduced.lane_i32(k) == threshold - shr(abs_int(d), shift as int));
            assert(magnitude.lane_i32(k) == clamp_int(
                threshold - shr(abs_int(d), shift as int),
                0,
                abs_int(d),
            ));
            assert(neg_magnitude.lane_i32(k) == -magnitude.lane_i32(k));
            assert(is_negative.lane_i32(k) == mask(d < 0));
            lemma_select_bits(neg_magnitude.lane_i32(k), magnitude.lane_i32(k));
            assert(signed.lane_i32(k) == c);
            assert(tap_vec.lane_i32(k) == tap);
        }
    }
    r
}

/// One limited difference.
fn constrain_scalar(diff: i32, threshold: i32, shift: u32) -> (r: i32)
    requires
        shift < 32,
        constrain_fits(diff as int, threshold as int, shift as int),
    ensures
        r == constrain(diff as int, threshold as int, shift as int),
{
    if threshold == 0 {
        return 0;
    }
    let abs_diff: i32 = if diff < 0 {
        -diff
    } else {
        diff
    };
    proof {
        lemma_shr_bounds(abs_diff as int, shift as int);
    }
    let magnitude: i32 = clamp(threshold - shr_i32(abs_diff, shift), 0, abs_diff);
    if diff < 0 {
        -magnitude
    } else {
        magnitude
    }
}

/// The step of a direction.
fn direction_of(d: usize, k: usize) -> (r: (i32, i32))
    requires
        d < 8,
        k < 2,
    ensures
        (r.0 as int, r.1 as int) == direction_step(d as int, k as int),
        -2 <= r.0 <= 2,
        -2 <= r.1 <= 2,
{
    let near: [(i32, i32); 8] = [(-1, 1), (0, 1), (0, 1), (0, 1), (1, 1), (1, 0), (1, 0), (1, 0)];
    let far: [(i32, i32); 8] = [(-2, 2), (-1, 2), (0, 2), (1, 2), (2, 2), (2, 1), (2, 0), (2, -1)];
    if k == 0 {
        near[d]
    } else {
        far[d]
    }
}

impl CdefTaps {
    /// The place of tap `t`.
    fn step_of(&self, t: usize) -> (r: (i32, i32))
        requires
            self.valid(),
            t < tap_count(),
        ensures
            (r.0 as int, r.1 as int) == self.step(t as int),
            -2 <= r.0 <= 2,
            -2 <= r.1 <= 2,
    {
        let u: usize = t % 6;
        let d: usize = if u < 2 {
            self.dir
        } else if u < 4 {
            (self.dir + 2) % 8
        } else {
            (self.dir + 6) % 8
        };
        let (dy, dx) = direction_of(d, t / 6);
        if t % 2 == 0 {
            (dy, dx)
        } else {
            (-dy, -dx)
        }
    }

    /// The weight, the strength and the shift of tap `t`.
    fn tap_of(&self, t: usize) -> (r: (i32, i32, u32))
        requires
            self.valid(),
            t < tap_count(),
        ensures
            r.0 == self.weight(t as int),
            r.1 == self.strength(t as int),
            r.2 == self.shift(t as int),
            1 <= r.0 <= 4,
            r.2 < 32,
            -0x7fff_0001 <= r.1,
    {
        let far = t >= 6;
        if t % 6 < 2 {
            let w: i32 = if self.even {
                3
            } else if far {
                2
            } else {
                4
            };
            (w, self.pri_strength, self.pri_shift)
        } else {
            let w: i32 = if far {
                1
            } else {
                2
            };
            (w, self.sec_strength, self.sec_shift)
        }
    }

    /// The bounds of a running sum, maximum and minimum.
    proof fn lemma_bounds<U: Sample>(self, input: PlaneRegion<'_, U>, y: int, x: int, n: int)
        requires
            0 <= n <= tap_count(),
        ensures
            -0x4_0000 * n <= self.sum_to(input, y, x, n) <= 0x4_0000 * n,
            0 <= self.min_to(input, y, x, n) <= input.at(y, x) <= self.max_to(input, y, x, n)
                <= 0xffff,
        decreases n,
    {
        input.lemma_at_range(y, x);
        if n > 0 {
            self.lemma_bounds(input, y, x, n - 1);
            let t = n - 1;
            input.lemma_at_range(y + self.step(t).0, x + self.step(t).1);
            let c = constrain(
                self.tap(input, y, x, t) - input.at(y, x),
                self.strength(t),
                self.shift(t),
            );
            lemma_constrain_bound(
                self.tap(input, y, x, t) - input.at(y, x),
                self.strength(t),
                self.shift(t),
            );
            let w = self.weight(t);
            assert(-0x4_0000 <= w * c <= 0x4_0000) by (nonlinear_arith)
                requires
                    0 <= w <= 4,
                    -0xffff <= c <= 0xffff,
            ;
        }
    }
}

/// The sample `dy` rows and `dx` columns away.
fn sample_near<U: Sample>(
    input: &PlaneRegion<'_, U>,
    y: usize,
    x: usize,
    dy: i32,
    dx: i32,
) -> (r: i32)
    requires
        y < 8,
        x < 8,
        -2 <= dy <= 2,
        -2 <= dx <= 2,
        0 <= sample_index(input.origin as int, input.stride as int, y + dy, x + dx)
            < input.data@.len(),
    ensures
        r == input.at(y + dy, x + dx),
        0 <= r <= 0xffff,
{
    let row: i128 = y as i128 + dy as i128;
    let stride: i128 = input.stride as i128;
    proof {
        assert(-0x1000_0000_0000_0000_0000 <= row * stride <= 0x1000_0000_0000_0000_0000)
            by (nonlinear_arith)
            requires
                -2 <= row <= 10,
                0 <= stride <= 0xffff_ffff_ffff_ffff,
        ;
    }
    let len: usize = input.data.len();
    assert(len == input.data@.len());
    let at: i128 = input.origin as i128 + row * stride + x as i128 + dx as i128;
    input.data[at as usize].to_i32()
}

/// The filtered samples of four columns.
fn filter_lanes<U: Sample>(
    input: &PlaneRegion<'_, U>,
    taps: &CdefTaps,
    y: usize,
    x: usize,
    Ghost(w): Ghost<int>,
    Ghost(h): Ghost<int>,
) -> (r: v128)
    requires
        taps.valid(),
        taps.taps_in_storage(*input, w, h),
        input.covers(w, h),
        y < h <= 8,
        x + 4 <= w <= 8,
    ensures
        forall|l: int|
            0 <= l < 4 ==> #[trigger] r.lane_i32(l) == taps.filtered(*input, y as int, x + l),
{
    let center = load_near(input, y, x, 0, 0, Ghost(w), Ghost(h));
    let very_large = i32x4_splat(CDEF_VERY_LARGE as i32);
    let mut sum = i32x4_splat(0);
    let mut max = center;
    let mut min = center;
    let mut t: usize = 0;
    while t < 12
        invariant
            t <= 12,
            taps.valid(),
            taps.taps_in_storage(*input, w, h),
            y < h <= 8,
            x + 4 <= w <= 8,
            forall|l: int| 0 <= l < 4 ==> #[trigger] very_large.lane_i32(l) == CDEF_VERY_LARGE,
            forall|l: int| 0 <= l < 4 ==> #[trigger] center.lane_i32(l) == input.at(y as int, x + l),
            forall|l: int|
                0 <= l < 4 ==> #[trigger] sum.lane_i32(l) == taps.sum_to(
                    *input,
                    y as int,
                    x + l,
                    t as int,
                ),
            forall|l: int|
                0 <= l < 4 ==> #[trigger] max.lane_i32(l) == taps.max_to(
                    *input,
                    y as int,
                    x + l,
                    t as int,
                ),
            forall|l: int|
                0 <= l < 4 ==> #[trigger] min.lane_i32(l) == taps.min_to(
                    *input,
                    y as int,
                    x + l,
                    t as int,
                ),
        decreases 12 - t,
    {
        let (dy, dx) = taps.step_of(t);
        let (tap_weight, strength, shift) = taps.tap_of(t);
        proof {
            assert forall|l: int| 0 <= l < 4 implies 0 <= #[trigger] sample_index(
                input.origin as int,
                input.stride as int,
                y + dy,
                x + l + dx,
            ) < input.data@.len() by {
                let p = taps.tap(*input, y as int, x + l, t as int);
            }
        }
        let p = load_four(input, y, x, dy, dx);
        let diff = i32x4_sub(p, center);
        proof {
            assert forall|l: int| 0 <= l < 4 implies #[trigger] diff.lane_i32(l) == taps.tap(
                *input,
                y as int,
                x + l,
                t as int,
            ) - input.at(y as int, x + l) && -0xffff <= diff.lane_i32(l) <= 0xffff by {
                input.lemma_at_range(y as int, x + l);
                input.lemma_at_range(y + dy, x + l + dx);
                assert(p.lane_i32(l) == input.at(y + dy, x + l + dx));
                assert(center.lane_i32(l) == input.at(y as int, x + l));
            }
            assert forall|l: int| 0 <= l < 4 implies constrain_fits(
                #[trigger] diff.lane_i32(l) as int,
                strength as int,
                shift as int,
            ) && i32::MIN <= tap_weight * constrain(
                diff.lane_i32(l) as int,
                strength as int,
                shift as int,
            ) <= i32::MAX by {
                let d = diff.lane_i32(l) as int;
                let c = constrain(d, strength as int, shift as int);
                assert(-0xffff <= diff.lane_i32(l) <= 0xffff);
                lemma_constrain_fits(d, strength as int, shift as int);
                lemma_constrain_bound(d, strength as int, shift as int);
                assert(-0x4_0000 <= tap_weight * c <= 0x4_0000) by (nonlinear_arith)
                    requires
                        0 <= tap_weight <= 4,
                        -0xffff <= c <= 0xffff,
                ;
            }
        }
        let moved = constrain_simd(diff, strength, shift, tap_weight);
        let next_sum = i32x4_add(sum, moved);
        let is_valid = i32x4_ne(p, very_large);
        let next_max = v128_bitselect(i32x4_max(max, p), max, is_valid);
        let next_min = i32x4_min(min, p);
        proof {
            assert forall|l: int| 0 <= l < 4 implies #[trigger] next_sum.lane_i32(l) == taps.sum_to(
                *input,
                y as int,
                x + l,
                t + 1,
            ) && next_max.lane_i32(l) == taps.max_to(*input, y as int, x + l, t + 1)
                && next_min.lane_i32(l) == taps.min_to(*input, y as int, x + l, t + 1) by {
                taps.lemma_bounds(*input, y as int, x + l, t as int);
                taps.lemma_bounds(*input, y as int, x + l, t + 1);
                assert(diff.lane_i32(l) == taps.tap(*input, y as int, x + l, t as int) - input.at(
                    y as int,
                    x + l,
                ));
                assert(moved.lane_i32(l) == tap_weight * constrain(
                    diff.lane_i32(l) as int,
                    strength as int,
                    shift as int,
                ));
                assert(sum.lane_i32(l) == taps.sum_to(*input, y as int, x + l, t as int));
                assert(max.lane_i32(l) == taps.max_to(*input, y as int, x + l, t as int));
                assert(min.lane_i32(l) == taps.min_to(*input, y as int, x + l, t as int));
                assert(very_large.lane_i32(l) == CDEF_VERY_LARGE);
                assert(p.lane_i32(l) == taps.tap(*input, y as int, x + l, t as int));
                assert(is_valid.lane_i32(l) == mask(p.lane_i32(l) != CDEF_VERY_LARGE));
                lemma_select_bits(
                    max_int(max.lane_i32(l) as int, p.lane_i32(l) as int) as i32,
                    max.lane_i32(l),
                );
            }
        }
        proof {
            assert forall|l: int| 0 <= l < 4 implies #[trigger] next_max.lane_i32(l) == taps.max_to(
                *input,
                y as int,
                x + l,
                t + 1,
            ) by {
                assert(next_sum.lane_i32(l) == taps.sum_to(*input, y as int, x + l, t + 1));
            }
            assert forall|l: int| 0 <= l < 4 implies #[trigger] next_min.lane_i32(l) == taps.min_to(
                *input,
                y as int,
                x + l,
                t + 1,
            ) by {
                assert(next_sum.lane_i32(l) == taps.sum_to(*input, y as int, x + l, t + 1));
            }
        }
        sum = next_sum;
        max = next_max;
        min = next_min;
        t += 1;
    }
    let is_neg = i32x4_lt(sum, i32x4_splat(0));
    let one = i32x4_splat(1);
    let neg_adj = v128_and(is_neg, one);
    let eight = i32x4_splat(8);
    let adjusted = i32x4_sub(i32x4_add(eight, sum), neg_adj);
    let shifted = i32x4_shr(adjusted, 4);
    let v = i32x4_add(center, shifted);
    let r = i32x4_min(i32x4_max(v, min), max);
    proof {
        assert(-1i32 & 1i32 == 1i32 && 0i32 & 1i32 == 0i32) by (bit_vector);
        assert forall|l: int| 0 <= l < 4 implies #[trigger] r.lane_i32(l) == taps.filtered(
            *input,
            y as int,
            x + l,
        ) by {
            taps.lemma_bounds(*input, y as int, x + l, 12);
            let s = taps.sum_to(*input, y as int, x + l, 12);
            assert(sum.lane_i32(l) == s);
            assert(center.lane_i32(l) == input.at(y as int, x + l));
            assert(max.lane_i32(l) == taps.max_to(*input, y as int, x + l, 12));
            assert(min.lane_i32(l) == taps.min_to(*input, y as int, x + l, 12));
            assert(is_neg.lane_i32(l) == mask(s < 0));
            assert(one.lane_i32(l) == 1 && eight.lane_i32(l) == 8);
            let adjust: int = if s < 0 {
                1
            } else {
                0
            };
            assert(neg_adj.lane_i32(l) == adjust);
            assert(adjusted.lane_i32(l) == 8 + s - adjust);
            lemma_shr_bounds(8 + s - adjust, 4);
            assert(v.lane_i32(l) == input.at(y as int, x + l) + shr(8 + s - adjust, 4));
        }
    }
    r
}

/// Four samples, `dy` rows and `dx` columns away.
fn load_four<U: Sample>(
    input: &PlaneRegion<'_, U>,
    y: usize,
    x: usize,
    dy: i32,
    dx: i32,
) -> (r: v128)
    requires
        y < 8,
        x + 4 <= 8,
        -2 <= dy <= 2,
        -2 <= dx <= 2,
        forall|l: int|
            0 <= l < 4 ==> 0 <= #[trigger] sample_index(
                input.origin as int,
                input.stride as int,
                y + dy,
                x + l + dx,
            ) < input.data@.len(),
    ensures
        forall|l: int| 0 <= l < 4 ==> #[trigger] r.lane_i32(l) == input.at(y + dy, x + l + dx),
{
    assert(0 <= sample_index(input.origin as int, input.stride as int, y + dy, x + 0 + dx));
    assert(0 <= sample_index(input.origin as int, input.stride as int, y + dy, x + 1 + dx));
    assert(0 <= sample_index(input.origin as int, input.stride as int, y + dy, x + 2 + dx));
    assert(0 <= sample_index(input.origin as int, input.stride as int, y + dy, x + 3 + dx));
    i32x4(
        sample_near(input, y, x, dy, dx),
        sample_near(input, y, x + 1, dy, dx),
        sample_near(input, y, x + 2, dy, dx),
        sample_near(input, y, x + 3, dy, dx),
    )
}

/// Four samples of a block.
fn load_near<U: Sample>(
    input: &PlaneRegion<'_, U>,
    y: usize,
    x: usize,
    dy: i32,
    dx: i32,
    Ghost(w): Ghost<int>,
    Ghost(h): Ghost<int>,
) -> (r: v128)
    requires
        input.covers(w, h),
        y < h <= 8,
        x + 4 <= w <= 8,
        dy == 0,
        dx == 0,
    ensures
        forall|l: int| 0 <= l < 4 ==> #[trigger] r.lane_i32(l) == input.at(y as int, x + l),
{
    proof {
        assert forall|l: int| 0 <= l < 4 implies 0 <= #[trigger] sample_index(
            input.origin as int,
            input.stride as int,
            y + dy,
            x + l + dx,
        ) < input.data@.len() by {
            crate::plane::lemma_spans(
                input.data@.len() as int,
                input.origin as int,
                input.stride as int,
                0,
                h,
                0,
                w,
                y as int,
                x + l,
            );
        }
    }
    let r = load_four(input, y, x, dy, dx);
    assert forall|l: int| 0 <= l < 4 implies #[trigger] r.lane_i32(l) == input.at(
        y as int,
        x + l,
    ) by {
        assert(r.lane_i32(l) == input.at(y + dy, x + l + dx));
    }
    r
}

/// The filtered sample of one column.
fn filter_scalar<U: Sample>(
    input: &PlaneRegion<'_, U>,
    taps: &CdefTaps,
    y: usize,
    x: usize,
    Ghost(w): Ghost<int>,
    Ghost(h): Ghost<int>,
) -> (r: i32)
    requires
        taps.valid(),
        taps.taps_in_storage(*input, w, h),
        input.covers(w, h),
        y < h <= 8,
        x < w <= 8,
    ensures
        r == taps.filtered(*input, y as int, x as int),
{
    proof {
        crate::plane::lemma_spans(
            input.data@.len() as int,
            input.origin as int,
            input.stride as int,
            0,
            h,
            0,
            w,
            y as int,
            x as int,
        );
    }
    let center: i32 = sample_near(input, y, x, 0, 0);
    let mut sum: i32 = 0;
    let mut max: i32 = center;
    let mut min: i32 = center;
    let mut t: usize = 0;
    while t < 12
        invariant
            t <= 12,
            taps.valid(),
            taps.taps_in_storage(*input, w, h),
            y < h <= 8,
            x < w <= 8,
            center == input.at(y as int, x as int),
            sum == taps.sum_to(*input, y as int, x as int, t as int),
            max == taps.max_to(*input, y as int, x as int, t as int),
            min == taps.min_to(*input, y as int, x as int, t as int),
        decreases 12 - t,
    {
        let (dy, dx) = taps.step_of(t);
        let (tap_weight, strength, shift) = taps.tap_of(t);
        proof {
            let p = taps.tap(*input, y as int, x as int, t as int);
            taps.lemma_bounds(*input, y as int, x as int, t as int);
            taps.lemma_bounds(*input, y as int, x as int, t + 1);
        }
        let p: i32 = sample_near(input, y, x, dy, dx);
        proof {
            lemma_constrain_fits(p - center, strength as int, shift as int);
        }
        let moved: i32 = constrain_scalar(p - center, strength, shift);
        proof {
            lemma_constrain_bound(p - center, strength as int, shift as int);
            assert(-0x4_0000 <= tap_weight * moved <= 0x4_0000) by (nonlinear_arith)
                requires
                    0 <= tap_weight <= 4,
                    -0xffff <= moved <= 0xffff,
            ;
        }
        sum = sum + tap_weight * moved;
        if p != CDEF_VERY_LARGE as i32 && p > max {
            max = p;
        }
        if p < min {
            min = p;
        }
        t += 1;
    }
    proof {
        taps.lemma_bounds(*input, y as int, x as int, 12);
    }
    let adjust: i32 = if sum < 0 {
        1
    } else {
        0
    };
    proof {
        lemma_shr_bounds(8 + sum - adjust, 4);
    }
    let v: i32 = center + shr_i32(8 + sum - adjust, 4);
    let raised: i32 = if v < min {
        min
    } else {
        v
    };
    if raised > max {
        max
    } else {
        raised
    }
}

/// The samples of a filtered row.
fn filter_row<T: Sample, U: Sample>(
    input: &PlaneRegion<'_, U>,
    taps: &CdefTaps,
    y: usize,
    w: usize,
    Ghost(h): Ghost<int>,
) -> (r: Vec<T>)
    requires
        taps.valid(),
        taps.taps_in_storage(*input, w as int, h),
        input.covers(w as int, h),
        y < h <= 8,
        w <= 8,
    ensures
        r@.len() == w,
        forall|x: int|
            0 <= x < w ==> (#[trigger] r@[x]).val() == taps.filtered(*input, y as int, x)
                % pixel_range(T::storage()),
{
    let mut row: Vec<T> = Vec::new();
    let mut x: usize = 0;
    while w - x >= 4
        invariant
            x <= w <= 8,
            taps.valid(),
            taps.taps_in_storage(*input, w as int, h),
            input.covers(w as int, h),
            y < h <= 8,
            row@.len() == x,
            forall|i: int|
                0 <= i < x ==> (#[trigger] row@[i]).val() == taps.filtered(*input, y as int, i)
                    % pixel_range(T::storage()),
        decreases w - x,
    {
        let v = filter_lanes(input, taps, y, x, Ghost(w as int), Ghost(h));
        let a: i32 = i32x4_extract_lane::<0>(v);
        let b: i32 = i32x4_extract_lane::<1>(v);
        let c: i32 = i32x4_extract_lane::<2>(v);
        let d: i32 = i32x4_extract_lane::<3>(v);
        proof {
            assert forall|l: int| 0 <= l < 4 implies 0 <= #[trigger] v.lane_i32(l) by {
                taps.lemma_bounds(*input, y as int, x + l, 12);
                assert(v.lane_i32(l) == taps.filtered(*input, y as int, x + l));
            }
            assert(v.lane_i32(0) == taps.filtered(*input, y as int, x + 0));
            assert(v.lane_i32(1) == taps.filtered(*input, y as int, x + 1));
            assert(v.lane_i32(2) == taps.filtered(*input, y as int, x + 2));
            assert(v.lane_i32(3) == taps.filtered(*input, y as int, x + 3));
        }
        row.push(T::cast_from(a as u32));
        row.push(T::cast_from(b as u32));
        row.push(T::cast_from(c as u32));
        row.push(T::cast_from(d as u32));
        x += 4;
    }
    while x < w
        invariant
            x <= w <= 8,
            taps.valid(),
            taps.taps_in_storage(*input, w as int, h),
            input.covers(w as int, h),
            y < h <= 8,
            row@.len() == x,
            forall|i: int|
                0 <= i < x ==> (#[trigger] row@[i]).val() == taps.filtered(*input, y as int, i)
                    % pixel_range(T::storage()),
        decreases w - x,
    {
        let v: i32 = filter_scalar(input, taps, y, x, Ghost(w as int), Ghost(h));
        proof {
            taps.lemma_bounds(*input, y as int, x as int, 12);
        }
        row.push(T::cast_from(v as u32));
        x += 1;
    }
    row
}

/// The number of rows or columns of a block.
fn side_of(dec: usize) -> (r: usize)
    requires
        dec < 32,
    ensures
        r == block_side(dec as int),
        r <= 8,
{
    proof {
        lemma_shr_bounds(8, dec as int);
    }
    shr_i32(8, dec as u32) as usize
}

/// Filters a block.
///
/// The block has eight rows and columns, fewer where the plane is subsampled. Each sample moves
/// towards its neighbours along the direction and across it, by an amount that is limited by the
/// strengths. Where not all neighbours are there, or without vectors, `portable` filters the
/// block: it is handed the samples and what the filter depends on, and returns the filtered
/// samples, row after row.
pub fn cdef_filter_block<
    T: Sample,
    U: Sample,
    F: FnOnce(
        &PlaneRegion<'_, U>,
        i32,
        i32,
        usize,
        i32,
        usize,
        usize,
        usize,
        u8,
        CpuFeatureLevel,
    ) -> Vec<T>,
>(
    dst: &mut PlaneRegionMut<'_, T>,
    input: &PlaneRegion<'_, U>,
    pri_strength: i32,
    sec_strength: i32,
    dir: usize,
    damping: i32,
    bit_depth: usize,
    xdec: usize,
    ydec: usize,
    edges: u8,
    cpu: CpuFeatureLevel,
    portable: F,
)
    requires
        xdec < 32,
        ydec < 32,
        old(dst).holds(block_side(xdec as int), block_side(ydec as int)),
        filters_in_vectors(edges, cpu) ==> {
            &&& dir < 8
            &&& 8 <= bit_depth < 40
            &&& shift_fits(pri_strength as int, damping as int)
            &&& shift_fits(sec_strength as int, damping as int)
            &&& -0x7fff_0001 <= pri_strength
            &&& -0x7fff_0001 <= sec_strength
            &&& input.covers(block_side(xdec as int), block_side(ydec as int))
            &&& filter_of(pri_strength, sec_strength, dir, damping, bit_depth).taps_in_storage(
                *input,
                block_side(xdec as int),
                block_side(ydec as int),
            )
        },
        !filters_in_vectors(edges, cpu) ==> {
            &&& call_requires(
                portable,
                (
                    input,
                    pri_strength,
                    sec_strength,
                    dir,
                    damping,
                    bit_depth,
                    xdec,
                    ydec,
                    edges,
                    cpu,
                ),
            )
            &&& forall|v: Vec<T>|
                #[trigger] call_ensures(
                    portable,
                    (
                        input,
                        pri_strength,
                        sec_strength,
                        dir,
                        damping,
                        bit_depth,
                        xdec,
                        ydec,
                        edges,
                        cpu,
                    ),
                    v,
                ) ==> block_side(xdec as int) * block_side(ydec as int) <= v@.len()
        },
    ensures
        filters_in_vectors(edges, cpu) ==> final(dst).wrote(
            *old(dst),
            block_side(xdec as int),
            block_side(ydec as int),
            |y: int, x: int|
                filter_of(pri_strength, sec_strength, dir, damping, bit_depth).filtered(
                    *input,
                    y,
                    x,
                ) % pixel_range(T::storage()),
        ),
        !filters_in_vectors(edges, cpu) ==> exists|v: Vec<T>|
            #[trigger] call_ensures(
                portable,
                (
                    input,
                    pri_strength,
                    sec_strength,
                    dir,
                    damping,
                    bit_depth,
                    xdec,
                    ydec,
                    edges,
                    cpu,
                ),
                v,
            ) && final(dst).wrote(
                *old(dst),
                block_side(xdec as int),
                block_side(ydec as int),
                block_of(v@, block_side(xdec as int)),
            ),
        final(final(dst).data)@ == final(old(dst).data)@,
{
    let xsize: usize = side_of(xdec);
    let ysize: usize = side_of(ydec);
    if cpu.has_simd128() && edges == CDEF_HAVE_ALL {
        let tap_idx: i32 = shr_i32(pri_strength, (bit_depth - 8) as u32) % 2;
        let taps = CdefTaps {
            pri_strength,
            sec_strength,
            pri_shift: constrain_shift(pri_strength, damping),
            sec_shift: constrain_shift(sec_strength, damping),
            dir,
            even: tap_idx != 0,
        };
        cdef_filter_block_simd(dst, input, &taps, xsize, ysize);
    } else {
        let v: Vec<T> = portable(
            input,
            pri_strength,
            sec_strength,
            dir,
            damping,
            bit_depth,
            xdec,
            ydec,
            edges,
            cpu,
        );
        store_block(dst, &v, xsize, ysize);
    }
}

/// Filters a block whose neighbours are all there.
fn cdef_filter_block_simd<T: Sample, U: Sample>(
    dst: &mut PlaneRegionMut<'_, T>,
    input: &PlaneRegion<'_, U>,
    taps: &CdefTaps,
    xsize: usize,
    ysize: usize,
)
    requires
        taps.valid(),
        xsize <= 8,
        ysize <= 8,
        old(dst).holds(xsize as int, ysize as int),
        input.covers(xsize as int, ysize as int),
        taps.taps_in_storage(*input, xsize as int, ysize as int),
    ensures
        final(dst).wrote(
            *old(dst),
            xsize as int,
            ysize as int,
            |y: int, x: int| taps.filtered(*input, y, x) % pixel_range(T::storage()),
        ),
        final(final(dst).data)@ == final(old(dst).data)@,
{
    let ghost f = |y: int, x: int| taps.filtered(*input, y, x) % pixel_range(T::storage());
    let ghost before = *dst;
    let ghost storage = final(dst.data)@;
    let mut y: usize = 0;
    while y < ysize
        invariant
            y <= ysize <= 8,
            xsize <= 8,
            taps.valid(),
            input.covers(xsize as int, ysize as int),
            taps.taps_in_storage(*input, xsize as int, ysize as int),
            f == (|j: int, x: int| taps.filtered(*input, j, x) % pixel_range(T::storage())),
            before.holds(xsize as int, ysize as int),
            dst.progress(before, xsize as int, y as int, 0, f),
            final(dst.data)@ == storage,
        decreases ysize - y,
    {
        proof {
            before.lemma_holds_fewer(xsize as int, ysize as int, y + 1);
        }
        let row: Vec<T> = filter_row(input, taps, y, xsize, Ghost(ysize as int));
        dst.paint_row(y, xsize, row.as_slice(), Ghost(before), Ghost(f));
        y += 1;
    }
    proof {
        dst.lemma_done(before, xsize as int, ysize as int, f);
    }
}

/// A filtered sample lies between the smallest and the largest of the sample and its neighbours.
pub proof fn lemma_filtered_range<U: Sample>(
    taps: CdefTaps,
    input: PlaneRegion<'_, U>,
    y: int,
    x: int,
)
    ensures
        taps.min_to(input, y, x, tap_count()) <= taps.filtered(input, y, x) <= taps.max_to(
            input,
            y,
            x,
            tap_count(),
        ),
{
    taps.lemma_bounds(input, y, x, 12);
}

/// Without strength nothing changes.
pub proof fn lemma_no_strength<U: Sample>(taps: CdefTaps, input: PlaneRegion<'_, U>, y: int, x: int)
    requires
        taps.pri_strength == 0,
        taps.sec_strength == 0,
    ensures
        taps.filtered(input, y, x) == input.at(y, x),
{
    taps.lemma_bounds(input, y, x, 12);
    lemma_no_strength_sum(taps, input, y, x, 12);
    vstd::arithmetic::power2::lemma2_to64();
    assert(pow2(4) == 16);
    assert(shr(8, 4) == 8int / 16);
}

/// Without strength the sum of the taps is zero.
proof fn lemma_no_strength_sum<U: Sample>(
    taps: CdefTaps,
    input: PlaneRegion<'_, U>,
    y: int,
    x: int,
    n: int,
)
    requires
        taps.pri_strength == 0,
        taps.sec_strength == 0,
        n >= 0,
    ensures
        taps.sum_to(input, y, x, n) == 0,
    decreases n,
{
    if n > 0 {
        lemma_no_strength_sum(taps, input, y, x, n - 1);
        assert(taps.weight(n - 1) * 0 == 0);
    }
}

} // verus!
