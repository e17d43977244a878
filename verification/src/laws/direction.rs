//! What holds of the search for the direction of a block.

use crate::cdef::{
    best_direction, centred, direction_cost, lemma_line_length, line, line_cost, line_length,
    line_sum, on_line, weight,
};
use crate::math::shr;
use crate::pixel::Sample;
use crate::plane::PlaneRegion;
use crate::sums::{
    block_sum, lemma_block_sum_entry, lemma_block_sum_linear, lemma_block_sum_nonneg, lemma_sum_eq,
    lemma_sum_linear, row_of, sum,
};
use vstd::arithmetic::power2::{lemma_pow2_pos, pow2};
use vstd::prelude::*;

verus! {

/// Whether two samples, in row `i`, column `j` and in row `a`, column `b`, lie on one line of
/// direction `d`. Direction 2 runs along the rows and direction 6 along the columns, 0 and 4 along
/// the diagonals, and the odd ones halfway between: one row, or column, further for every two
/// columns, or rows.
pub open spec fn aligned(d: int, i: int, j: int, a: int, b: int) -> bool {
    if d == 0 {
        i + j == a + b
    } else if d == 1 {
        i + j / 2 == a + b / 2
    } else if d == 2 {
        i == a
    } else if d == 3 {
        i - j / 2 == a - b / 2
    } else if d == 4 {
        i - j == a - b
    } else if d == 5 {
        j - i / 2 == b - a / 2
    } else if d == 6 {
        j == b
    } else {
        j + i / 2 == b + a / 2
    }
}

/// Whether a block has the same value all along each line of direction `d`.
pub open spec fn constant_along(x: spec_fn(int, int) -> int, d: int) -> bool {
    forall|i: int, j: int, a: int, b: int|
        0 <= i < 8 && 0 <= j < 8 && 0 <= a < 8 && 0 <= b < 8 && aligned(d, i, j, a, b)
            ==> #[trigger] x(i, j) == #[trigger] x(a, b)
}

/// The squares of a table.
pub open spec fn squares(x: spec_fn(int, int) -> int) -> spec_fn(int, int) -> int {
    |i: int, j: int| x(i, j) * x(i, j)
}

/// Every sample lies on one of the fifteen lines, and samples are aligned where they share it.
proof fn lemma_lines(d: int, i: int, j: int, a: int, b: int)
    requires
        0 <= d < 8,
        0 <= i < 8,
        0 <= j < 8,
    ensures
        0 <= line(d, i, j) < 15,
        aligned(d, i, j, a, b) <==> line(d, i, j) == line(d, a, b),
{
}

/// The values of one sample on all lines.
spec fn cell_on_lines(f: spec_fn(int, int) -> int, d: int, y: int, x: int) -> spec_fn(int) -> int {
    |k: int| on_line(f, d, k)(y, x)
}

/// The sums of the beginning of a row on all lines.
spec fn row_on_lines(f: spec_fn(int, int) -> int, d: int, y: int, w: int) -> spec_fn(int) -> int {
    |k: int| sum(row_of(on_line(f, d, k), y), w)
}

/// The sums of the first rows on all lines.
spec fn rows_on_lines(f: spec_fn(int, int) -> int, d: int, h: int) -> spec_fn(int) -> int {
    |k: int| block_sum(on_line(f, d, k), 8, h)
}

/// The lines share a sample out among them.
proof fn lemma_cell_shared(f: spec_fn(int, int) -> int, d: int, y: int, x: int)
    requires
        0 <= d < 8,
        0 <= y < 8,
        0 <= x < 8,
    ensures
        sum(cell_on_lines(f, d, y, x), 15) == f(y, x),
{
    lemma_lines(d, y, x, y, x);
    let g = cell_on_lines(f, d, y, x);
    reveal_with_fuel(sum, 16);
    assert(sum(g, 15) == g(0) + g(1) + g(2) + g(3) + g(4) + g(5) + g(6) + g(7) + g(8) + g(9) + g(10)
        + g(11) + g(12) + g(13) + g(14));
}

/// The lines share a row out among them.
proof fn lemma_row_shared(f: spec_fn(int, int) -> int, d: int, y: int, w: int)
    requires
        0 <= d < 8,
        0 <= y < 8,
        0 <= w <= 8,
    ensures
        sum(row_on_lines(f, d, y, w), 15) == sum(row_of(f, y), w),
    decreases w,
{
    let g = row_on_lines(f, d, y, w);
    if w > 0 {
        lemma_row_shared(f, d, y, w - 1);
        lemma_cell_shared(f, d, y, w - 1);
        lemma_sum_linear(row_on_lines(f, d, y, w - 1), cell_on_lines(f, d, y, w - 1), g, 1, 1, 15);
    } else {
        lemma_sum_linear(g, g, g, 0, 0, 15);
    }
}

/// The lines share the rows out among them.
proof fn lemma_rows_shared(f: spec_fn(int, int) -> int, d: int, h: int)
    requires
        0 <= d < 8,
        0 <= h <= 8,
    ensures
        sum(rows_on_lines(f, d, h), 15) == block_sum(f, 8, h),
    decreases h,
{
    let g = rows_on_lines(f, d, h);
    if h > 0 {
        lemma_rows_shared(f, d, h - 1);
        lemma_row_shared(f, d, h - 1, 8);
        lemma_sum_linear(rows_on_lines(f, d, h - 1), row_on_lines(f, d, h - 1, 8), g, 1, 1, 15);
    } else {
        lemma_sum_linear(g, g, g, 0, 0, 15);
    }
}

/// How far the values on a line, each taken `n` times, are from `s`, squared.
spec fn deviations(x: spec_fn(int, int) -> int, n: int, s: int) -> spec_fn(int, int) -> int {
    |i: int, j: int| (n * x(i, j) - s) * (n * x(i, j) - s)
}

/// The squares of the deviations of a line add up to `n` times the squares of its values, less the
/// square of their sum, all of it `n` times.
proof fn lemma_deviations(x: spec_fn(int, int) -> int, d: int, k: int, n: int, s: int, q: int)
    requires
        0 <= d < 8,
        0 <= k < 15,
        n == line_length(d, k),
        s == line_sum(x, d, k),
        q == block_sum(on_line(squares(x), d, k), 8, 8),
    ensures
        block_sum(on_line(deviations(x, n, s), d, k), 8, 8) == n * (n * q - s * s),
{
    let one = on_line(|i: int, j: int| 1int, d, k);
    let lin = on_line(x, d, k);
    let sq = on_line(squares(x), d, k);
    let dev = on_line(deviations(x, n, s), d, k);
    let part = |i: int, j: int| -2 * n * s * lin(i, j) + s * s * one(i, j);
    lemma_block_sum_linear(lin, one, part, -2 * n * s, s * s, 8, 8);
    assert forall|i: int, j: int| 0 <= i < 8 && 0 <= j < 8 implies #[trigger] dev(i, j) == (n * n)
        * sq(i, j) + 1 * part(i, j) by {
        let v = x(i, j);
        if line(d, i, j) == k {
            assert((n * v - s) * (n * v - s) == (n * n) * (v * v) + (-2 * n * s * v + s * s * 1))
                by (nonlinear_arith);
        } else {
            assert((n * n) * 0 == 0 && -2 * n * s * 0 == 0 && s * s * 0 == 0) by (nonlinear_arith);
        }
    }
    lemma_block_sum_linear(sq, part, dev, n * n, 1, 8, 8);
    lemma_line_length(d, k);
    assert((n * n) * q + (-2 * n * s * s + s * s * n) == n * (n * q - s * s)) by (nonlinear_arith);
}

/// Lines with samples weigh what their lengths make up to 840.
proof fn lemma_weights(d: int, k: int)
    requires
        0 <= d < 8,
        0 <= k < 15,
    ensures
        0 <= line_length(d, k) <= 8,
        line_length(d, k) > 0 ==> line_length(d, k) * weight(line_length(d, k)) == 840,
        weight(line_length(d, k)) >= 0,
{
    let n = line_length(d, k);
    assert(840int / 1 == 840 && 840int / 2 == 420 && 840int / 3 == 280 && 840int / 4 == 210
        && 840int / 5 == 168 && 840int / 6 == 140 && 840int / 7 == 120 && 840int / 8 == 105)
        by (nonlinear_arith);
    assert(n == 0 || n == 1 || n == 2 || n == 3 || n == 4 || n == 5 || n == 6 || n == 7 || n == 8);
}

/// The squares of the values on a line.
spec fn line_squares(x: spec_fn(int, int) -> int, d: int) -> spec_fn(int) -> int {
    |k: int| block_sum(on_line(squares(x), d, k), 8, 8)
}

/// What a line adds to a cost is at most 840 times the squares of its values; less, where two of
/// these differ, and as much, where they do not.
proof fn lemma_line_cost(x: spec_fn(int, int) -> int, d: int, k: int)
    requires
        0 <= d < 8,
        0 <= k < 15,
    ensures
        line_cost(x, d)(k) <= 840 * line_squares(x, d)(k),
        forall|i: int, j: int, a: int, b: int|
            0 <= i < 8 && 0 <= j < 8 && 0 <= a < 8 && 0 <= b < 8 && line(d, i, j) == k && line(
                d,
                a,
                b,
            ) == k && #[trigger] x(i, j) != #[trigger] x(a, b) ==> line_cost(x, d)(k) < 840
                * line_squares(x, d)(k),
        constant_along(x, d) ==> line_cost(x, d)(k) == 840 * line_squares(x, d)(k),
{
    let n = line_length(d, k);
    let s = line_sum(x, d, k);
    let q = line_squares(x, d)(k);
    let w = weight(n);
    let dev = on_line(deviations(x, n, s), d, k);
    let sq = on_line(squares(x), d, k);
    let one = on_line(|i: int, j: int| 1int, d, k);
    lemma_weights(d, k);
    lemma_line_length(d, k);
    lemma_deviations(x, d, k, n, s, q);
    assert forall|i: int, j: int| 0 <= i < 8 && 0 <= j < 8 implies #[trigger] dev(i, j) >= 0 by {
        let t = n * x(i, j) - s;
        assert(t * t >= 0) by (nonlinear_arith);
    }
    assert forall|i: int, j: int| 0 <= i < 8 && 0 <= j < 8 implies #[trigger] sq(i, j) >= 0 by {
        let t = x(i, j);
        assert(t * t >= 0) by (nonlinear_arith);
    }
    lemma_block_sum_nonneg(dev, 8, 8);
    lemma_block_sum_nonneg(sq, 8, 8);
    if n > 0 {
        assert(s * s <= n * q) by (nonlinear_arith)
            requires
                n > 0,
                n * (n * q - s * s) >= 0,
        ;
        assert(s * s * w <= 840 * q) by (nonlinear_arith)
            requires
                s * s <= n * q,
                n * w == 840,
                w >= 0,
        ;
        assert(w > 0) by (nonlinear_arith)
            requires
                n * w == 840,
                w >= 0,
        ;
        assert forall|i: int, j: int, a: int, b: int|
            0 <= i < 8 && 0 <= j < 8 && 0 <= a < 8 && 0 <= b < 8 && line(d, i, j) == k && line(
                d,
                a,
                b,
            ) == k && #[trigger] x(i, j) != #[trigger] x(a, b) implies s * s * w < 840 * q by {
            lemma_block_sum_entry(dev, 8, 8, i, j);
            lemma_block_sum_entry(dev, 8, 8, a, b);
            let u = x(i, j);
            let v = x(a, b);
            assert((n * u - s) * (n * u - s) > 0 || (n * v - s) * (n * v - s) > 0)
                by (nonlinear_arith)
                requires
                    u != v,
                    n > 0,
            ;
            assert(s * s < n * q) by (nonlinear_arith)
                requires
                    n > 0,
                    n * (n * q - s * s) > 0,
            ;
            assert(s * s * w < 840 * q) by (nonlinear_arith)
                requires
                    s * s < n * q,
                    n * w == 840,
                    w > 0,
            ;
        }
        if constant_along(x, d) {
            assert forall|i: int, j: int| 0 <= i < 8 && 0 <= j < 8 implies #[trigger] dev(i, j)
                == 0 * one(i, j) + 0 * one(i, j) by {
                if line(d, i, j) == k {
                    let c = x(i, j);
                    let lin = on_line(x, d, k);
                    assert forall|a: int, b: int| 0 <= a < 8 && 0 <= b < 8 implies #[trigger] lin(
                        a,
                        b,
                    ) == c * one(a, b) + 0 * one(a, b) by {
                        lemma_lines(d, i, j, a, b);
                        if line(d, a, b) == k {
                            assert(x(i, j) == x(a, b));
                            assert(c * 1 == c);
                        } else {
                            assert(c * 0 == 0);
                        }
                    }
                    lemma_block_sum_linear(one, one, lin, c, 0, 8, 8);
                    assert(s == c * n);
                    assert(n * c - s == 0) by (nonlinear_arith)
                        requires
                            s == c * n,
                    ;
                    assert(0int * 0int == 0);
                }
            }
            lemma_block_sum_linear(one, one, dev, 0, 0, 8, 8);
            assert(s * s == n * q) by (nonlinear_arith)
                requires
                    n > 0,
                    n * (n * q - s * s) == 0,
            ;
            assert(s * s * w == 840 * q) by (nonlinear_arith)
                requires
                    s * s == n * q,
                    n * w == 840,
            ;
        }
    } else {
        assert forall|i: int, j: int| 0 <= i < 8 && 0 <= j < 8 implies line(d, i, j) != k
            && #[trigger] sq(i, j) == 0 * one(i, j) + 0 * one(i, j) by {
            assert forall|a: int, b: int| 0 <= a < 8 && 0 <= b < 8 implies #[trigger] one(a, b)
                >= 0 by {}
            lemma_block_sum_entry(one, 8, 8, i, j);
            assert(one(i, j) <= 0);
        }
        lemma_block_sum_linear(one, one, sq, 0, 0, 8, 8);
        assert(s * s * 0 == 0) by (nonlinear_arith);
        assert forall|i: int, j: int| 0 <= i < 8 && 0 <= j < 8 implies line(d, i, j) != k by {
            assert(sq(i, j) == 0 * one(i, j) + 0 * one(i, j));
        }
    }
}

/// The costs of the first lines against their squares.
proof fn lemma_costs_against_squares(x: spec_fn(int, int) -> int, d: int, n: int)
    requires
        0 <= d < 8,
        0 <= n <= 15,
    ensures
        sum(line_cost(x, d), n) <= 840 * sum(line_squares(x, d), n),
        forall|i: int, j: int, a: int, b: int|
            0 <= i < 8 && 0 <= j < 8 && 0 <= a < 8 && 0 <= b < 8 && line(d, i, j) < n && line(
                d,
                a,
                b,
            ) == line(d, i, j) && #[trigger] x(i, j) != #[trigger] x(a, b) ==> sum(
                line_cost(x, d),
                n,
            ) < 840 * sum(line_squares(x, d), n),
        constant_along(x, d) ==> sum(line_cost(x, d), n) == 840 * sum(line_squares(x, d), n),
    decreases n,
{
    if n > 0 {
        lemma_costs_against_squares(x, d, n - 1);
        lemma_line_cost(x, d, n - 1);
    } else {
        assert forall|i: int, j: int| 0 <= i < 8 && 0 <= j < 8 implies 0 <= #[trigger] line(
            d,
            i,
            j,
        ) by {}
    }
}

/// No direction costs more than 840 times the squares of the values of a block. Just the
/// directions along which the block is constant cost that much.
pub proof fn lemma_cost_of_constant_lines(x: spec_fn(int, int) -> int, d: int)
    requires
        0 <= d < 8,
    ensures
        direction_cost(x, d) <= 840 * block_sum(squares(x), 8, 8),
        direction_cost(x, d) == 840 * block_sum(squares(x), 8, 8) <==> constant_along(x, d),
{
    lemma_costs_against_squares(x, d, 15);
    lemma_rows_shared(squares(x), d, 8);
    lemma_sum_eq(line_squares(x, d), rows_on_lines(squares(x), d, 8), 15);
    if !constant_along(x, d) {
        let (i, j, a, b) = choose|i: int, j: int, a: int, b: int|
            0 <= i < 8 && 0 <= j < 8 && 0 <= a < 8 && 0 <= b < 8 && aligned(d, i, j, a, b)
                && #[trigger] x(i, j) != #[trigger] x(a, b);
        lemma_lines(d, i, j, a, b);
    }
}

/// A block that is constant along lines has the first of the directions of such lines. So one
/// that is constant along the lines of a single direction has that direction.
pub proof fn lemma_direction_of_lines(x: spec_fn(int, int) -> int, d: int, r: int)
    requires
        0 <= d < 8,
        constant_along(x, d),
        best_direction(x, r),
    ensures
        constant_along(x, r),
        r <= d,
        (forall|e: int| 0 <= e < 8 && #[trigger] constant_along(x, e) ==> e == d) ==> r == d,
{
    lemma_cost_of_constant_lines(x, d);
    lemma_cost_of_constant_lines(x, r);
    assert(direction_cost(x, d) <= direction_cost(x, r));
}

/// Costs are quadratic: the costs of the sum and of the difference of two blocks are together twice
/// those of the blocks.
pub proof fn lemma_cost_is_quadratic(
    x: spec_fn(int, int) -> int,
    y: spec_fn(int, int) -> int,
    plus: spec_fn(int, int) -> int,
    minus: spec_fn(int, int) -> int,
    d: int,
)
    requires
        0 <= d < 8,
        forall|i: int, j: int|
            0 <= i < 8 && 0 <= j < 8 ==> #[trigger] plus(i, j) == x(i, j) + y(i, j),
        forall|i: int, j: int|
            0 <= i < 8 && 0 <= j < 8 ==> #[trigger] minus(i, j) == x(i, j) - y(i, j),
    ensures
        direction_cost(plus, d) + direction_cost(minus, d) == 2 * direction_cost(x, d) + 2
            * direction_cost(y, d),
{
    let f = |k: int| line_cost(plus, d)(k) + line_cost(minus, d)(k);
    lemma_sum_linear(line_cost(plus, d), line_cost(minus, d), f, 1, 1, 15);
    assert forall|k: int| 0 <= k < 15 implies #[trigger] f(k) == 2 * line_cost(x, d)(k) + 2
        * line_cost(y, d)(k) by {
        let lx = on_line(x, d, k);
        let ly = on_line(y, d, k);
        assert forall|i: int, j: int| 0 <= i < 8 && 0 <= j < 8 implies #[trigger] on_line(
            plus,
            d,
            k,
        )(i, j) == 1 * lx(i, j) + 1 * ly(i, j) by {
            assert(plus(i, j) == x(i, j) + y(i, j));
        }
        assert forall|i: int, j: int| 0 <= i < 8 && 0 <= j < 8 implies #[trigger] on_line(
            minus,
            d,
            k,
        )(i, j) == 1 * lx(i, j) + -1 * ly(i, j) by {
            assert(minus(i, j) == x(i, j) - y(i, j));
        }
        lemma_block_sum_linear(lx, ly, on_line(plus, d, k), 1, 1, 8, 8);
        lemma_block_sum_linear(lx, ly, on_line(minus, d, k), 1, -1, 8, 8);
        let a = line_sum(x, d, k);
        let b = line_sum(y, d, k);
        let w = weight(line_length(d, k));
        assert((a + b) * (a + b) * w + (a - b) * (a - b) * w == 2 * (a * a * w) + 2 * (b * b * w))
            by (nonlinear_arith);
    }
    lemma_sum_linear(line_cost(x, d), line_cost(y, d), f, 2, 2, 15);
}

/// A table with one value other than zero.
spec fn point(p: int, q: int, m: int) -> spec_fn(int, int) -> int {
    |i: int, j: int|
        if i == p && j == q {
            m
        } else {
            0
        }
}

/// The sum of a line of a table with one value.
proof fn lemma_point_sum(p: int, q: int, m: int, d: int, k: int)
    requires
        0 <= p < 8,
        0 <= q < 8,
    ensures
        line_sum(point(p, q, m), d, k) == if line(d, p, q) == k {
            m
        } else {
            0
        },
{
    let f = on_line(point(p, q, m), d, k);
    lemma_point_rows(f, p, q, 8);
}

/// The sum of the first rows of a table that is zero but in one place.
proof fn lemma_point_rows(f: spec_fn(int, int) -> int, p: int, q: int, h: int)
    requires
        0 <= p < 8,
        0 <= q < 8,
        0 <= h <= 8,
        forall|i: int, j: int| i != p || j != q ==> #[trigger] f(i, j) == 0,
    ensures
        block_sum(f, 8, h) == if h > p {
            f(p, q)
        } else {
            0
        },
    decreases h,
{
    if h > 0 {
        lemma_point_rows(f, p, q, h - 1);
        let g = row_of(f, h - 1);
        reveal_with_fuel(sum, 9);
        assert(sum(g, 8) == g(0) + g(1) + g(2) + g(3) + g(4) + g(5) + g(6) + g(7));
    }
}

/// The cost of a direction does not change when something is moved along one of its lines.
pub proof fn lemma_cost_along_lines(
    x: spec_fn(int, int) -> int,
    y: spec_fn(int, int) -> int,
    d: int,
    p: int,
    q: int,
    a: int,
    b: int,
    m: int,
)
    requires
        0 <= d < 8,
        0 <= p < 8,
        0 <= q < 8,
        0 <= a < 8,
        0 <= b < 8,
        aligned(d, p, q, a, b),
        p != a || q != b,
        y(p, q) == x(p, q) - m,
        y(a, b) == x(a, b) + m,
        forall|i: int, j: int|
            0 <= i < 8 && 0 <= j < 8 && !(i == p && j == q) && !(i == a && j == b)
                ==> #[trigger] y(i, j) == x(i, j),
    ensures
        direction_cost(y, d) == direction_cost(x, d),
{
    lemma_lines(d, p, q, a, b);
    assert forall|k: int| 0 <= k < 15 implies #[trigger] line_cost(y, d)(k) == line_cost(x, d)(k) by {
        let f = point(p, q, -m);
        let g = point(a, b, m);
        let both = |i: int, j: int| on_line(f, d, k)(i, j) + on_line(g, d, k)(i, j);
        lemma_block_sum_linear(on_line(f, d, k), on_line(g, d, k), both, 1, 1, 8, 8);
        assert forall|i: int, j: int| 0 <= i < 8 && 0 <= j < 8 implies #[trigger] on_line(y, d, k)(
            i,
            j,
        ) == 1 * on_line(x, d, k)(i, j) + 1 * both(i, j) by {
            if !(i == p && j == q) && !(i == a && j == b) {
                assert(y(i, j) == x(i, j));
            }
        }
        lemma_block_sum_linear(on_line(x, d, k), both, on_line(y, d, k), 1, 1, 8, 8);
        lemma_point_sum(p, q, -m, d, k);
        lemma_point_sum(a, b, m, d, k);
    }
    lemma_sum_eq(line_cost(y, d), line_cost(x, d), 15);
}

/// No direction costs more than the one that is found, and those before it cost less.
pub proof fn lemma_best_direction(x: spec_fn(int, int) -> int, r: int, d: int)
    requires
        best_direction(x, r),
        0 <= d < 8,
    ensures
        0 <= r < 8,
        direction_cost(x, d) <= direction_cost(x, r),
        d < r ==> direction_cost(x, d) < direction_cost(x, r),
{
    assert(direction_cost(x, d) <= direction_cost(x, r));
}

/// The values that are searched are the samples of the block, less their low bits, and less 128.
pub proof fn lemma_searched_values<T: Sample>(
    img: PlaneRegion<'_, T>,
    shift: int,
    i: int,
    j: int,
    v: int,
)
    requires
        0 <= shift,
        v == centred(img, shift)(i, j),
    ensures
        pow2(shift as nat) * (v + 128) <= img.data@[img.origin + i * img.stride + j].val()
            < pow2(shift as nat) * (v + 129),
{
    lemma_pow2_pos(shift as nat);
    let p = img.data@[img.origin + i * img.stride + j].val();
    let d = pow2(shift as nat) as int;
    assert(img.at(i, j) == p);
    assert(v + 128 == shr(p, shift));
    vstd::arithmetic::div_mod::lemma_fundamental_div_mod(p, d);
    assert(d * (v + 129) == d * (v + 128) + d) by (nonlinear_arith);
}

} // verus!
