//! Sums over rows and blocks.

use vstd::prelude::*;

verus! {

/// `f(0) + f(1) + .. + f(n - 1)`.
pub open spec fn sum(f: spec_fn(int) -> int, n: int) -> int
    decreases n,
{
    if n <= 0 {
        0
    } else {
        sum(f, n - 1) + f(n - 1)
    }
}

/// Row `y` of a table.
pub open spec fn row_of(f: spec_fn(int, int) -> int, y: int) -> spec_fn(int) -> int {
    |x: int| f(y, x)
}

/// The sum of the entries of a table in the first `h` rows and `w` columns.
pub open spec fn block_sum(f: spec_fn(int, int) -> int, w: int, h: int) -> int
    decreases h,
{
    if h <= 0 {
        0
    } else {
        block_sum(f, w, h - 1) + sum(row_of(f, h - 1), w)
    }
}

/// A sum of terms from `lo` to `hi` lies between as many times these.
pub proof fn lemma_sum_bounds(f: spec_fn(int) -> int, n: int, lo: int, hi: int)
    requires
        n >= 0,
        forall|i: int| 0 <= i < n ==> lo <= #[trigger] f(i) <= hi,
    ensures
        lo * n <= sum(f, n) <= hi * n,
    decreases n,
{
    if n > 0 {
        lemma_sum_bounds(f, n - 1, lo, hi);
        assert(lo * n == lo * (n - 1) + lo) by (nonlinear_arith);
        assert(hi * n == hi * (n - 1) + hi) by (nonlinear_arith);
    } else {
        assert(lo * n == 0 && hi * n == 0) by (nonlinear_arith)
            requires
                n == 0,
        ;
    }
}

/// A sum of terms that are not negative grows with their number.
pub proof fn lemma_sum_mono(f: spec_fn(int) -> int, m: int, n: int)
    requires
        0 <= m <= n,
        forall|i: int| 0 <= i < n ==> #[trigger] f(i) >= 0,
    ensures
        0 <= sum(f, m) <= sum(f, n),
    decreases n,
{
    if m < n {
        lemma_sum_mono(f, m, n - 1);
    } else if m > 0 {
        lemma_sum_mono(f, m - 1, n - 1);
    }
}

/// Sixteen more terms of a sum.
pub proof fn lemma_sum_16(g: spec_fn(int) -> int, x: int)
    requires
        x >= 0,
    ensures
        sum(g, x + 16) == sum(g, x) + g(x + 0) + g(x + 1) + g(x + 2) + g(x + 3) + g(x + 4) + g(
            x + 5,
        ) + g(x + 6) + g(x + 7) + g(x + 8) + g(x + 9) + g(x + 10) + g(x + 11) + g(x + 12) + g(
            x + 13,
        ) + g(x + 14) + g(x + 15),
{
    reveal_with_fuel(sum, 17);
}

/// Equal terms have equal sums.
pub proof fn lemma_sum_eq(f: spec_fn(int) -> int, g: spec_fn(int) -> int, n: int)
    requires
        forall|i: int| 0 <= i < n ==> #[trigger] f(i) == g(i),
    ensures
        sum(f, n) == sum(g, n),
    decreases n,
{
    if n > 0 {
        lemma_sum_eq(f, g, n - 1);
    }
}

/// Sums are linear.
pub proof fn lemma_sum_linear(
    f: spec_fn(int) -> int,
    g: spec_fn(int) -> int,
    h: spec_fn(int) -> int,
    a: int,
    b: int,
    n: int,
)
    requires
        forall|i: int| 0 <= i < n ==> #[trigger] h(i) == a * f(i) + b * g(i),
    ensures
        sum(h, n) == a * sum(f, n) + b * sum(g, n),
    decreases n,
{
    if n > 0 {
        lemma_sum_linear(f, g, h, a, b, n - 1);
        let p = sum(f, n - 1);
        let q = f(n - 1);
        let r = sum(g, n - 1);
        let t = g(n - 1);
        assert(h(n - 1) == a * f(n - 1) + b * g(n - 1));
        assert(a * (p + q) == a * p + a * q && b * (r + t) == b * r + b * t) by (nonlinear_arith);
    } else {
        assert(a * 0 == 0 && b * 0 == 0);
    }
}

/// Sums over blocks are linear.
pub proof fn lemma_block_sum_linear(
    f: spec_fn(int, int) -> int,
    g: spec_fn(int, int) -> int,
    h: spec_fn(int, int) -> int,
    a: int,
    b: int,
    w: int,
    n: int,
)
    requires
        forall|j: int, i: int|
            0 <= j < n && 0 <= i < w ==> #[trigger] h(j, i) == a * f(j, i) + b * g(j, i),
    ensures
        block_sum(h, w, n) == a * block_sum(f, w, n) + b * block_sum(g, w, n),
    decreases n,
{
    if n > 0 {
        lemma_block_sum_linear(f, g, h, a, b, w, n - 1);
        assert forall|i: int| 0 <= i < w implies #[trigger] row_of(h, n - 1)(i) == a * row_of(
            f,
            n - 1,
        )(i) + b * row_of(g, n - 1)(i) by {
            assert(h(n - 1, i) == a * f(n - 1, i) + b * g(n - 1, i));
        }
        lemma_sum_linear(row_of(f, n - 1), row_of(g, n - 1), row_of(h, n - 1), a, b, w);
        let p = block_sum(f, w, n - 1);
        let q = sum(row_of(f, n - 1), w);
        let r = block_sum(g, w, n - 1);
        let t = sum(row_of(g, n - 1), w);
        assert(a * (p + q) == a * p + a * q && b * (r + t) == b * r + b * t) by (nonlinear_arith);
    } else {
        assert(a * 0 == 0 && b * 0 == 0);
    }
}

/// The sum of a block whose entries are not negative is at least the sum of any rows and part of
/// a row at its beginning.
pub proof fn lemma_block_sum_mono(f: spec_fn(int, int) -> int, w: int, h: int, y: int, x: int)
    requires
        0 <= y < h,
        0 <= x <= w,
        forall|j: int, i: int| 0 <= j < h && 0 <= i < w ==> #[trigger] f(j, i) >= 0,
    ensures
        0 <= block_sum(f, w, y),
        0 <= sum(row_of(f, y), x),
        block_sum(f, w, y) + sum(row_of(f, y), x) <= block_sum(f, w, h),
    decreases h,
{
    assert forall|i: int| 0 <= i < w implies #[trigger] row_of(f, h - 1)(i) >= 0 by {}
    lemma_sum_mono(row_of(f, h - 1), 0, w);
    if y < h - 1 {
        lemma_block_sum_mono(f, w, h - 1, y, x);
    } else {
        lemma_sum_mono(row_of(f, y), x, w);
        lemma_block_sum_nonneg(f, w, y);
    }
}

/// No entry of a block whose entries are not negative is larger than their sum.
pub proof fn lemma_block_sum_entry(f: spec_fn(int, int) -> int, w: int, h: int, y: int, x: int)
    requires
        0 <= y < h,
        0 <= x < w,
        forall|j: int, i: int| 0 <= j < h && 0 <= i < w ==> #[trigger] f(j, i) >= 0,
    ensures
        f(y, x) <= block_sum(f, w, h),
{
    lemma_block_sum_mono(f, w, h, y, x);
    lemma_block_sum_mono(f, w, h, y, x + 1);
    assert(sum(row_of(f, y), x + 1) == sum(row_of(f, y), x) + f(y, x));
}

/// Where each entry of a column is at most the sum of its row of a block, so is their sum.
pub proof fn lemma_block_sum_rows(
    f: spec_fn(int, int) -> int,
    g: spec_fn(int) -> int,
    w: int,
    h: int,
)
    requires
        forall|j: int| 0 <= j < h ==> #[trigger] g(j) <= sum(row_of(f, j), w),
    ensures
        sum(g, h) <= block_sum(f, w, h),
    decreases h,
{
    if h > 0 {
        lemma_block_sum_rows(f, g, w, h - 1);
        assert(g(h - 1) <= sum(row_of(f, h - 1), w));
    }
}

/// The sum of a block whose entries are not negative is not negative.
pub proof fn lemma_block_sum_nonneg(f: spec_fn(int, int) -> int, w: int, h: int)
    requires
        forall|j: int, i: int| 0 <= j < h && 0 <= i < w ==> #[trigger] f(j, i) >= 0,
    ensures
        0 <= block_sum(f, w, h),
    decreases h,
{
    if h > 0 {
        assert forall|i: int| 0 <= i < w implies #[trigger] row_of(f, h - 1)(i) >= 0 by {}
        if w > 0 {
            lemma_sum_mono(row_of(f, h - 1), 0, w);
        }
        lemma_block_sum_nonneg(f, w, h - 1);
    }
}

/// Equal tables have equal sums.
pub proof fn lemma_block_sum_eq(
    f: spec_fn(int, int) -> int,
    g: spec_fn(int, int) -> int,
    w: int,
    h: int,
)
    requires
        forall|j: int, i: int| 0 <= j < h && 0 <= i < w ==> #[trigger] f(j, i) == g(j, i),
    ensures
        block_sum(f, w, h) == block_sum(g, w, h),
    decreases h,
{
    if h > 0 {
        assert forall|i: int| 0 <= i < w implies #[trigger] row_of(f, h - 1)(i) == row_of(
            g,
            h - 1,
        )(i) by {
            assert(f(h - 1, i) == g(h - 1, i));
        }
        lemma_sum_eq(row_of(f, h - 1), row_of(g, h - 1), w);
        lemma_block_sum_eq(f, g, w, h - 1);
    }
}

/// A sum of entries from 0 to `hi` is at most as many times `hi`.
pub proof fn lemma_block_sum_bound(f: spec_fn(int, int) -> int, w: int, h: int, hi: int)
    requires
        0 <= w,
        0 <= h,
        forall|j: int, i: int| 0 <= j < h && 0 <= i < w ==> 0 <= #[trigger] f(j, i) <= hi,
    ensures
        0 <= block_sum(f, w, h) <= hi * w * h,
    decreases h,
{
    if h > 0 {
        assert forall|i: int| 0 <= i < w implies 0 <= #[trigger] row_of(f, h - 1)(i) <= hi by {}
        lemma_sum_bounds(row_of(f, h - 1), w, 0, hi);
        lemma_block_sum_bound(f, w, h - 1, hi);
        assert(hi * w * h == hi * w * (h - 1) + hi * w) by (nonlinear_arith);
    } else {
        assert(hi * w * h == 0) by (nonlinear_arith)
            requires
                h == 0,
        ;
    }
}

} // verus!
