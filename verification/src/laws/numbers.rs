//! What holds of the arithmetic that the kernels share.

use crate::math::{
    abs_int, clamp_int, max_int, min_int, round_shr, shr, wrap16, wrap32, wrap64,
};
use crate::sums::{block_sum, row_of, sum};
use vstd::arithmetic::div_mod::{lemma_fundamental_div_mod, lemma_fundamental_div_mod_converse};
use vstd::arithmetic::power2::{lemma_pow2_pos, pow2};
use vstd::prelude::*;

verus! {

/// A right shift is the largest number whose multiple by the power of two does not exceed what is
/// shifted.
pub proof fn lemma_shift_is_quotient(x: int, s: int, q: int)
    requires
        0 <= s,
    ensures
        q == shr(x, s) <==> pow2(s as nat) * q <= x < pow2(s as nat) * (q + 1),
{
    let d = pow2(s as nat) as int;
    lemma_pow2_pos(s as nat);
    lemma_fundamental_div_mod(x, d);
    let t = x / d;
    assert(d * (t + 1) == d * t + d && d * (q + 1) == d * q + d) by (nonlinear_arith);
    if d * q <= x < d * (q + 1) {
        assert(q * d + (x - d * q) == x) by (nonlinear_arith);
        lemma_fundamental_div_mod_converse(x, d, q, x - d * q);
    }
}

/// A rounded right shift is the nearest quotient, and the upper one of two that are as near.
pub proof fn lemma_rounded_shift_is_nearest(x: int, s: int, q: int)
    requires
        0 <= s,
    ensures
        q == round_shr(x, s) <==> pow2(s as nat) * q <= x + pow2(s as nat) as int / 2 < pow2(
            s as nat,
        ) * (q + 1),
{
    lemma_shift_is_quotient(x + pow2(s as nat) as int / 2, s, q);
}

/// A number brought into a range is the nearest one of the range.
pub proof fn lemma_clamped_is_nearest(x: int, lo: int, hi: int, z: int)
    requires
        lo <= z <= hi,
    ensures
        lo <= clamp_int(x, lo, hi) <= hi,
        clamp_int(x, lo, hi) <= x ==> clamp_int(x, lo, hi) == x || z <= clamp_int(x, lo, hi),
        clamp_int(x, lo, hi) >= x ==> clamp_int(x, lo, hi) == x || z >= clamp_int(x, lo, hi),
        lo <= x <= hi ==> clamp_int(x, lo, hi) == x,
{
}

/// The smaller and the larger of two numbers are the two numbers, in order.
pub proof fn lemma_smaller_and_larger(x: int, y: int)
    ensures
        min_int(x, y) <= max_int(x, y),
        (min_int(x, y) == x && max_int(x, y) == y) || (min_int(x, y) == y && max_int(x, y) == x),
{
}

/// An absolute value is not negative, and is that of the number or of its opposite.
pub proof fn lemma_magnitude(x: int)
    ensures
        abs_int(x) >= 0,
        abs_int(x) == x || abs_int(x) == -x,
{
}

/// A number is reduced to the only one of the range that differs from it by a multiple of the
/// length of the range.
pub proof fn lemma_reductions(x: int, r: int)
    ensures
        -0x8000 <= r < 0x8000 ==> (r == wrap16(x) <==> (x - r) % 0x1_0000 == 0),
        -0x8000_0000 <= r < 0x8000_0000 ==> (r == wrap32(x) <==> (x - r) % 0x1_0000_0000 == 0),
        -0x8000_0000_0000_0000 <= r < 0x8000_0000_0000_0000 ==> (r == wrap64(x) <==> (x - r)
            % 0x1_0000_0000_0000_0000 == 0),
        -0x8000 <= wrap16(x) < 0x8000,
        -0x8000_0000 <= wrap32(x) < 0x8000_0000,
        -0x8000_0000_0000_0000 <= wrap64(x) < 0x8000_0000_0000_0000,
{
    reveal(wrap16);
    reveal(wrap32);
    reveal(wrap64);
}

/// A sum has no terms at first, and gains one with each step.
pub proof fn lemma_sum_steps(f: spec_fn(int) -> int, n: int)
    requires
        0 <= n,
    ensures
        sum(f, 0) == 0,
        sum(f, n + 1) == sum(f, n) + f(n),
{
}

/// A sum can be cut in two.
pub proof fn lemma_sum_cut_in_two(
    f: spec_fn(int) -> int,
    tail: spec_fn(int) -> int,
    m: int,
    n: int,
)
    requires
        0 <= m,
        0 <= n,
        forall|i: int| 0 <= i < n ==> #[trigger] tail(i) == f(m + i),
    ensures
        sum(f, m + n) == sum(f, m) + sum(tail, n),
    decreases n,
{
    if n > 0 {
        lemma_sum_cut_in_two(f, tail, m, n - 1);
        assert(tail(n - 1) == f(m + (n - 1)));
    }
}

/// A block can be cut in two below any of its rows.
pub proof fn lemma_block_cut_below(
    f: spec_fn(int, int) -> int,
    lower: spec_fn(int, int) -> int,
    w: int,
    m: int,
    n: int,
)
    requires
        0 <= m,
        0 <= n,
        forall|j: int, i: int| 0 <= j < n && 0 <= i < w ==> #[trigger] lower(j, i) == f(m + j, i),
    ensures
        block_sum(f, w, m + n) == block_sum(f, w, m) + block_sum(lower, w, n),
    decreases n,
{
    if n > 0 {
        lemma_block_cut_below(f, lower, w, m, n - 1);
        assert forall|i: int| 0 <= i < w implies #[trigger] row_of(lower, n - 1)(i) == row_of(
            f,
            m + n - 1,
        )(i) by {
            assert(lower(n - 1, i) == f(m + (n - 1), i));
        }
        crate::sums::lemma_sum_eq(row_of(lower, n - 1), row_of(f, m + n - 1), w);
    }
}

/// A block can be cut in two behind any of its columns.
pub proof fn lemma_block_cut_behind(
    f: spec_fn(int, int) -> int,
    right: spec_fn(int, int) -> int,
    m: int,
    n: int,
    h: int,
)
    requires
        0 <= m,
        0 <= n,
        forall|j: int, i: int| 0 <= j < h && 0 <= i < n ==> #[trigger] right(j, i) == f(j, m + i),
    ensures
        block_sum(f, m + n, h) == block_sum(f, m, h) + block_sum(right, n, h),
    decreases h,
{
    if h > 0 {
        lemma_block_cut_behind(f, right, m, n, h - 1);
        assert forall|i: int| 0 <= i < n implies #[trigger] row_of(right, h - 1)(i) == row_of(
            f,
            h - 1,
        )(m + i) by {
            assert(right(h - 1, i) == f(h - 1, m + i));
        }
        lemma_sum_cut_in_two(row_of(f, h - 1), row_of(right, h - 1), m, n);
    }
}

/// A block of one sample adds up to that sample, and one without rows or columns to nothing.
pub proof fn lemma_smallest_blocks(f: spec_fn(int, int) -> int, n: int)
    ensures
        block_sum(f, 1, 1) == f(0, 0),
        block_sum(f, n, 0) == 0,
        block_sum(f, 0, n) == 0,
    decreases n,
{
    reveal_with_fuel(sum, 2);
    reveal_with_fuel(block_sum, 2);
    if n > 0 {
        lemma_smallest_blocks(f, n - 1);
    }
}

} // verus!
