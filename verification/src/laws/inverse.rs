//! What holds of the inverse transform.

use crate::laws::numbers::lemma_reductions;
use crate::math::shr;
use crate::pixel::{Coefficient, PixelType, Sample};
use crate::plane::PlaneRegionMut;
use crate::transform::inverse::{half_btf, idct4, reconstruction, residual_4x4};
use vstd::arithmetic::power2::{lemma2_to64, lemma_pow2_pos, pow2};
use vstd::prelude::*;

verus! {

broadcast use crate::math::group_wrap;

/// A reconstructed sample is the predicted one and its residual, wherever that is a sample, and
/// else the nearer end of the range of samples. A range wider than the storage is cut off to it.
pub proof fn lemma_residuals_are_added<T: Sample, C: Coefficient>(
    before: PlaneRegionMut<'_, T>,
    after: PlaneRegionMut<'_, T>,
    input: Seq<C>,
    bd: int,
    y: int,
    x: int,
    predicted: int,
    v: int,
    t: int,
)
    requires
        after.wrote(before, 4, 4, reconstruction(input, before, bd)),
        0 <= bd,
        0 <= y < 4,
        0 <= x < 4,
        predicted == before.data@[before.origin + y * before.stride + x].val(),
        v == after.data@[after.origin + y * after.stride + x].val(),
        t == predicted + residual_4x4(input, bd, y, x),
    ensures
        bd <= 8 || (bd <= 16 && T::storage() == PixelType::U16) ==> {
            &&& 0 <= t < pow2(bd as nat) ==> v == t
            &&& t < 0 ==> v == 0
            &&& t >= pow2(bd as nat) ==> v == pow2(bd as nat) - 1
        },
        T::storage() == PixelType::U8 ==> {
            &&& 0 <= t < pow2(bd as nat) ==> v == t % 0x100
            &&& t < 0 ==> v == 0
            &&& t >= pow2(bd as nat) ==> v == (pow2(bd as nat) - 1) % 0x100
        },
        T::storage() == PixelType::U16 ==> {
            &&& 0 <= t < pow2(bd as nat) ==> v == t % 0x1_0000
            &&& t < 0 ==> v == 0
            &&& t >= pow2(bd as nat) ==> v == (pow2(bd as nat) - 1) % 0x1_0000
        },
{
    lemma2_to64();
    lemma_pow2_pos(bd as nat);
    assert(pow2(8) == 256 && pow2(16) == 65536);
    if bd < 8 {
        vstd::arithmetic::power2::lemma_pow2_strictly_increases(bd as nat, 8);
    } else if 8 < bd < 16 {
        vstd::arithmetic::power2::lemma_pow2_strictly_increases(bd as nat, 16);
    }
    let f = reconstruction(input, before, bd);
    assert(after.at(y, x) == f(y, x));
    assert(before.at(y, x) == predicted);
}

/// The inverse transform of a line of four numbers. Their weighted sums and differences, with one
/// half added, are `t0` to `t3`, wrapped to 32 bits. These are scaled down by 4096 and rounded
/// down: the even ones to `s0` and `s1`, the odd ones to `s2` and `s3`. The first and the last of
/// the results are `s0` with and without `s3`, the two between them `s1` with and without `s2`;
/// what leaves the range of `range + 1` bits becomes the nearer end of it.
pub proof fn lemma_inverse_cosine(
    x0: int,
    x1: int,
    x2: int,
    x3: int,
    range: int,
    t0: int,
    t1: int,
    t2: int,
    t3: int,
    s0: int,
    s1: int,
    s2: int,
    s3: int,
    k: int,
    t: int,
    r: int,
)
    requires
        0 <= range,
        (2896 * x0 + 2896 * x2 + 2048 - t0) % 0x1_0000_0000 == 0,
        (2896 * x0 - 2896 * x2 + 2048 - t1) % 0x1_0000_0000 == 0,
        (1567 * x1 - 3784 * x3 + 2048 - t2) % 0x1_0000_0000 == 0,
        (3784 * x1 + 1567 * x3 + 2048 - t3) % 0x1_0000_0000 == 0,
        -0x8000_0000 <= 4096 * s0 <= t0 < 4096 * (s0 + 1) <= 0x8000_0000,
        -0x8000_0000 <= 4096 * s1 <= t1 < 4096 * (s1 + 1) <= 0x8000_0000,
        -0x8000_0000 <= 4096 * s2 <= t2 < 4096 * (s2 + 1) <= 0x8000_0000,
        -0x8000_0000 <= 4096 * s3 <= t3 < 4096 * (s3 + 1) <= 0x8000_0000,
        (k == 0 && t == s0 + s3) || (k == 1 && t == s1 + s2) || (k == 2 && t == s1 - s2) || (k == 3
            && t == s0 - s3),
        r == idct4(x0, x1, x2, x3, range, k),
    ensures
        -pow2(range as nat) <= t < pow2(range as nat) ==> r == t,
        t < -pow2(range as nat) ==> r == -pow2(range as nat),
        t >= pow2(range as nat) ==> r == pow2(range as nat) - 1,
{
    lemma2_to64();
    lemma_pow2_pos(range as nat);
    lemma_butterfly(2896, x0, 2896, x2, t0, s0);
    lemma_butterfly(2896, x0, -2896, x2, t1, s1);
    lemma_butterfly(1567, x1, -3784, x3, t2, s2);
    lemma_butterfly(3784, x1, 1567, x3, t3, s3);
}

/// Half of a butterfly, as the nearest number.
proof fn lemma_butterfly(w0: int, a: int, w1: int, b: int, t: int, s: int)
    requires
        (a * w0 + b * w1 + 2048 - t) % 0x1_0000_0000 == 0,
        -0x8000_0000 <= 4096 * s <= t < 4096 * (s + 1) <= 0x8000_0000,
    ensures
        half_btf(w0, a, w1, b) == s,
{
    lemma2_to64();
    assert(pow2(12) == 4096);
    lemma_reductions(a * w0 + b * w1 + 2048, t);
    assert(shr(t, 12) == t / 4096);
}

/// The residuals of a block. First the rows are transformed, and limited to `bd + 9` bits; the
/// coefficients of a row are four apart. Then the columns are, and limited to 17 bits, or
/// `bd + 7` beyond ten bits. A sixteenth of that, rounded to the nearest and halves up, is the
/// residual.
pub proof fn lemma_residuals_of_rows_and_columns<C: Coefficient>(
    input: Seq<C>,
    bd: int,
    rows: spec_fn(int, int) -> int,
    y: int,
    x: int,
    t: int,
    residual: int,
)
    requires
        0 <= bd,
        0 <= y < 4,
        0 <= x < 4,
        forall|r: int|
            0 <= r < 4 ==> #[trigger] rows(r, x) == idct4(
                input[r].val(),
                input[r + 4].val(),
                input[r + 8].val(),
                input[r + 12].val(),
                bd + 8,
                x,
            ),
        t == idct4(
            rows(0, x),
            rows(1, x),
            rows(2, x),
            rows(3, x),
            if bd > 10 {
                bd + 6
            } else {
                16
            },
            y,
        ),
        residual == residual_4x4(input, bd, y, x),
    ensures
        16 * residual <= t + 8 < 16 * (residual + 1),
{
    lemma2_to64();
    assert(pow2(4) == 16);
    assert(shr(t + 8, 4) == (t + 8) / 16);
    assert(rows(0, x) == crate::transform::inverse::row_pass(input, bd, 0, x));
    assert(rows(1, x) == crate::transform::inverse::row_pass(input, bd, 1, x));
    assert(rows(2, x) == crate::transform::inverse::row_pass(input, bd, 2, x));
    assert(rows(3, x) == crate::transform::inverse::row_pass(input, bd, 3, x));
}

} // verus!
