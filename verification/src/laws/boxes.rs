//! What holds of the boxes of the self-guided filter.

use crate::dist::shifted;
use crate::lrf::{
    a_at, b_at, box_a, box_b, box_sum, boxes_done, lemma_integral_image, side, spread,
};
use crate::math::round_shr;
use crate::sums::{block_sum, lemma_block_sum_eq};
use vstd::arithmetic::div_mod::{lemma_fundamental_div_mod, lemma_fundamental_div_mod_converse};
use vstd::arithmetic::power2::{lemma2_to64, lemma_pow2_pos, pow2};
use vstd::prelude::*;

verus! {

/// The squares of the samples of a picture.
pub open spec fn picture_squares(p: spec_fn(int, int) -> int) -> spec_fn(int, int) -> int {
    |j: int, i: int| p(j, i) * p(j, i)
}

/// The part of a picture that begins in row `y`, column `x`.
pub open spec fn picture_from(p: spec_fn(int, int) -> int, y: int, x: int) -> spec_fn(
    int,
    int,
) -> int {
    |j: int, i: int| p(y + j, x + i)
}

/// Whether `iimg` is the integral image of the first rows and columns of a picture: each entry is
/// the sum of what lies above and to the left of it, modulo `2^32`.
pub open spec fn is_integral_image(
    p: spec_fn(int, int) -> int,
    iimg: Seq<u32>,
    stride: int,
    w: int,
    h: int,
) -> bool {
    forall|j: int, i: int|
        0 <= j <= h && 0 <= i <= w ==> iimg[j * stride + i] == #[trigger] block_sum(p, i, j)
            % 0x1_0000_0000
}

/// A rounded shift, as the nearest number.
proof fn lemma_nearest(x: int, s: int, q: int)
    requires
        0 <= s,
        pow2(s as nat) * q <= x + pow2(s as nat) as int / 2 < pow2(s as nat) * (q + 1),
    ensures
        round_shr(x, s) == q,
{
    let d = pow2(s as nat) as int;
    lemma_pow2_pos(s as nat);
    let t = x + d / 2;
    assert(q * d + (t - d * q) == t && d * (q + 1) == d * q + d) by (nonlinear_arith);
    lemma_fundamental_div_mod_converse(t, d, q, t - d * q);
}

/// The coefficients of a box of `n` samples, from the sum `total` of its samples and the sum `ssq`
/// of their squares.
///
/// Brought to eight bits, `n` times the one less the square of the other is the spread `e` of the
/// box, and nothing where that is negative. `z` is how strong it is: `s` times the spread, in units
/// of `2^20`. The first coefficient is `256 * z / (z + 1)`, at least 1, and 256 from 255 on. The
/// second one is what the first leaves of 256, times the average of the samples. All quotients but
/// that of the first coefficient, which has half of `z` added, are rounded to the nearest.
pub proof fn lemma_coefficients_of_sums(
    total: int,
    ssq: int,
    n: int,
    one_over_n: int,
    s: int,
    bd: int,
    total8: int,
    ssq8: int,
    e: int,
    z: int,
    a: int,
    q: int,
    b: int,
)
    requires
        8 <= bd,
        pow2((bd - 8) as nat) * total8 <= total + pow2((bd - 8) as nat) as int / 2 < pow2(
            (bd - 8) as nat,
        ) * (total8 + 1),
        pow2((2 * (bd - 8)) as nat) * ssq8 <= ssq + pow2((2 * (bd - 8)) as nat) as int / 2 < pow2(
            (2 * (bd - 8)) as nat,
        ) * (ssq8 + 1),
        (ssq8 * n >= total8 * total8 && e == ssq8 * n - total8 * total8) || (ssq8 * n < total8
            * total8 && e == 0),
        0x10_0000 * z <= e * s + 0x8_0000 < 0x10_0000 * (z + 1),
        a == box_a(ssq, total, n, s, bd),
        4096 * q <= (256 - a) * total * one_over_n + 2048 < 4096 * (q + 1),
        b == box_b(a, total, one_over_n),
    ensures
        z >= 255 ==> a == 256,
        z == 0 ==> a == 1,
        0 < z < 255 ==> (z + 1) * a <= 256 * z + z / 2 < (z + 1) * (a + 1),
        b == q % 0x1_0000_0000,
{
    lemma_nearest(total, bd - 8, total8);
    lemma_nearest(ssq, 2 * (bd - 8), ssq8);
    assert(spread(ssq, total, n, bd) == e);
    lemma2_to64();
    assert(pow2(20) == 0x10_0000 && pow2(12) == 4096);
    lemma_nearest(e * s, 20, z);
    if 0 < z < 255 {
        let t = z * 256 + z / 2;
        lemma_fundamental_div_mod(t, z + 1);
        let m = z + 1;
        let g = t / m;
        assert(m * (g + 1) == m * g + m) by (nonlinear_arith);
        assert(a == g);
    }
    lemma_nearest((256 - a) * total * one_over_n, 12, q);
}

/// The coefficients of the box of a column are those of two sums, of the samples and of the
/// squares. Each comes from the corners of the box in its integral image: from row `y` and column
/// `x`, and `2 * r + 1` rows and columns further on.
pub proof fn lemma_boxes_of_corners(
    iimg: Seq<u32>,
    iimg_sq: Seq<u32>,
    stride: int,
    x: int,
    y: int,
    r: int,
    s: int,
    bd: int,
    d: int,
    total: int,
    ssq: int,
)
    requires
        r == 1 || r == 2,
        d == 2 * r + 1,
        0 <= total < 0x1_0000_0000,
        0 <= ssq < 0x1_0000_0000,
        (iimg[y * stride + x] + iimg[(y + d) * stride + x + d] - iimg[(y + d) * stride + x]
            - iimg[y * stride + x + d] - total) % 0x1_0000_0000 == 0,
        (iimg_sq[y * stride + x] + iimg_sq[(y + d) * stride + x + d] - iimg_sq[(y + d) * stride + x]
            - iimg_sq[y * stride + x + d] - ssq) % 0x1_0000_0000 == 0,
    ensures
        r == 1 ==> a_at(iimg, iimg_sq, stride, x, y, r, s, bd) == box_a(ssq, total, 9, s, bd),
        r == 2 ==> a_at(iimg, iimg_sq, stride, x, y, r, s, bd) == box_a(ssq, total, 25, s, bd),
        r == 1 ==> b_at(iimg, iimg_sq, stride, x, y, r, s, bd) == box_b(
            a_at(iimg, iimg_sq, stride, x, y, r, s, bd),
            total,
            455,
        ),
        r == 2 ==> b_at(iimg, iimg_sq, stride, x, y, r, s, bd) == box_b(
            a_at(iimg, iimg_sq, stride, x, y, r, s, bd),
            total,
            164,
        ),
{
    lemma_side_squared(r);
    assert(box_sum(iimg, stride, x, y, r) == total);
    assert(box_sum(iimg_sq, stride, x, y, r) == ssq);
}

/// The number of samples of a box.
proof fn lemma_side_squared(r: int)
    ensures
        r == 1 ==> side(r) * side(r) == 9,
        r == 2 ==> side(r) * side(r) == 25,
{
    let d = side(r);
    assert(r == 1 ==> d * d == 9) by (nonlinear_arith)
        requires
            d == 2 * r + 1,
    ;
    assert(r == 2 ==> d * d == 25) by (nonlinear_arith)
        requires
            d == 2 * r + 1,
    ;
}

/// The coefficients of the box of any column come from the samples of the picture under the box:
/// `2 * r + 1` rows from row `y` on, and as many columns from column `x` on. They are those of the
/// sum of these samples and of the sum of their squares.
pub proof fn lemma_boxes_of_pictures(
    p: spec_fn(int, int) -> int,
    iimg: Seq<u32>,
    iimg_sq: Seq<u32>,
    stride: int,
    x: int,
    y: int,
    r: int,
    s: int,
    bd: int,
    total: int,
    ssq: int,
)
    requires
        r == 1 || r == 2,
        0 <= x,
        0 <= y,
        0 <= stride,
        (y + 2 * r + 1) * stride + x + 2 * r + 1 < iimg.len(),
        (y + 2 * r + 1) * stride + x + 2 * r + 1 < iimg_sq.len(),
        is_integral_image(p, iimg, stride, x + 2 * r + 1, y + 2 * r + 1),
        is_integral_image(picture_squares(p), iimg_sq, stride, x + 2 * r + 1, y + 2 * r + 1),
        total == block_sum(picture_from(p, y, x), 2 * r + 1, 2 * r + 1),
        ssq == block_sum(picture_from(picture_squares(p), y, x), 2 * r + 1, 2 * r + 1),
        0 <= total < 0x1_0000_0000,
        0 <= ssq < 0x1_0000_0000,
    ensures
        r == 1 ==> a_at(iimg, iimg_sq, stride, x, y, r, s, bd) == box_a(ssq, total, 9, s, bd),
        r == 2 ==> a_at(iimg, iimg_sq, stride, x, y, r, s, bd) == box_a(ssq, total, 25, s, bd),
        r == 1 ==> b_at(iimg, iimg_sq, stride, x, y, r, s, bd) == box_b(
            a_at(iimg, iimg_sq, stride, x, y, r, s, bd),
            total,
            455,
        ),
        r == 2 ==> b_at(iimg, iimg_sq, stride, x, y, r, s, bd) == box_b(
            a_at(iimg, iimg_sq, stride, x, y, r, s, bd),
            total,
            164,
        ),
        box_sum(iimg, stride, x, y, r) == total,
        box_sum(iimg_sq, stride, x, y, r) == ssq,
{
    lemma_side_squared(r);
    let d = 2 * r + 1;
    lemma_integral_image(p, iimg, stride, x, y, d);
    lemma_integral_image(picture_squares(p), iimg_sq, stride, x, y, d);
    lemma_block_sum_eq(shifted(p, y, x), picture_from(p, y, x), d, d);
    lemma_block_sum_eq(
        shifted(picture_squares(p), y, x),
        picture_from(picture_squares(p), y, x),
        d,
        d,
    );
    assert(box_sum(iimg, stride, x, y, r) == total);
    assert(box_sum(iimg_sq, stride, x, y, r) == ssq);
}

/// Just the columns from `x0` to `n` take on the coefficients of their boxes.
pub proof fn lemma_boxes_in_their_places(
    af0: Seq<u32>,
    bf0: Seq<u32>,
    af: Seq<u32>,
    bf: Seq<u32>,
    iimg: Seq<u32>,
    iimg_sq: Seq<u32>,
    stride: int,
    y: int,
    x0: int,
    n: int,
    r: int,
    s: int,
    bd: int,
    x: int,
)
    requires
        boxes_done(af0, bf0, af, bf, iimg, iimg_sq, stride, y, x0, n, r, s, bd),
        0 <= x < af0.len(),
        x < bf0.len(),
    ensures
        af.len() == af0.len() && bf.len() == bf0.len(),
        x0 <= x < n ==> af[x] == a_at(iimg, iimg_sq, stride, x, y, r, s, bd) && bf[x] == b_at(
            iimg,
            iimg_sq,
            stride,
            x,
            y,
            r,
            s,
            bd,
        ),
        x < x0 || n <= x ==> af[x] == af0[x] && bf[x] == bf0[x],
{
}

/// The coefficients of a box depend on what the integral images say of the box alone: with columns
/// and rows cut off before it, it has the same ones.
pub proof fn lemma_boxes_move(
    iimg: Seq<u32>,
    iimg_sq: Seq<u32>,
    stride: int,
    x: int,
    y: int,
    r: int,
    s: int,
    bd: int,
    cut: int,
    rows: int,
    columns: int,
)
    requires
        r == 1 || r == 2,
        0 <= rows <= y,
        0 <= columns <= x,
        0 <= stride,
        cut == rows * stride + columns,
        (y + 2 * r + 1) * stride + x + 2 * r + 1 < iimg.len(),
        (y + 2 * r + 1) * stride + x + 2 * r + 1 < iimg_sq.len(),
    ensures
        a_at(
            iimg.subrange(cut, iimg.len() as int),
            iimg_sq.subrange(cut, iimg_sq.len() as int),
            stride,
            x - columns,
            y - rows,
            r,
            s,
            bd,
        ) == a_at(iimg, iimg_sq, stride, x, y, r, s, bd),
        b_at(
            iimg.subrange(cut, iimg.len() as int),
            iimg_sq.subrange(cut, iimg_sq.len() as int),
            stride,
            x - columns,
            y - rows,
            r,
            s,
            bd,
        ) == b_at(iimg, iimg_sq, stride, x, y, r, s, bd),
{
    let d = 2 * r + 1;
    assert((y - rows) * stride == y * stride - rows * stride && (y - rows + d) * stride == (y + d)
        * stride - rows * stride) by (nonlinear_arith);
    assert(0 <= rows * stride <= y * stride <= (y + d) * stride) by (nonlinear_arith)
        requires
            0 <= rows <= y,
            0 <= stride,
            0 <= d,
    ;
    assert(box_sum(iimg.subrange(cut, iimg.len() as int), stride, x - columns, y - rows, r)
        == box_sum(iimg, stride, x, y, r));
    assert(box_sum(iimg_sq.subrange(cut, iimg_sq.len() as int), stride, x - columns, y - rows, r)
        == box_sum(iimg_sq, stride, x, y, r));
}

} // verus!
