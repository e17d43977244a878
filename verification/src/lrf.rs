//! The box sums of the self-guided loop restoration filter.

use crate::arch::{i32x4_add, i32x4_sub, u32x4, u32x4_extract_lane, v128};
use crate::cpu_features::CpuFeatureLevel;
use crate::dist::shifted;
use crate::math::{lemma_wrap32_sub, max_int, round_shr, shr_u32, shr_u64, wrap32};
use crate::pixel::Sample;
use crate::plane::PlaneRegion;
use crate::portable::{starts_with, store_front};
use crate::sums::{block_sum, row_of, sum};
use crate::vector::{lemma_word_of_wrap, word_carry, word_u32};
use vstd::arithmetic::power2::pow2;
use vstd::prelude::*;

verus! {

broadcast use {crate::math::group_wrap, crate::vector::group_lanes};

/// The bits of the strength table.
pub const SGRPROJ_MTABLE_BITS: u32 = 20;

/// The bits of the reciprocals of the box sizes.
pub const SGRPROJ_RECIP_BITS: u32 = 12;

/// The bits of the weights.
pub const SGRPROJ_SGR_BITS: u32 = 8;

/// The sum over the square of the given size whose top left corner is in row `y`, column `x`, by
/// the integral image. It is exact modulo `2^32`.
pub open spec fn integral_square(iimg: Seq<u32>, stride: int, x: int, y: int, size: int) -> int {
    (iimg[y * stride + x] + iimg[(y + size) * stride + x + size] - iimg[(y + size) * stride + x]
        - iimg[y * stride + x + size]) % 0x1_0000_0000
}

/// `n` times the sum of squares less the square of the sum, in eight bits: `n^2` times the
/// variance, and 0 where rounding makes it negative.
pub open spec fn spread(ssq: int, total: int, n: int, bd: int) -> int {
    max_int(
        0,
        round_shr(ssq, 2 * (bd - 8)) * n - round_shr(total, bd - 8) * round_shr(total, bd - 8),
    )
}

/// The weight of the box average, out of 256, for a scaled variance.
pub open spec fn box_weight(z: int) -> int {
    if z >= 255 {
        256
    } else if z == 0 {
        1
    } else {
        (z * 256 + z / 2) / (z + 1)
    }
}

/// The first coefficient of a box: it grows with the variance.
pub open spec fn box_a(ssq: int, total: int, n: int, s: int, bd: int) -> int {
    box_weight(round_shr(spread(ssq, total, n, bd) * s, 20))
}

/// The second coefficient of a box: what the first leaves of 256, times the average.
pub open spec fn box_b(a: int, total: int, one_over_n: int) -> int {
    round_shr((256 - a) * total * one_over_n, 12) % 0x1_0000_0000
}

/// Whether the second coefficient of a box can be computed in 64 bits.
pub open spec fn product_fits(a: int, total: int, one_over_n: int) -> bool {
    (256 - a) * total * one_over_n + 0x800 <= u64::MAX
}

/// Whether the coefficients of a box can be computed in 32 bits.
pub open spec fn finish_fits(ssq: int, total: int, n: int, s: int, bd: int) -> bool {
    &&& ssq + pow2((2 * (bd - 8)) as nat) as int / 2 <= u32::MAX
    &&& total + pow2((bd - 8) as nat) as int / 2 <= u32::MAX
    &&& round_shr(ssq, 2 * (bd - 8)) * n <= u32::MAX
    &&& round_shr(total, bd - 8) * round_shr(total, bd - 8) <= u32::MAX
    &&& spread(ssq, total, n, bd) * s + 0x8_0000 <= u32::MAX
}

/// The side of a box of radius `r`.
pub open spec fn side(r: int) -> int {
    2 * r + 1
}

/// The reciprocal of the number of samples of a box, in 12 bits.
pub open spec fn reciprocal(r: int) -> int {
    if r == 1 {
        455
    } else {
        164
    }
}

/// The sum of the box of column `x`.
pub open spec fn box_sum(iimg: Seq<u32>, stride: int, x: int, y: int, r: int) -> int {
    integral_square(iimg, stride, x, y, side(r))
}

/// The first coefficient of the box of column `x`.
pub open spec fn a_at(
    iimg: Seq<u32>,
    iimg_sq: Seq<u32>,
    stride: int,
    x: int,
    y: int,
    r: int,
    s: int,
    bd: int,
) -> int {
    box_a(
        box_sum(iimg_sq, stride, x, y, r),
        box_sum(iimg, stride, x, y, r),
        side(r) * side(r),
        s,
        bd,
    )
}

/// The second coefficient of the box of column `x`.
pub open spec fn b_at(
    iimg: Seq<u32>,
    iimg_sq: Seq<u32>,
    stride: int,
    x: int,
    y: int,
    r: int,
    s: int,
    bd: int,
) -> int {
    box_b(
        a_at(iimg, iimg_sq, stride, x, y, r, s, bd),
        box_sum(iimg, stride, x, y, r),
        reciprocal(r),
    )
}

/// Whether the integral image holds the boxes of the first `n` columns of row `y`.
pub open spec fn holds_boxes(len: int, stride: int, y: int, n: int, r: int) -> bool {
    (y + side(r)) * stride + n - 1 + side(r) < len
}

/// Whether the coefficients of the boxes of columns `x0` to `n` can be computed in 32 bits.
pub open spec fn boxes_fit(
    iimg: Seq<u32>,
    iimg_sq: Seq<u32>,
    stride: int,
    y: int,
    x0: int,
    n: int,
    r: int,
    s: int,
    bd: int,
) -> bool {
    forall|x: int|
        x0 <= x < n ==> finish_fits(
            #[trigger] box_sum(iimg_sq, stride, x, y, r),
            box_sum(iimg, stride, x, y, r),
            side(r) * side(r),
            s,
            bd,
        )
}

/// The positions of the corners of a square.
proof fn lemma_corners(len: int, stride: int, x: int, y: int, size: int)
    requires
        0 <= x,
        0 <= y,
        0 <= size,
        0 <= stride,
        (y + size) * stride + x + size < len,
    ensures
        0 <= y * stride,
        0 <= (y + size) * stride,
        0 <= y * stride + x < len,
        0 <= y * stride + x + size < len,
        0 <= (y + size) * stride + x < len,
{
    assert(0 <= y * stride <= (y + size) * stride) by (nonlinear_arith)
        requires
            0 <= y,
            0 <= size,
            0 <= stride,
    ;
}

/// The sum over a square.
fn get_integral_square_scalar(iimg: &[u32], stride: usize, x: usize, y: usize, size: usize) -> (r:
    u32)
    requires
        y + size <= usize::MAX,
        (y + size) * stride + x + size < iimg@.len(),
    ensures
        r == integral_square(iimg@, stride as int, x as int, y as int, size as int),
{
    proof {
        lemma_corners(iimg@.len() as int, stride as int, x as int, y as int, size as int);
    }
    let len: usize = iimg.len();
    assert(len == iimg@.len());
    let top: usize = y * stride;
    let bottom: usize = (y + size) * stride;
    integral_of(iimg[top + x], iimg[top + x + size], iimg[bottom + x], iimg[bottom + x + size])
}

/// The sum over a square, from its corners.
fn integral_of(top_left: u32, top_right: u32, bottom_left: u32, bottom_right: u32) -> (r: u32)
    ensures
        r == (top_left + bottom_right - bottom_left - top_right) % 0x1_0000_0000,
{
    top_left.wrapping_add(bottom_right).wrapping_sub(bottom_left).wrapping_sub(top_right)
}

/// Four entries of an integral image.
fn load_u32x4(iimg: &[u32], at: usize) -> (r: v128)
    requires
        at + 4 <= iimg@.len(),
    ensures
        forall|k: int| 0 <= k < 4 ==> #[trigger] r.lane_u32(k) == iimg@[at + k],
{
    u32x4(iimg[at], iimg[at + 1], iimg[at + 2], iimg[at + 3])
}

/// The sums over the squares of four columns.
fn get_integral_square_simd4(iimg: &[u32], stride: usize, x: usize, y: usize, size: usize) -> (r:
    v128)
    requires
        y + size <= usize::MAX,
        (y + size) * stride + x + size + 3 < iimg@.len(),
    ensures
        forall|k: int|
            0 <= k < 4 ==> #[trigger] r.lane_u32(k) == integral_square(
                iimg@,
                stride as int,
                x + k,
                y as int,
                size as int,
            ),
{
    proof {
        lemma_corners(iimg@.len() as int, stride as int, x + 3, y as int, size as int);
    }
    let len: usize = iimg.len();
    assert(len == iimg@.len());
    let top: usize = y * stride;
    let bottom: usize = (y + size) * stride;
    let top_left = load_u32x4(iimg, top + x);
    let top_right = load_u32x4(iimg, top + x + size);
    let bottom_left = load_u32x4(iimg, bottom + x);
    let bottom_right = load_u32x4(iimg, bottom + x + size);
    let sum1 = i32x4_add(top_left, bottom_right);
    let sum2 = i32x4_add(bottom_left, top_right);
    let r = i32x4_sub(sum1, sum2);
    assert forall|k: int| 0 <= k < 4 implies #[trigger] r.lane_u32(k) == integral_square(
        iimg@,
        stride as int,
        x + k,
        y as int,
        size as int,
    ) by {
        let tl = top_left.lane_i32(k);
        let tr = top_right.lane_i32(k);
        let bl = bottom_left.lane_i32(k);
        let br = bottom_right.lane_i32(k);
        assert(word_u32(tl) == iimg@[top + x + k]) by {
            assert(top_left.lane_u32(k) == iimg@[top + x + k]);
        }
        assert(word_u32(tr) == iimg@[top + x + size + k]) by {
            assert(top_right.lane_u32(k) == iimg@[top + x + size + k]);
        }
        assert(word_u32(bl) == iimg@[bottom + x + k]) by {
            assert(bottom_left.lane_u32(k) == iimg@[bottom + x + k]);
        }
        assert(word_u32(br) == iimg@[bottom + x + size + k]) by {
            assert(bottom_right.lane_u32(k) == iimg@[bottom + x + size + k]);
        }
        assert(sum1.lane_i32(k) == wrap32(tl + br));
        assert(sum2.lane_i32(k) == wrap32(bl + tr));
        lemma_wrap32_sub(tl + br, bl + tr);
        assert(r.lane_i32(k) == wrap32(tl + br - (bl + tr)));
        lemma_word_of_wrap(
            r.lane_i32(k),
            tl + br - (bl + tr),
            word_u32(tl) + word_u32(br) - word_u32(bl) - word_u32(tr),
            word_carry(tl) + word_carry(br) - word_carry(bl) - word_carry(tr),
        );
    }
    r
}

/// A rounding right shift of a 32-bit number.
fn round_shr_u32(x: u32, s: u32) -> (r: u32)
    requires
        s < 32,
        x + pow2(s as nat) as int / 2 <= u32::MAX,
    ensures
        r == round_shr(x as int, s as int),
{
    proof {
        lemma_pow2_u32(s);
    }
    let p: u32 = 1u32 << s;
    shr_u32(x + p / 2, s)
}

/// The powers of two that 32 bits hold.
proof fn lemma_pow2_u32(s: u32)
    requires
        s < 32,
    ensures
        0 < pow2(s as nat) <= 0x8000_0000,
        1 * pow2(s as nat) <= u32::MAX,
        1u32 << s == pow2(s as nat),
{
    vstd::arithmetic::power2::lemma2_to64();
    vstd::arithmetic::power2::lemma_pow2_pos(s as nat);
    if s < 31 {
        vstd::arithmetic::power2::lemma_pow2_strictly_increases(s as nat, 31);
    }
    vstd::bits::lemma_u32_shl_is_mul(1u32, s);
}

/// Four boxes whose coefficients can be computed in 32 bits have reciprocals that are small enough
/// for 64 bits.
proof fn lemma_products_fit(ssq: v128, sum: v128, n: int, s: int, bd: int, one_over_n: int)
    requires
        forall|k: int|
            0 <= k < 4 ==> finish_fits(#[trigger] ssq.lane_u32(k), sum.lane_u32(k), n, s, bd),
        0 <= s,
        0 <= one_over_n <= 0xfff,
    ensures
        forall|k: int|
            0 <= k < 4 ==> finish_fits(#[trigger] ssq.lane_u32(k), sum.lane_u32(k), n, s, bd)
                && product_fits(
                box_a(ssq.lane_u32(k), sum.lane_u32(k), n, s, bd),
                sum.lane_u32(k),
                one_over_n,
            ),
{
    assert forall|k: int| 0 <= k < 4 implies finish_fits(
        #[trigger] ssq.lane_u32(k),
        sum.lane_u32(k),
        n,
        s,
        bd,
    ) && product_fits(
        box_a(ssq.lane_u32(k), sum.lane_u32(k), n, s, bd),
        sum.lane_u32(k),
        one_over_n,
    ) by {
        lemma_product_fits(ssq.lane_u32(k), sum.lane_u32(k), n, s, bd, one_over_n);
    }
}

/// The reciprocals of the boxes are small enough for 64 bits.
proof fn lemma_product_fits(ssq: int, total: int, n: int, s: int, bd: int, one_over_n: int)
    requires
        finish_fits(ssq, total, n, s, bd),
        0 <= s,
        0 <= total <= u32::MAX,
        0 <= one_over_n <= 0xfff,
    ensures
        product_fits(box_a(ssq, total, n, s, bd), total, one_over_n),
{
    let z = spread(ssq, total, n, bd) * s;
    assert(z >= 0) by (nonlinear_arith)
        requires
            z == spread(ssq, total, n, bd) * s,
            spread(ssq, total, n, bd) >= 0,
            s >= 0,
    ;
    vstd::arithmetic::power2::lemma2_to64();
    assert(pow2(20) == 0x10_0000);
    assert(round_shr(z, 20) == (z + 0x8_0000) / 0x10_0000);
    lemma_box_weight(round_shr(z, 20));
    let q = 256 - box_a(ssq, total, n, s, bd);
    assert(0 <= q * total <= 0xff * 0xffff_ffff) by (nonlinear_arith)
        requires
            0 <= q <= 0xff,
            0 <= total <= 0xffff_ffff,
    ;
    assert(q * total * one_over_n <= 0xff * 0xffff_ffff * 0xfff) by (nonlinear_arith)
        requires
            0 <= q * total <= 0xff * 0xffff_ffff,
            0 <= one_over_n <= 0xfff,
    ;
}

/// The coefficients of a box.
pub fn sgrproj_sum_finish_scalar<const BD: usize>(
    ssq: u32,
    sum: u32,
    n: u32,
    one_over_n: u32,
    s: u32,
) -> (r: (u32, u32))
    requires
        8 <= BD <= 23,
        finish_fits(ssq as int, sum as int, n as int, s as int, BD as int),
        product_fits(
            box_a(ssq as int, sum as int, n as int, s as int, BD as int),
            sum as int,
            one_over_n as int,
        ),
    ensures
        r.0 == box_a(ssq as int, sum as int, n as int, s as int, BD as int),
        r.1 == box_b(r.0 as int, sum as int, one_over_n as int),
        1 <= r.0 <= 256,
{
    let bdm8: u32 = (BD - 8) as u32;
    let scaled_ssq: u32 = round_shr_u32(ssq, 2 * bdm8);
    let scaled_sum: u32 = round_shr_u32(sum, bdm8);
    proof {
        assert(scaled_ssq * n >= 0 && scaled_sum * scaled_sum >= 0) by (nonlinear_arith)
            requires
                scaled_ssq >= 0,
                n >= 0,
                scaled_sum >= 0,
        ;
    }
    let ssq_n: u32 = scaled_ssq * n;
    let sum_sq: u32 = scaled_sum * scaled_sum;
    let p: u32 = if ssq_n >= sum_sq {
        ssq_n - sum_sq
    } else {
        0
    };
    proof {
        assert(p == spread(ssq as int, sum as int, n as int, BD as int));
        assert(p * s >= 0) by (nonlinear_arith)
            requires
                p >= 0,
                s >= 0,
        ;
        vstd::arithmetic::power2::lemma2_to64();
        assert(pow2(20) == 0x10_0000);
        assert(pow2(12) == 0x1000);
    }
    let z: u32 = round_shr_u32(p * s, SGRPROJ_MTABLE_BITS);
    let a: u32 = if z >= 255 {
        256
    } else if z == 0 {
        1
    } else {
        proof {
            lemma_box_weight(z as int);
        }
        (z * 256 + z / 2) / (z + 1)
    };
    proof {
        let q = 256 - a;
        assert(0 <= q * sum <= 0x100_0000_0000) by (nonlinear_arith)
            requires
                0 <= q <= 256,
                0 <= sum <= 0xffff_ffff,
        ;
        assert(0 <= q * sum * one_over_n) by (nonlinear_arith)
            requires
                0 <= q * sum,
                0 <= one_over_n,
        ;
    }
    let b: u64 = (256 - a as u64) * sum as u64 * one_over_n as u64;
    let rounded: u64 = shr_u64(b + 0x800, SGRPROJ_RECIP_BITS);
    (a, (rounded % 0x1_0000_0000) as u32)
}

/// The coefficients of four boxes: in each lane, those of the box with the sums of that lane.
pub fn sgrproj_sum_finish_simd<const BD: usize>(
    ssq: v128,
    sum: v128,
    n: u32,
    one_over_n: u32,
    s: u32,
) -> (r: (v128, v128))
    requires
        8 <= BD <= 23,
        forall|k: int|
            0 <= k < 4 ==> finish_fits(
                #[trigger] ssq.lane_u32(k),
                sum.lane_u32(k),
                n as int,
                s as int,
                BD as int,
            ) && product_fits(
                box_a(ssq.lane_u32(k), sum.lane_u32(k), n as int, s as int, BD as int),
                sum.lane_u32(k),
                one_over_n as int,
            ),
    ensures
        forall|k: int|
            0 <= k < 4 ==> #[trigger] r.0.lane_u32(k) == box_a(
                ssq.lane_u32(k),
                sum.lane_u32(k),
                n as int,
                s as int,
                BD as int,
            ) && 1 <= r.0.lane_u32(k) <= 256,
        forall|k: int|
            0 <= k < 4 ==> #[trigger] r.1.lane_u32(k) == box_b(
                r.0.lane_u32(k),
                sum.lane_u32(k),
                one_over_n as int,
            ),
{
    assert(finish_fits(ssq.lane_u32(0), sum.lane_u32(0), n as int, s as int, BD as int));
    assert(finish_fits(ssq.lane_u32(1), sum.lane_u32(1), n as int, s as int, BD as int));
    assert(finish_fits(ssq.lane_u32(2), sum.lane_u32(2), n as int, s as int, BD as int));
    assert(finish_fits(ssq.lane_u32(3), sum.lane_u32(3), n as int, s as int, BD as int));
    let (a0, b0) = sgrproj_sum_finish_scalar::<BD>(
        u32x4_extract_lane::<0>(ssq),
        u32x4_extract_lane::<0>(sum),
        n,
        one_over_n,
        s,
    );
    let (a1, b1) = sgrproj_sum_finish_scalar::<BD>(
        u32x4_extract_lane::<1>(ssq),
        u32x4_extract_lane::<1>(sum),
        n,
        one_over_n,
        s,
    );
    let (a2, b2) = sgrproj_sum_finish_scalar::<BD>(
        u32x4_extract_lane::<2>(ssq),
        u32x4_extract_lane::<2>(sum),
        n,
        one_over_n,
        s,
    );
    let (a3, b3) = sgrproj_sum_finish_scalar::<BD>(
        u32x4_extract_lane::<3>(ssq),
        u32x4_extract_lane::<3>(sum),
        n,
        one_over_n,
        s,
    );
    (u32x4(a0, a1, a2, a3), u32x4(b0, b1, b2, b3))
}

/// Columns `x0` to `n` hold the coefficients of their boxes, and nothing else differs from what
/// was there before.
pub open spec fn boxes_done(
    af0: Seq<u32>,
    bf0: Seq<u32>,
    af: Seq<u32>,
    bf: Seq<u32>,
    iimg: Seq<u32>,
    iimg_sq: Seq<u32>,
    stride: int,
    y: int,
    x0: int,
    n: int,
    r: int,
    s: int,
    bd: int,
) -> bool {
    &&& af.len() == af0.len()
    &&& bf.len() == bf0.len()
    &&& forall|x: int|
        x0 <= x < n ==> #[trigger] af[x] == a_at(iimg, iimg_sq, stride, x, y, r, s, bd)
    &&& forall|x: int|
        x0 <= x < n ==> #[trigger] bf[x] == b_at(iimg, iimg_sq, stride, x, y, r, s, bd)
    &&& forall|x: int|
        0 <= x < af0.len() && !(x0 <= x < n) ==> #[trigger] af[x] == af0[x]
    &&& forall|x: int|
        0 <= x < bf0.len() && !(x0 <= x < n) ==> #[trigger] bf[x] == bf0[x]
}

/// The coefficients of the boxes of columns `start_x` to `stripe_w + 2` of row `y`, four columns at
/// a time.
pub fn sgrproj_box_ab_simd<const BD: usize>(
    r: usize,
    af: &mut [u32],
    bf: &mut [u32],
    iimg: &[u32],
    iimg_sq: &[u32],
    iimg_stride: usize,
    start_x: usize,
    y: usize,
    stripe_w: usize,
    s: u32,
)
    requires
        8 <= BD <= 23,
        r == 1 || r == 2,
        start_x <= stripe_w + 2,
        stripe_w + 2 <= old(af)@.len(),
        stripe_w + 2 <= old(bf)@.len(),
        y + side(r as int) <= usize::MAX,
        holds_boxes(iimg@.len() as int, iimg_stride as int, y as int, stripe_w + 2, r as int),
        holds_boxes(iimg_sq@.len() as int, iimg_stride as int, y as int, stripe_w + 2, r as int),
        boxes_fit(
            iimg@,
            iimg_sq@,
            iimg_stride as int,
            y as int,
            start_x as int,
            stripe_w + 2,
            r as int,
            s as int,
            BD as int,
        ),
    ensures
        boxes_done(
            old(af)@,
            old(bf)@,
            final(af)@,
            final(bf)@,
            iimg@,
            iimg_sq@,
            iimg_stride as int,
            y as int,
            start_x as int,
            stripe_w + 2,
            r as int,
            s as int,
            BD as int,
        ),
{
    let ghost af0 = af@;
    let ghost bf0 = bf@;
    let ghost stride = iimg_stride as int;
    let d: usize = r * 2 + 1;
    let n: u32 = if r == 1 {
        9
    } else {
        25
    };
    let one_over_n: u32 = if r == 1 {
        455
    } else {
        164
    };
    proof {
        let sd = side(r as int);
        assert(sd * sd == n) by (nonlinear_arith)
            requires
                (sd == 3 && n == 9) || (sd == 5 && n == 25),
        ;
    }
    let alen: usize = af.len();
    assert(alen == af@.len());
    let end: usize = stripe_w + 2;
    let mut x: usize = start_x;
    while end - x >= 4
        invariant
            start_x <= x <= end,
            end == stripe_w + 2,
            end <= af0.len(),
            end <= bf0.len(),
            8 <= BD <= 23,
            r == 1 || r == 2,
            d == side(r as int),
            n == side(r as int) * side(r as int),
            one_over_n == reciprocal(r as int),
            y + side(r as int) <= usize::MAX,
            stride == iimg_stride,
            holds_boxes(iimg@.len() as int, stride, y as int, end as int, r as int),
            holds_boxes(iimg_sq@.len() as int, stride, y as int, end as int, r as int),
            boxes_fit(
                iimg@,
                iimg_sq@,
                stride,
                y as int,
                start_x as int,
                end as int,
                r as int,
                s as int,
                BD as int,
            ),
            boxes_done(
                af0,
                bf0,
                af@,
                bf@,
                iimg@,
                iimg_sq@,
                stride,
                y as int,
                start_x as int,
                x as int,
                r as int,
                s as int,
                BD as int,
            ),
        decreases end - x,
    {
        let sum = get_integral_square_simd4(iimg, iimg_stride, x, y, d);
        let ssq = get_integral_square_simd4(iimg_sq, iimg_stride, x, y, d);
        proof {
            assert forall|k: int| 0 <= k < 4 implies finish_fits(
                #[trigger] ssq.lane_u32(k),
                sum.lane_u32(k),
                n as int,
                s as int,
                BD as int,
            ) by {
                assert(ssq.lane_u32(k) == box_sum(iimg_sq@, stride, x + k, y as int, r as int));
                assert(sum.lane_u32(k) == integral_square(
                    iimg@,
                    stride,
                    x + k,
                    y as int,
                    d as int,
                ));
            }
            lemma_products_fit(ssq, sum, n as int, s as int, BD as int, one_over_n as int);
        }
        let (a, b) = sgrproj_sum_finish_simd::<BD>(ssq, sum, n, one_over_n, s);
        let ghost af1 = af@;
        let ghost bf1 = bf@;
        af[x] = u32x4_extract_lane::<0>(a);
        af[x + 1] = u32x4_extract_lane::<1>(a);
        af[x + 2] = u32x4_extract_lane::<2>(a);
        af[x + 3] = u32x4_extract_lane::<3>(a);
        bf[x] = u32x4_extract_lane::<0>(b);
        bf[x + 1] = u32x4_extract_lane::<1>(b);
        bf[x + 2] = u32x4_extract_lane::<2>(b);
        bf[x + 3] = u32x4_extract_lane::<3>(b);
        proof {
            assert forall|i: int| start_x <= i < x + 4 implies #[trigger] af@[i] == a_at(
                iimg@,
                iimg_sq@,
                stride,
                i,
                y as int,
                r as int,
                s as int,
                BD as int,
            ) by {
                if i < x {
                    assert(af@[i] == af1[i]);
                } else {
                    let k = i - x;
                    assert(af@[i] == a.lane_u32(k));
                    assert(ssq.lane_u32(k) == integral_square(
                        iimg_sq@,
                        stride,
                        x + k,
                        y as int,
                        d as int,
                    ));
                    assert(sum.lane_u32(k) == integral_square(
                        iimg@,
                        stride,
                        x + k,
                        y as int,
                        d as int,
                    ));
                }
            }
            assert forall|i: int| start_x <= i < x + 4 implies #[trigger] bf@[i] == b_at(
                iimg@,
                iimg_sq@,
                stride,
                i,
                y as int,
                r as int,
                s as int,
                BD as int,
            ) by {
                assert(af@[i] == a_at(
                    iimg@,
                    iimg_sq@,
                    stride,
                    i,
                    y as int,
                    r as int,
                    s as int,
                    BD as int,
                ));
                if i < x {
                    assert(bf@[i] == bf1[i]);
                } else {
                    let k = i - x;
                    assert(af@[i] == a.lane_u32(k));
                    assert(bf@[i] == b.lane_u32(k));
                    assert(sum.lane_u32(k) == integral_square(
                        iimg@,
                        stride,
                        x + k,
                        y as int,
                        d as int,
                    ));
                }
            }
        }
        x += 4;
    }
    while x < end
        invariant
            start_x <= x <= end,
            end == stripe_w + 2,
            end <= af0.len(),
            end <= bf0.len(),
            8 <= BD <= 23,
            r == 1 || r == 2,
            d == side(r as int),
            n == side(r as int) * side(r as int),
            one_over_n == reciprocal(r as int),
            y + side(r as int) <= usize::MAX,
            stride == iimg_stride,
            holds_boxes(iimg@.len() as int, stride, y as int, end as int, r as int),
            holds_boxes(iimg_sq@.len() as int, stride, y as int, end as int, r as int),
            boxes_fit(
                iimg@,
                iimg_sq@,
                stride,
                y as int,
                start_x as int,
                end as int,
                r as int,
                s as int,
                BD as int,
            ),
            boxes_done(
                af0,
                bf0,
                af@,
                bf@,
                iimg@,
                iimg_sq@,
                stride,
                y as int,
                start_x as int,
                x as int,
                r as int,
                s as int,
                BD as int,
            ),
        decreases end - x,
    {
        let sum: u32 = get_integral_square_scalar(iimg, iimg_stride, x, y, d);
        let ssq: u32 = get_integral_square_scalar(iimg_sq, iimg_stride, x, y, d);
        proof {
            assert(ssq == box_sum(iimg_sq@, stride, x as int, y as int, r as int));
            lemma_product_fits(
                ssq as int,
                sum as int,
                n as int,
                s as int,
                BD as int,
                one_over_n as int,
            );
        }
        let (a, b) = sgrproj_sum_finish_scalar::<BD>(ssq, sum, n, one_over_n, s);
        af[x] = a;
        bf[x] = b;
        x += 1;
    }
}

/// The coefficients of the boxes of radius 1 of row `y`, for `stripe_w + 2` columns, from the
/// integral images of the samples and of their squares.
pub fn sgrproj_box_ab_r1<const BD: usize>(
    af: &mut [u32],
    bf: &mut [u32],
    iimg: &[u32],
    iimg_sq: &[u32],
    iimg_stride: usize,
    y: usize,
    stripe_w: usize,
    s: u32,
    _cpu: CpuFeatureLevel,
)
    requires
        8 <= BD <= 23,
        stripe_w + 2 <= old(af)@.len(),
        stripe_w + 2 <= old(bf)@.len(),
        y + side(1) <= usize::MAX,
        holds_boxes(iimg@.len() as int, iimg_stride as int, y as int, stripe_w + 2, 1),
        holds_boxes(iimg_sq@.len() as int, iimg_stride as int, y as int, stripe_w + 2, 1),
        boxes_fit(
            iimg@,
            iimg_sq@,
            iimg_stride as int,
            y as int,
            0,
            stripe_w + 2,
            1,
            s as int,
            BD as int,
        ),
    ensures
        final(af)@.len() == old(af)@.len(),
        final(bf)@.len() == old(bf)@.len(),
        forall|x: int|
            0 <= x < stripe_w + 2 ==> #[trigger] final(af)@[x] == a_at(
                iimg@,
                iimg_sq@,
                iimg_stride as int,
                x,
                y as int,
                1,
                s as int,
                BD as int,
            ),
        forall|x: int|
            0 <= x < stripe_w + 2 ==> #[trigger] final(bf)@[x] == b_at(
                iimg@,
                iimg_sq@,
                iimg_stride as int,
                x,
                y as int,
                1,
                s as int,
                BD as int,
            ),
        forall|x: int|
            stripe_w + 2 <= x < old(af)@.len() ==> #[trigger] final(af)@[x] == old(af)@[x],
        forall|x: int|
            stripe_w + 2 <= x < old(bf)@.len() ==> #[trigger] final(bf)@[x] == old(bf)@[x],
{
    sgrproj_box_ab_simd::<BD>(1, af, bf, iimg, iimg_sq, iimg_stride, 0, y, stripe_w, s);
}

/// The coefficients of the boxes of radius 2 of row `y`, for `stripe_w + 2` columns, from the
/// integral images of the samples and of their squares.
pub fn sgrproj_box_ab_r2<const BD: usize>(
    af: &mut [u32],
    bf: &mut [u32],
    iimg: &[u32],
    iimg_sq: &[u32],
    iimg_stride: usize,
    y: usize,
    stripe_w: usize,
    s: u32,
    _cpu: CpuFeatureLevel,
)
    requires
        8 <= BD <= 23,
        stripe_w + 2 <= old(af)@.len(),
        stripe_w + 2 <= old(bf)@.len(),
        y + side(2) <= usize::MAX,
        holds_boxes(iimg@.len() as int, iimg_stride as int, y as int, stripe_w + 2, 2),
        holds_boxes(iimg_sq@.len() as int, iimg_stride as int, y as int, stripe_w + 2, 2),
        boxes_fit(
            iimg@,
            iimg_sq@,
            iimg_stride as int,
            y as int,
            0,
            stripe_w + 2,
            2,
            s as int,
            BD as int,
        ),
    ensures
        final(af)@.len() == old(af)@.len(),
        final(bf)@.len() == old(bf)@.len(),
        forall|x: int|
            0 <= x < stripe_w + 2 ==> #[trigger] final(af)@[x] == a_at(
                iimg@,
                iimg_sq@,
                iimg_stride as int,
                x,
                y as int,
                2,
                s as int,
                BD as int,
            ),
        forall|x: int|
            0 <= x < stripe_w + 2 ==> #[trigger] final(bf)@[x] == b_at(
                iimg@,
                iimg_sq@,
                iimg_stride as int,
                x,
                y as int,
                2,
                s as int,
                BD as int,
            ),
        forall|x: int|
            stripe_w + 2 <= x < old(af)@.len() ==> #[trigger] final(af)@[x] == old(af)@[x],
        forall|x: int|
            stripe_w + 2 <= x < old(bf)@.len() ==> #[trigger] final(bf)@[x] == old(bf)@[x],
{
    sgrproj_box_ab_simd::<BD>(2, af, bf, iimg, iimg_sq, iimg_stride, 0, y, stripe_w, s);
}

/// The unfiltered samples of row `y`, `w` of them, as `filter` gives them for the row, their
/// number, the samples and the level.
pub fn sgrproj_box_f_r0<
    T: Sample,
    F: FnOnce(usize, usize, &PlaneRegion<'_, T>, CpuFeatureLevel) -> Vec<u32>,
>(
    f: &mut [u32],
    y: usize,
    w: usize,
    cdeffed: &PlaneRegion<'_, T>,
    cpu: CpuFeatureLevel,
    filter: F,
)
    requires
        call_requires(filter, (y, w, cdeffed, cpu)),
        forall|v: Vec<u32>|
            #[trigger] call_ensures(filter, (y, w, cdeffed, cpu), v) ==> v@.len() <= old(f)@.len(),
    ensures
        exists|v: Vec<u32>|
            #[trigger] call_ensures(filter, (y, w, cdeffed, cpu), v) && starts_with(
                old(f)@,
                final(f)@,
                v@,
            ),
{
    let v: Vec<u32> = filter(y, w, cdeffed, cpu);
    store_front(f, &v);
}

/// The samples of row `y`, `w` of them, filtered with boxes of radius 1, as `filter` gives them for
/// the coefficients of the boxes of three rows, the row, the number of samples, the samples and
/// the level.
pub fn sgrproj_box_f_r1<
    T: Sample,
    F: FnOnce(
        &[&[u32]; 3],
        &[&[u32]; 3],
        usize,
        usize,
        &PlaneRegion<'_, T>,
        CpuFeatureLevel,
    ) -> Vec<u32>,
>(
    af: &[&[u32]; 3],
    bf: &[&[u32]; 3],
    f: &mut [u32],
    y: usize,
    w: usize,
    cdeffed: &PlaneRegion<'_, T>,
    cpu: CpuFeatureLevel,
    filter: F,
)
    requires
        call_requires(filter, (af, bf, y, w, cdeffed, cpu)),
        forall|v: Vec<u32>|
            #[trigger] call_ensures(filter, (af, bf, y, w, cdeffed, cpu), v) ==> v@.len() <= old(
                f,
            )@.len(),
    ensures
        exists|v: Vec<u32>|
            #[trigger] call_ensures(filter, (af, bf, y, w, cdeffed, cpu), v) && starts_with(
                old(f)@,
                final(f)@,
                v@,
            ),
{
    let v: Vec<u32> = filter(af, bf, y, w, cdeffed, cpu);
    store_front(f, &v);
}

/// The samples of two rows from row `y` on, `w` of each, filtered with boxes of radius 2, as
/// `filter` gives them for the coefficients of the boxes of two rows, the row, the number of
/// samples, the samples and the level.
pub fn sgrproj_box_f_r2<
    T: Sample,
    F: FnOnce(
        &[&[u32]; 2],
        &[&[u32]; 2],
        usize,
        usize,
        &PlaneRegion<'_, T>,
        CpuFeatureLevel,
    ) -> (Vec<u32>, Vec<u32>),
>(
    af: &[&[u32]; 2],
    bf: &[&[u32]; 2],
    f0: &mut [u32],
    f1: &mut [u32],
    y: usize,
    w: usize,
    cdeffed: &PlaneRegion<'_, T>,
    cpu: CpuFeatureLevel,
    filter: F,
)
    requires
        call_requires(filter, (af, bf, y, w, cdeffed, cpu)),
        forall|v: (Vec<u32>, Vec<u32>)|
            #[trigger] call_ensures(filter, (af, bf, y, w, cdeffed, cpu), v) ==> v.0@.len() <= old(
                f0,
            )@.len() && v.1@.len() <= old(f1)@.len(),
    ensures
        exists|v: (Vec<u32>, Vec<u32>)|
            #[trigger] call_ensures(filter, (af, bf, y, w, cdeffed, cpu), v) && starts_with(
                old(f0)@,
                final(f0)@,
                v.0@,
            ) && starts_with(old(f1)@, final(f1)@, v.1@),
{
    let v: (Vec<u32>, Vec<u32>) = filter(af, bf, y, w, cdeffed, cpu);
    store_front(f0, &v.0);
    store_front(f1, &v.1);
}

/// The weight of a box is from 1 to 256.
pub proof fn lemma_box_weight(z: int)
    requires
        z >= 0,
    ensures
        1 <= box_weight(z) <= 256,
{
    if 0 < z < 255 {
        assert(1 <= (z * 256 + z / 2) / (z + 1) <= 256) by (nonlinear_arith)
            requires
                0 < z < 255,
        ;
    }
}

/// A box of `n` equal samples has the smallest weight.
pub proof fn lemma_flat_box(v: int, n: int, s: int)
    requires
        0 <= v,
        0 < n,
        0 <= s,
    ensures
        box_a(n * (v * v), n * v, n, s, 8) == 1,
{
    vstd::arithmetic::power2::lemma2_to64();
    assert(pow2(0) == 1);
    assert(round_shr(n * (v * v), 0) == n * (v * v));
    assert(round_shr(n * v, 0) == n * v);
    assert(n * (v * v) * n == (n * v) * (n * v)) by (nonlinear_arith);
    assert(spread(n * (v * v), n * v, n, 8) * s == 0 * s);
    assert(0 * s == 0);
    assert(pow2(20) == 0x10_0000);
    assert(round_shr(0, 20) == 0x8_0000int / 0x10_0000);
}

/// A row of a sum, cut in two.
proof fn lemma_sum_cut(f: spec_fn(int) -> int, x: int, n: int)
    requires
        0 <= n,
        0 <= x,
    ensures
        sum(f, x + n) == sum(f, x) + sum(|i: int| f(x + i), n),
    decreases n,
{
    let g = |i: int| f(x + i);
    if n > 0 {
        lemma_sum_cut(f, x, n - 1);
        assert(g(n - 1) == f(x + n - 1));
    }
}

/// The columns from `x` on of the first `h` rows.
proof fn lemma_columns_cut(f: spec_fn(int, int) -> int, x: int, n: int, h: int)
    requires
        0 <= n,
        0 <= x,
        0 <= h,
    ensures
        block_sum(f, x + n, h) == block_sum(f, x, h) + block_sum(shifted(f, 0, x), n, h),
    decreases h,
{
    if h > 0 {
        lemma_columns_cut(f, x, n, h - 1);
        lemma_sum_cut(row_of(f, h - 1), x, n);
        crate::sums::lemma_sum_eq(
            row_of(shifted(f, 0, x), h - 1),
            |i: int| row_of(f, h - 1)(x + i),
            n,
        );
    }
}

/// The rows from `y` on.
proof fn lemma_rows_cut(f: spec_fn(int, int) -> int, y: int, w: int, n: int)
    requires
        0 <= n,
        0 <= y,
        0 <= w,
    ensures
        block_sum(f, w, y + n) == block_sum(f, w, y) + block_sum(shifted(f, y, 0), w, n),
    decreases n,
{
    if n > 0 {
        lemma_rows_cut(f, y, w, n - 1);
        crate::sums::lemma_sum_eq(row_of(f, y + n - 1), row_of(shifted(f, y, 0), n - 1), w);
    }
}

/// The integral image of a picture gives the sum over any square of it, modulo `2^32`.
pub proof fn lemma_integral_image(
    f: spec_fn(int, int) -> int,
    iimg: Seq<u32>,
    stride: int,
    x: int,
    y: int,
    size: int,
)
    requires
        0 <= x,
        0 <= y,
        0 <= size,
        0 <= stride,
        (y + size) * stride + x + size < iimg.len(),
        forall|j: int, i: int|
            0 <= j <= y + size && 0 <= i <= x + size ==> iimg[j * stride + i] == #[trigger] block_sum(
                f,
                i,
                j,
            ) % 0x1_0000_0000,
    ensures
        integral_square(iimg, stride, x, y, size) == block_sum(shifted(f, y, x), size, size)
            % 0x1_0000_0000,
{
    let p = block_sum(f, x, y);
    let q = block_sum(f, x + size, y);
    let t = block_sum(f, x, y + size);
    let u = block_sum(f, x + size, y + size);
    assert(iimg[y * stride + x] == p % 0x1_0000_0000);
    assert(iimg[y * stride + (x + size)] == q % 0x1_0000_0000);
    assert(iimg[(y + size) * stride + x] == t % 0x1_0000_0000);
    assert(iimg[(y + size) * stride + (x + size)] == u % 0x1_0000_0000);
    let g = shifted(f, y, 0);
    lemma_rows_cut(f, y, x, size);
    lemma_rows_cut(f, y, x + size, size);
    lemma_columns_cut(g, x, size, size);
    crate::sums::lemma_block_sum_eq(shifted(g, 0, x), shifted(f, y, x), size, size);
    assert(u - t - q + p == block_sum(shifted(f, y, x), size, size));
}

} // verus!
