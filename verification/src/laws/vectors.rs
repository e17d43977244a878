//! What holds of vectors: how the readings of a vector relate, and what is made of their lanes.

use crate::arch::{mask, pair_lane, select_bits, v128};
use crate::laws::numbers::lemma_reductions;
use crate::math::{abs_int, shr};
use crate::simd_helpers::{
    dot4, dot8, is_i7, q15_mul, sad_u8x16, smooth_blend, sum_i16x8, sum_i32x4, sum_u16x8, sum_u32x4,
    sum_u8x16,
};
use crate::sums::sum;
use crate::transform::forward::{
    all_shifted, half_toward_zero, left_shifted, right_shifted, round_shifted, wide_at, I32X4,
};
use vstd::arithmetic::div_mod::lemma_fundamental_div_mod;
use vstd::arithmetic::power2::{lemma2_to64, lemma_pow2_pos, pow2};
use vstd::prelude::*;

verus! {

/// A 32-bit lane is made of two 16-bit lanes and of four bytes, and a 64-bit lane of two 32-bit
/// lanes, the low ones first.
pub proof fn lemma_lanes_are_made_of_lanes(v: v128, k: int)
    requires
        0 <= k < 4,
    ensures
        v.lane_u32(k) == v.lane_u16(2 * k) + 0x1_0000 * v.lane_u16(2 * k + 1),
        v.lane_u16(2 * k) == v.lane_u8(4 * k) + 0x100 * v.lane_u8(4 * k + 1),
        v.lane_u16(2 * k + 1) == v.lane_u8(4 * k + 2) + 0x100 * v.lane_u8(4 * k + 3),
        0 <= v.lane_u8(4 * k) < 0x100 && 0 <= v.lane_u8(4 * k + 1) < 0x100,
        0 <= v.lane_u8(4 * k + 2) < 0x100 && 0 <= v.lane_u8(4 * k + 3) < 0x100,
        k % 2 == 0 ==> v.lane_i64(k / 2) == v.lane_u32(k) + 0x1_0000_0000 * v.lane_i32(k + 1),
{
    reveal(v128::lane_u16);
    reveal(v128::lane_u8);
    reveal(v128::lane_i64);
    let w = v.lane_u32(k);
    assert((2 * k) / 2 == k && (2 * k) % 2 == 0 && (2 * k + 1) / 2 == k && (2 * k + 1) % 2 == 1);
    assert((4 * k) / 4 == k && (4 * k) % 4 == 0 && (4 * k + 1) / 4 == k && (4 * k + 1) % 4 == 1);
    assert((4 * k + 2) / 4 == k && (4 * k + 2) % 4 == 2 && (4 * k + 3) / 4 == k && (4 * k + 3) % 4
        == 3);
}

/// A signed reading is the unsigned one, less the number of patterns where that is half of them or
/// more.
pub proof fn lemma_signed_lanes(v: v128, k: int)
    ensures
        v.lane_i8(k) == v.lane_u8(k) || v.lane_i8(k) == v.lane_u8(k) - 0x100,
        -0x80 <= v.lane_i8(k) < 0x80,
        v.lane_i16(k) == v.lane_u16(k) || v.lane_i16(k) == v.lane_u16(k) - 0x1_0000,
        -0x8000 <= v.lane_i16(k) < 0x8000,
        v.lane_i32(k) == v.lane_u32(k) || v.lane_i32(k) == v.lane_u32(k) - 0x1_0000_0000,
        0 <= v.lane_u32(k) < 0x1_0000_0000,
{
    crate::vector::lemma_lane_u8(v, k);
    crate::vector::lemma_lane_u16(v, k);
}

/// Vectors with the same four words are the same, and their words are the 32-bit lanes.
pub proof fn lemma_lanes_make_a_vector(a: v128, b: v128)
    requires
        forall|k: int| 0 <= k < 4 ==> #[trigger] a.lane_i32(k) == b.lane_i32(k),
    ensures
        a == b,
        a.e0 == b.lane_i32(0) && a.e1 == b.lane_i32(1) && a.e2 == b.lane_i32(2) && a.e3
            == b.lane_i32(3),
{
    assert(a.lane_i32(0) == b.lane_i32(0));
    assert(a.lane_i32(1) == b.lane_i32(1));
    assert(a.lane_i32(2) == b.lane_i32(2));
    assert(a.lane_i32(3) == b.lane_i32(3));
}

/// The lanes of two vectors follow each other.
pub proof fn lemma_lanes_of_pairs(a: v128, b: v128, k: int)
    requires
        0 <= k < 4,
    ensures
        pair_lane(a, b, k) == a.lane_i32(k),
        pair_lane(a, b, k + 4) == b.lane_i32(k),
{
}

/// A mask has all bits or none.
pub proof fn lemma_masks(b: bool)
    ensures
        b ==> mask(b) == -1,
        !b ==> mask(b) == 0,
{
}

/// Every bit is taken from the first word where the mask has a bit, and else from the second.
pub proof fn lemma_selected_bits(x: i32, y: i32, m: i32)
    ensures
        select_bits(x, y, m) & m == x & m,
        select_bits(x, y, m) & !m == y & !m,
{
    assert(((x & m) | (y & !m)) & m == x & m) by (bit_vector);
    assert(((x & m) | (y & !m)) & !m == y & !m) by (bit_vector);
}

/// The sum of the lanes of a vector has each of them once.
pub proof fn lemma_sums_of_lanes(v: v128)
    ensures
        sum_i32x4(v) == sum(|k: int| v.lane_i32(k) as int, 4),
        sum_u32x4(v) == sum(|k: int| v.lane_u32(k), 4),
        sum_i16x8(v) == sum(|k: int| v.lane_i16(k), 8),
        sum_u16x8(v) == sum(|k: int| v.lane_u16(k), 8),
        sum_u8x16(v) == sum(|k: int| v.lane_u8(k), 16),
{
    lemma_sum_of_four(|k: int| v.lane_i32(k) as int);
    lemma_sum_of_four(|k: int| v.lane_u32(k));
    lemma_sum_of_eight(|k: int| v.lane_i16(k));
    lemma_sum_of_eight(|k: int| v.lane_u16(k));
    lemma_sum_of_sixteen(|k: int| v.lane_u8(k));
}

proof fn lemma_sum_of_four(f: spec_fn(int) -> int)
    ensures
        sum(f, 4) == f(0) + f(1) + f(2) + f(3),
{
    reveal_with_fuel(sum, 5);
}

proof fn lemma_sum_of_eight(f: spec_fn(int) -> int)
    ensures
        sum(f, 8) == f(0) + f(1) + f(2) + f(3) + f(4) + f(5) + f(6) + f(7),
{
    reveal_with_fuel(sum, 9);
}

proof fn lemma_sum_of_sixteen(f: spec_fn(int) -> int)
    ensures
        sum(f, 16) == f(0) + f(1) + f(2) + f(3) + f(4) + f(5) + f(6) + f(7) + f(8) + f(9) + f(10)
            + f(11) + f(12) + f(13) + f(14) + f(15),
{
    crate::sums::lemma_sum_16(f, 0);
    assert(sum(f, 0) == 0);
}

/// The distance of two vectors of bytes is how far apart their bytes are, all together.
pub proof fn lemma_distance_of_bytes(a: v128, b: v128, d: spec_fn(int) -> int)
    requires
        forall|k: int|
            0 <= k < 16 ==> #[trigger] d(k) >= 0 && (d(k) == a.lane_u8(k) - b.lane_u8(k) || d(k)
                == b.lane_u8(k) - a.lane_u8(k)),
    ensures
        sad_u8x16(a, b) == sum(d, 16),
{
    let f = |k: int| abs_int(a.lane_u8(k) - b.lane_u8(k));
    assert forall|k: int| 0 <= k < 16 implies #[trigger] f(k) == d(k) by {
        assert(d(k) >= 0);
    }
    crate::sums::lemma_sum_eq(f, d, 16);
    lemma_sum_of_sixteen(f);
}

/// A dot product has the product of every pair of bytes once: four pairs to a lane, and eight to
/// a position of a filter.
pub proof fn lemma_dot_products(a: v128, b: v128, i: int)
    ensures
        dot4(a, b, i) == sum(|t: int| a.lane_i8(4 * i + t) * b.lane_i8(4 * i + t), 4),
        dot8(a, i, b) == sum(|t: int| a.lane_i8(i + t) * b.lane_i8(t), 8),
{
    let f = |t: int| a.lane_i8(4 * i + t) * b.lane_i8(4 * i + t);
    let g = |t: int| a.lane_i8(i + t) * b.lane_i8(t);
    lemma_sum_of_four(f);
    lemma_sum_of_eight(g);
    assert(4 * i + 0 == 4 * i && i + 0 == i);
}

/// Bytes are signed 7-bit numbers from -64 to 63.
pub proof fn lemma_seven_bits(b: v128, i: int)
    ensures
        is_i7(b, i) <==> -64 <= b.lane_i8(4 * i) < 64 && -64 <= b.lane_i8(4 * i + 1) < 64 && -64
            <= b.lane_i8(4 * i + 2) < 64 && -64 <= b.lane_i8(4 * i + 3) < 64,
{
    assert(is_i7(b, i) ==> -64 <= b.lane_i8(4 * i) <= 63 && -64 <= b.lane_i8(4 * i + 1) <= 63 && -64
        <= b.lane_i8(4 * i + 2) <= 63 && -64 <= b.lane_i8(4 * i + 3) <= 63);
    if -64 <= b.lane_i8(4 * i) < 64 && -64 <= b.lane_i8(4 * i + 1) < 64 && -64 <= b.lane_i8(
        4 * i + 2,
    ) < 64 && -64 <= b.lane_i8(4 * i + 3) < 64 {
        assert forall|j: int| 4 * i <= j < 4 * i + 4 implies -64 <= #[trigger] b.lane_i8(j) <= 63 by {
            assert(j == 4 * i || j == 4 * i + 1 || j == 4 * i + 2 || j == 4 * i + 3);
        }
    }
}

/// The product of two fractions of 15 bits is the nearest one, and the upper one of two that are
/// as near.
pub proof fn lemma_fraction_products(x: int, y: int, r: int)
    ensures
        r == q15_mul(x, y) <==> 0x8000 * r <= x * y + 0x4000 < 0x8000 * (r + 1),
{
}

/// A blend is `weight` parts of one number and the rest of 256 of the other, rounded down. It lies
/// between the two, and is exact where they are equal.
pub proof fn lemma_blends(above: int, below: int, weight: int, r: int)
    requires
        -0x8000 <= above < 0x8000,
        -0x8000 <= below < 0x8000,
        0 <= weight <= 256,
        r == smooth_blend(above, below, weight),
    ensures
        256 * r <= weight * above + (256 - weight) * below < 256 * (r + 1),
        above <= below ==> above <= r <= below,
        below <= above ==> below <= r <= above,
        weight == 0 ==> r == below,
        weight == 256 ==> r == above,
{
    lemma2_to64();
    assert(pow2(8) == 256);
    let t = weight * above + (256 - weight) * below;
    let q = t / 256;
    assert(shr(t, 8) == q);
    assert(above <= below ==> 256 * above <= t <= 256 * below) by (nonlinear_arith)
        requires
            0 <= weight <= 256,
            t == weight * above + (256 - weight) * below,
    ;
    assert(below <= above ==> 256 * below <= t <= 256 * above) by (nonlinear_arith)
        requires
            0 <= weight <= 256,
            t == weight * above + (256 - weight) * below,
    ;
    assert(-0x8000 <= q < 0x8000);
    lemma_reductions(q, q);
    assert(weight == 0 ==> t == 256 * below) by (nonlinear_arith)
        requires
            t == weight * above + (256 - weight) * below,
    ;
    assert(weight == 256 ==> t == 256 * above) by (nonlinear_arith)
        requires
            t == weight * above + (256 - weight) * below,
    ;
}

/// Half of a number is cut off towards zero.
pub proof fn lemma_halves(x: int, r: int)
    requires
        r == half_toward_zero(x),
    ensures
        x >= 0 ==> 2 * r <= x < 2 * r + 2,
        x <= 0 ==> 2 * r - 2 < x <= 2 * r,
{
}

/// A shift by up to 31 bits to the right divides by a power of two and rounds to the nearest,
/// halves up. A shift to the left multiplies by it. No shift changes nothing.
pub proof fn lemma_shifts(x: int, bit: int, r: int)
    requires
        -0x8000_0000 <= x < 0x8000_0000,
        r == round_shifted(x, bit),
    ensures
        bit == 0 ==> r == x,
        0 < bit < 32 && x + pow2((bit - 1) as nat) < 0x8000_0000 ==> pow2(bit as nat) * r <= x
            + pow2((bit - 1) as nat) < pow2(bit as nat) * (r + 1),
        -32 < bit < 0 && -0x8000_0000 <= x * pow2((-bit) as nat) < 0x8000_0000 ==> r == x * pow2(
            (-bit) as nat,
        ),
{
    if 0 < bit < 32 {
        let t = x + pow2((bit - 1) as nat);
        lemma_pow2_pos((bit - 1) as nat);
        lemma_pow2_pos(bit as nat);
        if t < 0x8000_0000 {
            lemma_reductions(t, t);
            let d = pow2(bit as nat) as int;
            lemma_fundamental_div_mod(t, d);
            let g = t / d;
            assert(d * (g + 1) == d * g + d) by (nonlinear_arith);
            assert(bit % 32 == bit && (bit - 1) % 32 == bit - 1);
            assert(r == g);
        }
    } else if -32 < bit < 0 {
        let t = x * pow2((-bit) as nat);
        assert((-bit) % 32 == -bit);
        if -0x8000_0000 <= t < 0x8000_0000 {
            lemma_reductions(t, t);
        }
    }
}

/// What does not fit 32 bits wraps: a shift to the left keeps the low bits of the product, and a
/// shift to the right divides what is left of the sum. Amounts count modulo 32.
pub proof fn lemma_shifts_wrap(x: int, shift: int, k: int, t: int)
    requires
        0 < shift,
        0 <= k,
        -0x8000_0000 <= t < 0x8000_0000,
    ensures
        (x * pow2((shift % 32) as nat) - t) % 0x1_0000_0000 == 0 ==> left_shifted(x, shift) == t,
        (x + pow2(((shift - 1) % 32) as nat) - t) % 0x1_0000_0000 == 0 ==> pow2(
            (shift % 32) as nat,
        ) * right_shifted(x, shift) <= t < pow2((shift % 32) as nat) * (right_shifted(x, shift)
            + 1),
        left_shifted(x, shift + 32 * k) == left_shifted(x, shift),
        right_shifted(x, shift + 32 * k) == right_shifted(x, shift),
{
    lemma_reductions(x * pow2((shift % 32) as nat), t);
    lemma_reductions(x + pow2(((shift - 1) % 32) as nat), t);
    let d = pow2((shift % 32) as nat) as int;
    lemma_pow2_pos((shift % 32) as nat);
    lemma_fundamental_div_mod(t, d);
    let g = t / d;
    assert(d * (g + 1) == d * g + d) by (nonlinear_arith);
    assert((shift + 32 * k) % 32 == shift % 32);
    assert((shift + 32 * k - 1) % 32 == (shift - 1) % 32);
}

/// Every number of a list is shifted, each by itself.
pub proof fn lemma_lists_shift(
    before: Seq<I32X4>,
    now: Seq<I32X4>,
    bit: int,
    i: int,
    k: int,
    x: i32,
    r: i32,
)
    requires
        all_shifted(before, now, bit),
        0 <= i < before.len(),
        0 <= k < 4,
        x == before[i].data.lane_i32(k),
        r == now[i].data.lane_i32(k),
    ensures
        now.len() == before.len(),
        r == round_shifted(x as int, bit),
{
    assert(now[i].lane(k) == round_shifted(before[i].lane(k), bit));
}

/// A row of eight numbers is two vectors of four, one after the other.
pub proof fn lemma_wide_rows(m: Seq<I32X4>, i: int, k: int)
    requires
        0 <= i,
        0 <= k < 4,
    ensures
        wide_at(m, i, k) == m[2 * i].data.lane_i32(k),
        wide_at(m, i, k + 4) == m[2 * i + 1].data.lane_i32(k),
{
}

} // verus!
