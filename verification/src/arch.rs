//! The vector instructions that the kernels use, one function each.

pub use crate::vector::v128;

use crate::math::{
    abs_int, clamp_int, lemma_mul_i32_bounds, lemma_shr_bounds, max_int, min_int, shr, shr_i32,
    shr_i64, wrap16, wrap32, wrap64, wrap_to_i16, wrap_to_i32, wrapping_abs_i32, wrapping_add_i32,
    wrapping_add_i64, wrapping_mul_i32, wrapping_sub_i32,
};
use crate::vector::{byte_of, half_of, signed, word_u32};
use vstd::arithmetic::power2::pow2;
use vstd::prelude::*;

verus! {

broadcast use {crate::math::group_wrap, crate::vector::group_lanes};

/// The unsigned reading of a word.
fn to_u32(x: i32) -> (r: u32)
    ensures
        r == word_u32(x),
{
    if x >= 0 {
        x as u32
    } else {
        (x as i64 + 0x1_0000_0000) as u32
    }
}

/// The word with the given unsigned reading.
fn from_u32(x: u32) -> (r: i32)
    ensures
        word_u32(r) == x,
        r == wrap32(x as int),
{
    proof {
        reveal(wrap32);
    }
    if x <= 0x7fff_ffff {
        x as i32
    } else {
        (x as i64 - 0x1_0000_0000) as i32
    }
}

/// The sixteen bytes of a vector.
pub fn to_bytes(v: v128) -> (r: [u8; 16])
    ensures
        forall|k: int| 0 <= k < 16 ==> #[trigger] r[k] == v.lane_u8(k),
{
    proof {
        reveal(v128::lane_u8);
    }
    let a: u32 = to_u32(v.e0);
    let b: u32 = to_u32(v.e1);
    let c: u32 = to_u32(v.e2);
    let d: u32 = to_u32(v.e3);
    [
        (a % 0x100) as u8,
        (a / 0x100 % 0x100) as u8,
        (a / 0x1_0000 % 0x100) as u8,
        (a / 0x100_0000) as u8,
        (b % 0x100) as u8,
        (b / 0x100 % 0x100) as u8,
        (b / 0x1_0000 % 0x100) as u8,
        (b / 0x100_0000) as u8,
        (c % 0x100) as u8,
        (c / 0x100 % 0x100) as u8,
        (c / 0x1_0000 % 0x100) as u8,
        (c / 0x100_0000) as u8,
        (d % 0x100) as u8,
        (d / 0x100 % 0x100) as u8,
        (d / 0x1_0000 % 0x100) as u8,
        (d / 0x100_0000) as u8,
    ]
}

/// The vector with the given bytes.
pub fn from_bytes(x: &[u8; 16]) -> (r: v128)
    ensures
        forall|k: int| 0 <= k < 16 ==> #[trigger] r.lane_u8(k) == x[k],
{
    proof {
        reveal(v128::lane_u8);
    }
    let r = v128 {
        e0: word_from_bytes(x[0], x[1], x[2], x[3]),
        e1: word_from_bytes(x[4], x[5], x[6], x[7]),
        e2: word_from_bytes(x[8], x[9], x[10], x[11]),
        e3: word_from_bytes(x[12], x[13], x[14], x[15]),
    };
    r
}

/// The word made of four bytes, the lowest first.
fn word_from_bytes(b0: u8, b1: u8, b2: u8, b3: u8) -> (r: i32)
    ensures
        byte_of(word_u32(r), 0) == b0,
        byte_of(word_u32(r), 1) == b1,
        byte_of(word_u32(r), 2) == b2,
        byte_of(word_u32(r), 3) == b3,
{
    let w: u32 = b0 as u32 + b1 as u32 * 0x100 + b2 as u32 * 0x1_0000 + b3 as u32 * 0x100_0000;
    assert(w % 0x100 == b0 && w / 0x100 % 0x100 == b1 && w / 0x1_0000 % 0x100 == b2 && w
        / 0x100_0000 == b3) by (bit_vector)
        requires
            w == b0 as u32 + b1 as u32 * 0x100 + b2 as u32 * 0x1_0000 + b3 as u32 * 0x100_0000,
    ;
    from_u32(w)
}

/// The eight unsigned half-words of a vector.
pub fn to_halves(v: v128) -> (r: [u16; 8])
    ensures
        forall|k: int| 0 <= k < 8 ==> #[trigger] r[k] == v.lane_u16(k),
{
    proof {
        reveal(v128::lane_u16);
    }
    let a: u32 = to_u32(v.e0);
    let b: u32 = to_u32(v.e1);
    let c: u32 = to_u32(v.e2);
    let d: u32 = to_u32(v.e3);
    [
        (a % 0x1_0000) as u16,
        (a / 0x1_0000) as u16,
        (b % 0x1_0000) as u16,
        (b / 0x1_0000) as u16,
        (c % 0x1_0000) as u16,
        (c / 0x1_0000) as u16,
        (d % 0x1_0000) as u16,
        (d / 0x1_0000) as u16,
    ]
}

/// The vector with the given unsigned half-words.
pub fn from_halves(x: &[u16; 8]) -> (r: v128)
    ensures
        forall|k: int| 0 <= k < 8 ==> #[trigger] r.lane_u16(k) == x[k],
{
    proof {
        reveal(v128::lane_u16);
    }
    v128 {
        e0: word_from_halves(x[0], x[1]),
        e1: word_from_halves(x[2], x[3]),
        e2: word_from_halves(x[4], x[5]),
        e3: word_from_halves(x[6], x[7]),
    }
}

/// The word made of two half-words, the lowest first.
fn word_from_halves(h0: u16, h1: u16) -> (r: i32)
    ensures
        half_of(word_u32(r), 0) == h0,
        half_of(word_u32(r), 1) == h1,
{
    from_u32(h0 as u32 + h1 as u32 * 0x1_0000)
}

/// The eight signed half-words of a vector.
pub fn to_signed_halves(v: v128) -> (r: [i16; 8])
    ensures
        forall|k: int| 0 <= k < 8 ==> #[trigger] r[k] == v.lane_i16(k),
{
    let h = to_halves(v);
    let mut r: [i16; 8] = [0; 8];
    let mut i: usize = 0;
    while i < 8
        invariant
            i <= 8,
            forall|k: int| 0 <= k < 8 ==> #[trigger] h[k] == v.lane_u16(k),
            forall|k: int| 0 <= k < i ==> #[trigger] r[k] == v.lane_i16(k),
        decreases 8 - i,
    {
        let x: u16 = h[i];
        r[i] = if x < 0x8000 {
            x as i16
        } else {
            (x as i32 - 0x1_0000) as i16
        };
        i += 1;
    }
    r
}

/// The vector with the given signed half-words.
pub fn from_signed_halves(x: &[i16; 8]) -> (r: v128)
    ensures
        forall|k: int| 0 <= k < 8 ==> #[trigger] r.lane_i16(k) == x[k],
{
    let mut h: [u16; 8] = [0; 8];
    let mut i: usize = 0;
    while i < 8
        invariant
            i <= 8,
            forall|k: int| 0 <= k < i ==> signed(#[trigger] h[k] as int, 0x8000) == x[k],
        decreases 8 - i,
    {
        let y: i16 = x[i];
        h[i] = if y >= 0 {
            y as u16
        } else {
            (y as i32 + 0x1_0000) as u16
        };
        i += 1;
    }
    let r = from_halves(&h);
    assert forall|k: int| 0 <= k < 8 implies #[trigger] r.lane_i16(k) == x[k] by {
        assert(r.lane_u16(k) == h[k]);
    }
    r
}

// ---------------------------------------------------------------------------
// Construction and lane access
// ---------------------------------------------------------------------------

/// Four signed 32-bit lanes.
pub fn i32x4(a: i32, b: i32, c: i32, d: i32) -> (r: v128)
    ensures
        r == (v128 { e0: a, e1: b, e2: c, e3: d }),
{
    v128 { e0: a, e1: b, e2: c, e3: d }
}

/// Four unsigned 32-bit lanes.
pub fn u32x4(a: u32, b: u32, c: u32, d: u32) -> (r: v128)
    ensures
        r.lane_u32(0) == a,
        r.lane_u32(1) == b,
        r.lane_u32(2) == c,
        r.lane_u32(3) == d,
{
    v128 { e0: from_u32(a), e1: from_u32(b), e2: from_u32(c), e3: from_u32(d) }
}

/// Eight signed 16-bit lanes.
pub fn i16x8(a: i16, b: i16, c: i16, d: i16, e: i16, f: i16, g: i16, h: i16) -> (r: v128)
    ensures
        r.lane_i16(0) == a,
        r.lane_i16(1) == b,
        r.lane_i16(2) == c,
        r.lane_i16(3) == d,
        r.lane_i16(4) == e,
        r.lane_i16(5) == f,
        r.lane_i16(6) == g,
        r.lane_i16(7) == h,
{
    from_signed_halves(&[a, b, c, d, e, f, g, h])
}

/// Eight unsigned 16-bit lanes.
pub fn u16x8(a: u16, b: u16, c: u16, d: u16, e: u16, f: u16, g: u16, h: u16) -> (r: v128)
    ensures
        r.lane_u16(0) == a,
        r.lane_u16(1) == b,
        r.lane_u16(2) == c,
        r.lane_u16(3) == d,
        r.lane_u16(4) == e,
        r.lane_u16(5) == f,
        r.lane_u16(6) == g,
        r.lane_u16(7) == h,
{
    from_halves(&[a, b, c, d, e, f, g, h])
}

/// Sixteen byte lanes.
pub fn u8x16(
    a0: u8, a1: u8, a2: u8, a3: u8, a4: u8, a5: u8, a6: u8, a7: u8,
    a8: u8, a9: u8, a10: u8, a11: u8, a12: u8, a13: u8, a14: u8, a15: u8,
) -> (r: v128)
    ensures
        r.lane_u8(0) == a0,
        r.lane_u8(1) == a1,
        r.lane_u8(2) == a2,
        r.lane_u8(3) == a3,
        r.lane_u8(4) == a4,
        r.lane_u8(5) == a5,
        r.lane_u8(6) == a6,
        r.lane_u8(7) == a7,
        r.lane_u8(8) == a8,
        r.lane_u8(9) == a9,
        r.lane_u8(10) == a10,
        r.lane_u8(11) == a11,
        r.lane_u8(12) == a12,
        r.lane_u8(13) == a13,
        r.lane_u8(14) == a14,
        r.lane_u8(15) == a15,
{
    from_bytes(&[a0, a1, a2, a3, a4, a5, a6, a7, a8, a9, a10, a11, a12, a13, a14, a15])
}

/// The sixteen signed bytes of a vector.
pub fn to_signed_bytes(v: v128) -> (r: [i8; 16])
    ensures
        forall|k: int| 0 <= k < 16 ==> #[trigger] r[k] == v.lane_i8(k),
{
    let b = to_bytes(v);
    let mut r: [i8; 16] = [0; 16];
    let mut i: usize = 0;
    while i < 16
        invariant
            i <= 16,
            forall|k: int| 0 <= k < 16 ==> #[trigger] b[k] == v.lane_u8(k),
            forall|k: int| 0 <= k < i ==> #[trigger] r[k] == v.lane_i8(k),
        decreases 16 - i,
    {
        let x: u8 = b[i];
        r[i] = if x < 0x80 {
            x as i8
        } else {
            (x as i32 - 0x100) as i8
        };
        i += 1;
    }
    r
}

/// The vector with the given pair of 64-bit lanes.
fn from_i64s(lo: i64, hi: i64) -> (r: v128)
    ensures
        r.lane_i64(0) == lo,
        r.lane_i64(1) == hi,
{
    proof {
        reveal(v128::lane_i64);
    }
    let (e0, e1) = split_i64(lo);
    let (e2, e3) = split_i64(hi);
    v128 { e0, e1, e2, e3 }
}

/// The low and high words of a 64-bit integer.
fn split_i64(x: i64) -> (r: (i32, i32))
    ensures
        x == word_u32(r.0) + 0x1_0000_0000 * r.1,
        r.0 == wrap32(x as int),
{
    proof {
        reveal(wrap32);
    }
    proof {
        vstd::arithmetic::power2::lemma2_to64();
    }
    let hi: i64 = shr_i64(x, 32);
    assert(hi == x as int / 0x1_0000_0000);
    let lo: i64 = x - hi * 0x1_0000_0000;
    (from_u32(lo as u32), hi as i32)
}

/// A signed 64-bit lane.
pub fn i64x2_extract_lane<const N: usize>(v: v128) -> (r: i64)
    requires
        N < 2,
    ensures
        r == v.lane_i64(N as int),
{
    proof {
        reveal(v128::lane_i64);
    }
    if N == 0 {
        to_u32(v.e0) as i64 + v.e1 as i64 * 0x1_0000_0000
    } else {
        to_u32(v.e2) as i64 + v.e3 as i64 * 0x1_0000_0000
    }
}

/// A signed 32-bit lane.
pub fn i32x4_extract_lane<const N: usize>(v: v128) -> (r: i32)
    requires
        N < 4,
    ensures
        r == v.lane_i32(N as int),
{
    if N == 0 {
        v.e0
    } else if N == 1 {
        v.e1
    } else if N == 2 {
        v.e2
    } else {
        v.e3
    }
}

/// An unsigned 32-bit lane.
pub fn u32x4_extract_lane<const N: usize>(v: v128) -> (r: u32)
    requires
        N < 4,
    ensures
        r == v.lane_u32(N as int),
{
    to_u32(i32x4_extract_lane::<N>(v))
}

/// A signed 16-bit lane.
pub fn i16x8_extract_lane<const N: usize>(v: v128) -> (r: i16)
    requires
        N < 8,
    ensures
        r == v.lane_i16(N as int),
{
    to_signed_halves(v)[N]
}

/// A byte lane.
pub fn u8x16_extract_lane<const N: usize>(v: v128) -> (r: u8)
    requires
        N < 16,
    ensures
        r == v.lane_u8(N as int),
{
    to_bytes(v)[N]
}

/// The same signed 32-bit value in every lane.
pub fn i32x4_splat(a: i32) -> (r: v128)
    ensures
        forall|k: int| 0 <= k < 4 ==> #[trigger] r.lane_i32(k) == a,
{
    i32x4(a, a, a, a)
}

/// The same unsigned 32-bit value in every lane.
pub fn u32x4_splat(a: u32) -> (r: v128)
    ensures
        forall|k: int| 0 <= k < 4 ==> #[trigger] r.lane_u32(k) == a,
{
    u32x4(a, a, a, a)
}

/// The same signed 16-bit value in every lane.
pub fn i16x8_splat(a: i16) -> (r: v128)
    ensures
        forall|k: int| 0 <= k < 8 ==> #[trigger] r.lane_i16(k) == a,
{
    from_signed_halves(&[a; 8])
}

/// The same signed 64-bit value in both lanes.
pub fn i64x2_splat(a: i64) -> (r: v128)
    ensures
        forall|k: int| 0 <= k < 2 ==> #[trigger] r.lane_i64(k) == a,
{
    from_i64s(a, a)
}

// ---------------------------------------------------------------------------
// 32-bit lanes
// ---------------------------------------------------------------------------

/// Lane-wise wrapping sum.
pub fn i32x4_add(a: v128, b: v128) -> (r: v128)
    ensures
        forall|k: int|
            0 <= k < 4 ==> #[trigger] r.lane_i32(k) == wrap32(a.lane_i32(k) + b.lane_i32(k)),
{
    i32x4(
        wrapping_add_i32(a.e0, b.e0),
        wrapping_add_i32(a.e1, b.e1),
        wrapping_add_i32(a.e2, b.e2),
        wrapping_add_i32(a.e3, b.e3),
    )
}

/// Lane-wise wrapping difference.
pub fn i32x4_sub(a: v128, b: v128) -> (r: v128)
    ensures
        forall|k: int|
            0 <= k < 4 ==> #[trigger] r.lane_i32(k) == wrap32(a.lane_i32(k) - b.lane_i32(k)),
{
    i32x4(
        wrapping_sub_i32(a.e0, b.e0),
        wrapping_sub_i32(a.e1, b.e1),
        wrapping_sub_i32(a.e2, b.e2),
        wrapping_sub_i32(a.e3, b.e3),
    )
}

/// Lane-wise wrapping product.
pub fn i32x4_mul(a: v128, b: v128) -> (r: v128)
    ensures
        forall|k: int|
            0 <= k < 4 ==> #[trigger] r.lane_i32(k) == wrap32(a.lane_i32(k) * b.lane_i32(k)),
{
    i32x4(
        wrapping_mul_i32(a.e0, b.e0),
        wrapping_mul_i32(a.e1, b.e1),
        wrapping_mul_i32(a.e2, b.e2),
        wrapping_mul_i32(a.e3, b.e3),
    )
}

/// Lane-wise wrapping sum of unsigned lanes.
pub fn u32x4_add(a: v128, b: v128) -> (r: v128)
    ensures
        forall|k: int| 0 <= k < 4 ==> #[trigger] r.lane_u32(k) == (a.lane_u32(k) + b.lane_u32(k))
            % 0x1_0000_0000,
{
    proof {
        reveal(wrap32);
    }
    i32x4_add(a, b)
}

/// The larger of two words.
fn max_word(a: i32, b: i32) -> (r: i32)
    ensures
        r == max_int(a as int, b as int),
{
    if a >= b {
        a
    } else {
        b
    }
}

/// The smaller of two words.
fn min_word(a: i32, b: i32) -> (r: i32)
    ensures
        r == min_int(a as int, b as int),
{
    if a <= b {
        a
    } else {
        b
    }
}

/// All ones where the condition holds, and zero where it does not.
pub open spec fn mask(b: bool) -> int {
    if b {
        -1
    } else {
        0
    }
}

/// The word of a comparison.
fn mask_word(b: bool) -> (r: i32)
    ensures
        r == mask(b),
{
    if b {
        -1
    } else {
        0
    }
}

/// Lane-wise signed maximum.
pub fn i32x4_max(a: v128, b: v128) -> (r: v128)
    ensures
        forall|k: int|
            0 <= k < 4 ==> #[trigger] r.lane_i32(k)
                == max_int(a.lane_i32(k) as int, b.lane_i32(k) as int),
{
    i32x4(max_word(a.e0, b.e0), max_word(a.e1, b.e1), max_word(a.e2, b.e2), max_word(a.e3, b.e3))
}

/// Lane-wise signed minimum.
pub fn i32x4_min(a: v128, b: v128) -> (r: v128)
    ensures
        forall|k: int|
            0 <= k < 4 ==> #[trigger] r.lane_i32(k)
                == min_int(a.lane_i32(k) as int, b.lane_i32(k) as int),
{
    i32x4(min_word(a.e0, b.e0), min_word(a.e1, b.e1), min_word(a.e2, b.e2), min_word(a.e3, b.e3))
}

/// Lane-wise signed `<`.
pub fn i32x4_lt(a: v128, b: v128) -> (r: v128)
    ensures
        forall|k: int|
            0 <= k < 4 ==> #[trigger] r.lane_i32(k) == mask(a.lane_i32(k) < b.lane_i32(k)),
{
    i32x4(
        mask_word(a.e0 < b.e0),
        mask_word(a.e1 < b.e1),
        mask_word(a.e2 < b.e2),
        mask_word(a.e3 < b.e3),
    )
}

/// Lane-wise signed `<=`.
pub fn i32x4_le(a: v128, b: v128) -> (r: v128)
    ensures
        forall|k: int|
            0 <= k < 4 ==> #[trigger] r.lane_i32(k) == mask(a.lane_i32(k) <= b.lane_i32(k)),
{
    i32x4(
        mask_word(a.e0 <= b.e0),
        mask_word(a.e1 <= b.e1),
        mask_word(a.e2 <= b.e2),
        mask_word(a.e3 <= b.e3),
    )
}

/// Lane-wise `!=`.
pub fn i32x4_ne(a: v128, b: v128) -> (r: v128)
    ensures
        forall|k: int|
            0 <= k < 4 ==> #[trigger] r.lane_i32(k) == mask(a.lane_i32(k) != b.lane_i32(k)),
{
    i32x4(
        mask_word(a.e0 != b.e0),
        mask_word(a.e1 != b.e1),
        mask_word(a.e2 != b.e2),
        mask_word(a.e3 != b.e3),
    )
}

/// Lane-wise absolute value; the most negative lane keeps its bits.
pub fn i32x4_abs(a: v128) -> (r: v128)
    ensures
        forall|k: int| 0 <= k < 4 ==> #[trigger] r.lane_i32(k) == wrap32(
            abs_int(a.lane_i32(k) as int),
        ),
{
    i32x4(
        wrapping_abs_i32(a.e0),
        wrapping_abs_i32(a.e1),
        wrapping_abs_i32(a.e2),
        wrapping_abs_i32(a.e3),
    )
}

/// Lane-wise wrapping negation.
pub fn i32x4_neg(a: v128) -> (r: v128)
    ensures
        forall|k: int| 0 <= k < 4 ==> #[trigger] r.lane_i32(k) == wrap32(-a.lane_i32(k)),
{
    i32x4(
        wrapping_sub_i32(0, a.e0),
        wrapping_sub_i32(0, a.e1),
        wrapping_sub_i32(0, a.e2),
        wrapping_sub_i32(0, a.e3),
    )
}

/// Lane-wise arithmetic right shift; the amount counts modulo the lane width.
pub fn i32x4_shr(a: v128, amt: u32) -> (r: v128)
    ensures
        forall|k: int| 0 <= k < 4 ==> #[trigger] r.lane_i32(k) == shr(
            a.lane_i32(k) as int,
            amt as int % 32,
        ),
{
    let s: u32 = amt % 32;
    i32x4(shr_i32(a.e0, s), shr_i32(a.e1, s), shr_i32(a.e2, s), shr_i32(a.e3, s))
}

/// A word shifted left, losing the bits that leave it.
fn shl_word(x: i32, s: u32) -> (r: i32)
    requires
        s < 32,
    ensures
        r == wrap32(x * pow2(s as nat)),
{
    let p: u32 = 1u32 << s;
    proof {
        vstd::arithmetic::power2::lemma2_to64();
        if s < 31 {
            vstd::arithmetic::power2::lemma_pow2_strictly_increases(s as nat, 31);
        }
        vstd::bits::lemma_u32_shl_is_mul(1u32, s);
        assert(1 * pow2(s as nat) == pow2(s as nat));
        assert(-0x4000_0000_0000_0000 <= x * p <= 0x4000_0000_0000_0000) by (nonlinear_arith)
            requires
                -0x8000_0000 <= x <= 0x7fff_ffff,
                0 <= p <= 0x8000_0000,
        ;
    }
    wrap_to_i32(x as i64 * p as i64)
}

/// Lane-wise left shift; the amount counts modulo the lane width.
pub fn i32x4_shl(a: v128, amt: u32) -> (r: v128)
    ensures
        forall|k: int| 0 <= k < 4 ==> #[trigger] r.lane_i32(k) == wrap32(
            a.lane_i32(k) * pow2((amt as int % 32) as nat),
        ),
{
    let s: u32 = amt % 32;
    i32x4(shl_word(a.e0, s), shl_word(a.e1, s), shl_word(a.e2, s), shl_word(a.e3, s))
}

/// Lane `i` of the eight 32-bit lanes of two vectors, the lanes of `a` first.
pub open spec fn pair_lane(a: v128, b: v128, i: int) -> i32 {
    if i < 4 {
        a.lane_i32(i)
    } else {
        b.lane_i32(i - 4)
    }
}

/// One 32-bit lane out of two vectors.
fn pick_lane(a: v128, b: v128, i: usize) -> (r: i32)
    requires
        i < 8,
    ensures
        r == pair_lane(a, b, i as int),
{
    let v = if i < 4 {
        a
    } else {
        b
    };
    let j: usize = i % 4;
    if j == 0 {
        v.e0
    } else if j == 1 {
        v.e1
    } else if j == 2 {
        v.e2
    } else {
        v.e3
    }
}

/// Four 32-bit lanes chosen out of two vectors.
pub fn i32x4_shuffle<const I0: usize, const I1: usize, const I2: usize, const I3: usize>(
    a: v128,
    b: v128,
) -> (r: v128)
    requires
        I0 < 8,
        I1 < 8,
        I2 < 8,
        I3 < 8,
    ensures
        r.lane_i32(0) == pair_lane(a, b, I0 as int),
        r.lane_i32(1) == pair_lane(a, b, I1 as int),
        r.lane_i32(2) == pair_lane(a, b, I2 as int),
        r.lane_i32(3) == pair_lane(a, b, I3 as int),
{
    i32x4(pick_lane(a, b, I0), pick_lane(a, b, I1), pick_lane(a, b, I2), pick_lane(a, b, I3))
}

// ---------------------------------------------------------------------------
// 64-bit lanes
// ---------------------------------------------------------------------------

/// Full products of the two low 32-bit lanes.
pub fn i64x2_extmul_low_i32x4(a: v128, b: v128) -> (r: v128)
    ensures
        r.lane_i64(0) == a.lane_i32(0) * b.lane_i32(0),
        r.lane_i64(1) == a.lane_i32(1) * b.lane_i32(1),
{
    proof {
        lemma_mul_i32_bounds(a.e0, b.e0);
        lemma_mul_i32_bounds(a.e1, b.e1);
    }
    from_i64s(a.e0 as i64 * b.e0 as i64, a.e1 as i64 * b.e1 as i64)
}

/// Full products of the two high 32-bit lanes.
pub fn i64x2_extmul_high_i32x4(a: v128, b: v128) -> (r: v128)
    ensures
        r.lane_i64(0) == a.lane_i32(2) * b.lane_i32(2),
        r.lane_i64(1) == a.lane_i32(3) * b.lane_i32(3),
{
    proof {
        lemma_mul_i32_bounds(a.e2, b.e2);
        lemma_mul_i32_bounds(a.e3, b.e3);
    }
    from_i64s(a.e2 as i64 * b.e2 as i64, a.e3 as i64 * b.e3 as i64)
}

/// Lane-wise wrapping sum of 64-bit lanes.
pub fn i64x2_add(a: v128, b: v128) -> (r: v128)
    ensures
        forall|k: int| 0 <= k < 2 ==> #[trigger] r.lane_i64(k) == wrap64(
            a.lane_i64(k) + b.lane_i64(k),
        ),
{
    from_i64s(
        wrapping_add_i64(i64x2_extract_lane::<0>(a), i64x2_extract_lane::<0>(b)),
        wrapping_add_i64(i64x2_extract_lane::<1>(a), i64x2_extract_lane::<1>(b)),
    )
}

/// Lane-wise arithmetic right shift of 64-bit lanes; the amount counts modulo the lane width.
pub fn i64x2_shr(a: v128, amt: u32) -> (r: v128)
    ensures
        forall|k: int| 0 <= k < 2 ==> #[trigger] r.lane_i64(k) == shr(
            a.lane_i64(k),
            amt as int % 64,
        ),
{
    let s: u32 = amt % 64;
    from_i64s(shr_i64(i64x2_extract_lane::<0>(a), s), shr_i64(i64x2_extract_lane::<1>(a), s))
}

// ---------------------------------------------------------------------------
// Widening and narrowing
// ---------------------------------------------------------------------------

/// The four low signed 16-bit lanes, sign-extended.
pub fn i32x4_extend_low_i16x8(v: v128) -> (r: v128)
    ensures
        forall|k: int| 0 <= k < 4 ==> #[trigger] r.lane_i32(k) == v.lane_i16(k),
{
    let h = to_signed_halves(v);
    i32x4(h[0] as i32, h[1] as i32, h[2] as i32, h[3] as i32)
}

/// The four high signed 16-bit lanes, sign-extended.
pub fn i32x4_extend_high_i16x8(v: v128) -> (r: v128)
    ensures
        forall|k: int| 0 <= k < 4 ==> #[trigger] r.lane_i32(k) == v.lane_i16(k + 4),
{
    let h = to_signed_halves(v);
    i32x4(h[4] as i32, h[5] as i32, h[6] as i32, h[7] as i32)
}

/// The four low unsigned 16-bit lanes, zero-extended.
pub fn u32x4_extend_low_u16x8(v: v128) -> (r: v128)
    ensures
        forall|k: int| 0 <= k < 4 ==> #[trigger] r.lane_i32(k) == v.lane_u16(k),
{
    let h = to_halves(v);
    i32x4(h[0] as i32, h[1] as i32, h[2] as i32, h[3] as i32)
}

/// The four high unsigned 16-bit lanes, zero-extended.
pub fn u32x4_extend_high_u16x8(v: v128) -> (r: v128)
    ensures
        forall|k: int| 0 <= k < 4 ==> #[trigger] r.lane_i32(k) == v.lane_u16(k + 4),
{
    let h = to_halves(v);
    i32x4(h[4] as i32, h[5] as i32, h[6] as i32, h[7] as i32)
}

/// The eight low bytes, zero-extended to 16 bits.
pub fn u16x8_extend_low_u8x16(v: v128) -> (r: v128)
    ensures
        forall|k: int| 0 <= k < 8 ==> #[trigger] r.lane_u16(k) == v.lane_u8(k),
{
    let b = to_bytes(v);
    u16x8(
        b[0] as u16,
        b[1] as u16,
        b[2] as u16,
        b[3] as u16,
        b[4] as u16,
        b[5] as u16,
        b[6] as u16,
        b[7] as u16,
    )
}

/// The eight high bytes, zero-extended to 16 bits.
pub fn u16x8_extend_high_u8x16(v: v128) -> (r: v128)
    ensures
        forall|k: int| 0 <= k < 8 ==> #[trigger] r.lane_u16(k) == v.lane_u8(k + 8),
{
    let b = to_bytes(v);
    u16x8(
        b[8] as u16,
        b[9] as u16,
        b[10] as u16,
        b[11] as u16,
        b[12] as u16,
        b[13] as u16,
        b[14] as u16,
        b[15] as u16,
    )
}

/// The signed 32-bit lanes of `a`, then those of `b`, saturated to signed 16 bits.
pub fn i16x8_narrow_i32x4(a: v128, b: v128) -> (r: v128)
    ensures
        forall|k: int|
            0 <= k < 8 ==> #[trigger] r.lane_i16(k) == clamp_int(
                pair_lane(a, b, k) as int,
                -0x8000,
                0x7fff,
            ),
{
    let mut h: [i16; 8] = [0; 8];
    let mut i: usize = 0;
    while i < 8
        invariant
            i <= 8,
            forall|k: int|
                0 <= k < i ==> #[trigger] h[k] == clamp_int(
                    pair_lane(a, b, k) as int,
                    -0x8000,
                    0x7fff,
                ),
        decreases 8 - i,
    {
        h[i] = crate::math::clamp(pick_lane(a, b, i), -0x8000, 0x7fff) as i16;
        i += 1;
    }
    from_signed_halves(&h)
}

// ---------------------------------------------------------------------------
// 16-bit lanes
// ---------------------------------------------------------------------------

/// Lane-wise wrapping sum of 16-bit lanes.
pub fn i16x8_add(a: v128, b: v128) -> (r: v128)
    ensures
        forall|k: int|
            0 <= k < 8 ==> #[trigger] r.lane_i16(k) == wrap16(a.lane_i16(k) + b.lane_i16(k)),
{
    let x = to_signed_halves(a);
    let y = to_signed_halves(b);
    let mut h: [i16; 8] = [0; 8];
    let mut i: usize = 0;
    while i < 8
        invariant
            i <= 8,
            forall|k: int| 0 <= k < 8 ==> #[trigger] x[k] == a.lane_i16(k),
            forall|k: int| 0 <= k < 8 ==> #[trigger] y[k] == b.lane_i16(k),
            forall|k: int| 0 <= k < i ==> #[trigger] h[k] == wrap16(a.lane_i16(k) + b.lane_i16(k)),
        decreases 8 - i,
    {
        h[i] = wrap_to_i16(x[i] as i32 + y[i] as i32);
        i += 1;
    }
    from_signed_halves(&h)
}

/// Lane-wise unsigned maximum of 16-bit lanes.
pub fn u16x8_max(a: v128, b: v128) -> (r: v128)
    ensures
        forall|k: int|
            0 <= k < 8 ==> #[trigger] r.lane_u16(k) == max_int(a.lane_u16(k), b.lane_u16(k)),
{
    let x = to_halves(a);
    let y = to_halves(b);
    let mut h: [u16; 8] = [0; 8];
    let mut i: usize = 0;
    while i < 8
        invariant
            i <= 8,
            forall|k: int| 0 <= k < 8 ==> #[trigger] x[k] == a.lane_u16(k),
            forall|k: int| 0 <= k < 8 ==> #[trigger] y[k] == b.lane_u16(k),
            forall|k: int| 0 <= k < i ==> #[trigger] h[k] == max_int(a.lane_u16(k), b.lane_u16(k)),
        decreases 8 - i,
    {
        h[i] = if x[i] >= y[i] { x[i] } else { y[i] };
        i += 1;
    }
    from_halves(&h)
}

/// Lane-wise unsigned minimum of 16-bit lanes.
pub fn u16x8_min(a: v128, b: v128) -> (r: v128)
    ensures
        forall|k: int|
            0 <= k < 8 ==> #[trigger] r.lane_u16(k) == min_int(a.lane_u16(k), b.lane_u16(k)),
{
    let x = to_halves(a);
    let y = to_halves(b);
    let mut h: [u16; 8] = [0; 8];
    let mut i: usize = 0;
    while i < 8
        invariant
            i <= 8,
            forall|k: int| 0 <= k < 8 ==> #[trigger] x[k] == a.lane_u16(k),
            forall|k: int| 0 <= k < 8 ==> #[trigger] y[k] == b.lane_u16(k),
            forall|k: int| 0 <= k < i ==> #[trigger] h[k] == min_int(a.lane_u16(k), b.lane_u16(k)),
        decreases 8 - i,
    {
        h[i] = if x[i] <= y[i] { x[i] } else { y[i] };
        i += 1;
    }
    from_halves(&h)
}

/// Lane-wise wrapping difference of unsigned 16-bit lanes.
pub fn u16x8_sub(a: v128, b: v128) -> (r: v128)
    ensures
        forall|k: int|
            0 <= k < 8 ==> #[trigger] r.lane_u16(k) == (a.lane_u16(k) - b.lane_u16(k)) % 0x1_0000,
{
    let x = to_halves(a);
    let y = to_halves(b);
    let mut h: [u16; 8] = [0; 8];
    let mut i: usize = 0;
    while i < 8
        invariant
            i <= 8,
            forall|k: int| 0 <= k < 8 ==> #[trigger] x[k] == a.lane_u16(k),
            forall|k: int| 0 <= k < 8 ==> #[trigger] y[k] == b.lane_u16(k),
            forall|k: int|
                0 <= k < i ==> #[trigger] h[k] == (a.lane_u16(k) - b.lane_u16(k)) % 0x1_0000,
        decreases 8 - i,
    {
        h[i] = x[i].wrapping_sub(y[i]);
        i += 1;
    }
    from_halves(&h)
}

/// Lane-wise arithmetic right shift of 16-bit lanes; the amount counts modulo the lane width.
pub fn i16x8_shr(a: v128, amt: u32) -> (r: v128)
    ensures
        forall|k: int| 0 <= k < 8 ==> #[trigger] r.lane_i16(k) == shr(
            a.lane_i16(k),
            amt as int % 16,
        ),
{
    let s: u32 = amt % 16;
    let x = to_signed_halves(a);
    let mut h: [i16; 8] = [0; 8];
    let mut i: usize = 0;
    while i < 8
        invariant
            i <= 8,
            s == amt % 16,
            forall|k: int| 0 <= k < 8 ==> #[trigger] x[k] == a.lane_i16(k),
            forall|k: int| 0 <= k < i ==> #[trigger] h[k] == shr(a.lane_i16(k), s as int),
        decreases 8 - i,
    {
        proof {
            lemma_shr_bounds(x[i as int] as int, s as int);
        }
        h[i] = shr_i32(x[i] as i32, s) as i16;
        i += 1;
    }
    from_signed_halves(&h)
}

// ---------------------------------------------------------------------------
// Byte lanes
// ---------------------------------------------------------------------------

/// Lane-wise unsigned maximum of bytes.
pub fn u8x16_max(a: v128, b: v128) -> (r: v128)
    ensures
        forall|k: int|
            0 <= k < 16 ==> #[trigger] r.lane_u8(k) == max_int(a.lane_u8(k), b.lane_u8(k)),
{
    let x = to_bytes(a);
    let y = to_bytes(b);
    let mut c: [u8; 16] = [0; 16];
    let mut i: usize = 0;
    while i < 16
        invariant
            i <= 16,
            forall|k: int| 0 <= k < 16 ==> #[trigger] x[k] == a.lane_u8(k),
            forall|k: int| 0 <= k < 16 ==> #[trigger] y[k] == b.lane_u8(k),
            forall|k: int| 0 <= k < i ==> #[trigger] c[k] == max_int(a.lane_u8(k), b.lane_u8(k)),
        decreases 16 - i,
    {
        c[i] = if x[i] >= y[i] { x[i] } else { y[i] };
        i += 1;
    }
    from_bytes(&c)
}

/// Lane-wise unsigned minimum of bytes.
pub fn u8x16_min(a: v128, b: v128) -> (r: v128)
    ensures
        forall|k: int|
            0 <= k < 16 ==> #[trigger] r.lane_u8(k) == min_int(a.lane_u8(k), b.lane_u8(k)),
{
    let x = to_bytes(a);
    let y = to_bytes(b);
    let mut c: [u8; 16] = [0; 16];
    let mut i: usize = 0;
    while i < 16
        invariant
            i <= 16,
            forall|k: int| 0 <= k < 16 ==> #[trigger] x[k] == a.lane_u8(k),
            forall|k: int| 0 <= k < 16 ==> #[trigger] y[k] == b.lane_u8(k),
            forall|k: int| 0 <= k < i ==> #[trigger] c[k] == min_int(a.lane_u8(k), b.lane_u8(k)),
        decreases 16 - i,
    {
        c[i] = if x[i] <= y[i] { x[i] } else { y[i] };
        i += 1;
    }
    from_bytes(&c)
}

/// Lane-wise wrapping difference of bytes.
pub fn u8x16_sub(a: v128, b: v128) -> (r: v128)
    ensures
        forall|k: int|
            0 <= k < 16 ==> #[trigger] r.lane_u8(k) == (a.lane_u8(k) - b.lane_u8(k)) % 0x100,
{
    let x = to_bytes(a);
    let y = to_bytes(b);
    let mut c: [u8; 16] = [0; 16];
    let mut i: usize = 0;
    while i < 16
        invariant
            i <= 16,
            forall|k: int| 0 <= k < 16 ==> #[trigger] x[k] == a.lane_u8(k),
            forall|k: int| 0 <= k < 16 ==> #[trigger] y[k] == b.lane_u8(k),
            forall|k: int| 0 <= k < i ==> #[trigger] c[k] == (a.lane_u8(k) - b.lane_u8(k)) % 0x100,
        decreases 16 - i,
    {
        c[i] = x[i].wrapping_sub(y[i]);
        i += 1;
    }
    from_bytes(&c)
}

// ---------------------------------------------------------------------------
// Bitwise operations
// ---------------------------------------------------------------------------

/// Bitwise conjunction.
pub fn v128_and(a: v128, b: v128) -> (r: v128)
    ensures
        forall|k: int| 0 <= k < 4 ==> #[trigger] r.lane_i32(k) == a.lane_i32(k) & b.lane_i32(k),
{
    i32x4(a.e0 & b.e0, a.e1 & b.e1, a.e2 & b.e2, a.e3 & b.e3)
}

/// Bitwise complement.
pub fn v128_not(a: v128) -> (r: v128)
    ensures
        forall|k: int| 0 <= k < 4 ==> #[trigger] r.lane_i32(k) == !a.lane_i32(k),
{
    i32x4(!a.e0, !a.e1, !a.e2, !a.e3)
}

/// The bits of `x` where the bit of `m` is set, and the bits of `y` where it is clear.
pub open spec fn select_bits(x: i32, y: i32, m: i32) -> i32 {
    (x & m) | (y & !m)
}

/// Bits of `a` where `c` is set, and bits of `b` where it is clear.
pub fn v128_bitselect(a: v128, b: v128, c: v128) -> (r: v128)
    ensures
        forall|k: int| 0 <= k < 4 ==> #[trigger] r.lane_i32(k) == select_bits(
            a.lane_i32(k),
            b.lane_i32(k),
            c.lane_i32(k),
        ),
{
    i32x4(
        (a.e0 & c.e0) | (b.e0 & !c.e0),
        (a.e1 & c.e1) | (b.e1 & !c.e1),
        (a.e2 & c.e2) | (b.e2 & !c.e2),
        (a.e3 & c.e3) | (b.e3 & !c.e3),
    )
}

/// A full mask selects whole words.
pub proof fn lemma_select_bits(x: i32, y: i32)
    ensures
        select_bits(x, y, -1i32) == x,
        select_bits(x, y, 0i32) == y,
{
    assert((x & -1i32) | (y & !(-1i32)) == x) by (bit_vector);
    assert((x & 0i32) | (y & !0i32) == y) by (bit_vector);
}

/// The unsigned reading of a word has its bits.
proof fn lemma_word_bits(x: i32)
    ensures
        word_u32(x) == x as u32,
{
    assert(x as u32 == if x < 0 {
        x + 0x1_0000_0000
    } else {
        x as int
    }) by (bit_vector);
}

/// Selected words are selected bit by bit, also in their unsigned readings.
proof fn lemma_select_word(x: i32, y: i32, m: i32)
    ensures
        word_u32(select_bits(x, y, m)) == ((x as u32) & (m as u32)) | ((y as u32) & !(m as u32)),
{
    lemma_word_bits(select_bits(x, y, m));
    assert((((x & m) | (y & !m)) as u32) == ((x as u32) & (m as u32)) | ((y as u32) & !(m as u32)))
        by (bit_vector);
}

/// A mask that is full or clear in a half-word selects that half-word.
pub proof fn lemma_select_halves(x: i32, y: i32, m: i32, j: int)
    requires
        0 <= j < 2,
    ensures
        half_of(word_u32(m), j) == 0xffff ==> half_of(word_u32(select_bits(x, y, m)), j) == half_of(
            word_u32(x),
            j,
        ),
        half_of(word_u32(m), j) == 0 ==> half_of(word_u32(select_bits(x, y, m)), j) == half_of(
            word_u32(y),
            j,
        ),
{
    lemma_word_bits(x);
    lemma_word_bits(y);
    lemma_word_bits(m);
    lemma_select_word(x, y, m);
    let a = x as u32;
    let b = y as u32;
    let c = m as u32;
    assert((c % 0x1_0000 == 0xffff ==> ((a & c) | (b & !c)) % 0x1_0000 == a % 0x1_0000) && (c
        % 0x1_0000 == 0 ==> ((a & c) | (b & !c)) % 0x1_0000 == b % 0x1_0000) && (c / 0x1_0000
        == 0xffff ==> ((a & c) | (b & !c)) / 0x1_0000 == a / 0x1_0000) && (c / 0x1_0000 == 0 ==> ((a
        & c) | (b & !c)) / 0x1_0000 == b / 0x1_0000)) by (bit_vector);
}

/// A mask that is full or clear in a byte selects that byte.
pub proof fn lemma_select_bytes(x: i32, y: i32, m: i32, j: int)
    requires
        0 <= j < 4,
    ensures
        byte_of(word_u32(m), j) == 0xff ==> byte_of(word_u32(select_bits(x, y, m)), j) == byte_of(
            word_u32(x),
            j,
        ),
        byte_of(word_u32(m), j) == 0 ==> byte_of(word_u32(select_bits(x, y, m)), j) == byte_of(
            word_u32(y),
            j,
        ),
{
    lemma_word_bits(x);
    lemma_word_bits(y);
    lemma_word_bits(m);
    lemma_select_word(x, y, m);
    let a = x as u32;
    let b = y as u32;
    let c = m as u32;
    assert((c % 0x100 == 0xff ==> ((a & c) | (b & !c)) % 0x100 == a % 0x100) && (c % 0x100 == 0
        ==> ((a & c) | (b & !c)) % 0x100 == b % 0x100)) by (bit_vector);
    assert(((c / 0x100) % 0x100 == 0xff ==> (((a & c) | (b & !c)) / 0x100) % 0x100 == (a / 0x100)
        % 0x100) && ((c / 0x100) % 0x100 == 0 ==> (((a & c) | (b & !c)) / 0x100) % 0x100 == (b
        / 0x100) % 0x100)) by (bit_vector);
    assert(((c / 0x1_0000) % 0x100 == 0xff ==> (((a & c) | (b & !c)) / 0x1_0000) % 0x100 == (a
        / 0x1_0000) % 0x100) && ((c / 0x1_0000) % 0x100 == 0 ==> (((a & c) | (b & !c)) / 0x1_0000)
        % 0x100 == (b / 0x1_0000) % 0x100)) by (bit_vector);
    assert((c / 0x100_0000 == 0xff ==> ((a & c) | (b & !c)) / 0x100_0000 == a / 0x100_0000) && (c
        / 0x100_0000 == 0 ==> ((a & c) | (b & !c)) / 0x100_0000 == b / 0x100_0000))
        by (bit_vector);
}

// ---------------------------------------------------------------------------
// Loads
// ---------------------------------------------------------------------------

/// Eight bytes, beginning at `src[at]`, in the low half of a vector whose high half is zero.
pub fn load_u8x8_zero(src: &[u8], at: usize) -> (r: v128)
    requires
        at + 8 <= src@.len(),
    ensures
        forall|k: int| 0 <= k < 8 ==> #[trigger] r.lane_u8(k) == src@[at + k],
        forall|k: int| 8 <= k < 16 ==> #[trigger] r.lane_u8(k) == 0,
{
    u8x16(
        src[at],
        src[at + 1],
        src[at + 2],
        src[at + 3],
        src[at + 4],
        src[at + 5],
        src[at + 6],
        src[at + 7],
        0, 0, 0, 0, 0, 0, 0, 0,
    )
}

/// Four bytes, beginning at `src[at]`, in the low word of a vector that is zero elsewhere.
pub fn load_u8x4_zero(src: &[u8], at: usize) -> (r: v128)
    requires
        at + 4 <= src@.len(),
    ensures
        forall|k: int| 0 <= k < 4 ==> #[trigger] r.lane_u8(k) == src@[at + k],
        forall|k: int| 4 <= k < 16 ==> #[trigger] r.lane_u8(k) == 0,
{
    u8x16(
        src[at],
        src[at + 1],
        src[at + 2],
        src[at + 3],
        0, 0, 0, 0, 0, 0, 0, 0, 0, 0, 0, 0,
    )
}

} // verus!
