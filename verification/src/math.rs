//! Integer arithmetic shared by the kernels: wrapping, floor shifts, rounding and clamping.

use vstd::arithmetic::div_mod::lemma_fundamental_div_mod;
use vstd::arithmetic::div_mod::{lemma_fundamental_div_mod_converse, lemma_mod_multiples_vanish};
use vstd::arithmetic::power2::pow2;
use vstd::arithmetic::power2::{lemma2_to64, lemma_pow2_adds, lemma_pow2_pos};
use vstd::bits::{lemma_u32_shr_is_div, lemma_u64_shr_is_div};
use vstd::prelude::*;

verus! {

/// `x` reduced to the range of a signed 32-bit integer, as two's complement arithmetic wraps it.
#[verifier::opaque]
pub open spec fn wrap32(x: int) -> int {
    (x + 0x8000_0000) % 0x1_0000_0000 - 0x8000_0000
}

/// `x` reduced to the range of a signed 16-bit integer.
#[verifier::opaque]
pub open spec fn wrap16(x: int) -> int {
    (x + 0x8000) % 0x1_0000 - 0x8000
}

/// `x` reduced to the range of a signed 64-bit integer.
#[verifier::opaque]
pub open spec fn wrap64(x: int) -> int {
    (x + 0x8000_0000_0000_0000) % 0x1_0000_0000_0000_0000 - 0x8000_0000_0000_0000
}

/// A number in range is its own reduction, and every reduction is in range.
pub broadcast proof fn lemma_wrap32(x: int)
    ensures
        -0x8000_0000 <= x <= 0x7fff_ffff ==> wrap32(x) == x,
        -0x8000_0000 <= #[trigger] wrap32(x) <= 0x7fff_ffff,
{
    reveal(wrap32);
}

/// A number in range is its own reduction, and every reduction is in range.
pub broadcast proof fn lemma_wrap16(x: int)
    ensures
        -0x8000 <= x <= 0x7fff ==> wrap16(x) == x,
        -0x8000 <= #[trigger] wrap16(x) <= 0x7fff,
{
    reveal(wrap16);
}

/// A number in range is its own reduction, and every reduction is in range.
pub broadcast proof fn lemma_wrap64(x: int)
    ensures
        -0x8000_0000_0000_0000 <= x <= 0x7fff_ffff_ffff_ffff ==> wrap64(x) == x,
        -0x8000_0000_0000_0000 <= #[trigger] wrap64(x) <= 0x7fff_ffff_ffff_ffff,
{
    reveal(wrap64);
}

/// What is known of every reduction.
pub broadcast group group_wrap {
    lemma_wrap32,
    lemma_wrap16,
    lemma_wrap64,
}

/// Reducing the terms of a sum first does not change the reduction of the sum.
pub proof fn lemma_wrap32_add(x: int, y: int)
    ensures
        wrap32(wrap32(x) + y) == wrap32(x + y),
        wrap32(x + wrap32(y)) == wrap32(x + y),
        wrap32(wrap32(x) + wrap32(y)) == wrap32(x + y),
{
    let a = lemma_wrap32_multiple(x);
    let b = lemma_wrap32_multiple(y);
    lemma_wrap32_periodic(x + y, -a);
    lemma_wrap32_periodic(x + y, -b);
    lemma_wrap32_periodic(x + y, -a - b);
    assert(wrap32(x) + y == x + y + 0x1_0000_0000 * (-a));
    assert(x + wrap32(y) == x + y + 0x1_0000_0000 * (-b));
    assert(wrap32(x) + wrap32(y) == x + y + 0x1_0000_0000 * (-a - b));
}

/// Reducing the terms of a difference first does not change the reduction of the difference.
pub proof fn lemma_wrap32_sub(x: int, y: int)
    ensures
        wrap32(wrap32(x) - wrap32(y)) == wrap32(x - y),
{
    let a = lemma_wrap32_multiple(x);
    let b = lemma_wrap32_multiple(y);
    assert(wrap32(x) - wrap32(y) == x - y + 0x1_0000_0000 * (b - a));
    lemma_wrap32_periodic(x - y, b - a);
}

/// A reduction differs from its argument by a multiple of the range.
pub proof fn lemma_wrap32_multiple(x: int) -> (q: int)
    ensures
        wrap32(x) == x - 0x1_0000_0000 * q,
{
    reveal(wrap32);
    lemma_fundamental_div_mod(x + 0x8000_0000, 0x1_0000_0000);
    (x + 0x8000_0000) / 0x1_0000_0000
}

/// A multiple of the range does not change a reduction.
pub proof fn lemma_wrap32_periodic(x: int, k: int)
    ensures
        wrap32(x + 0x1_0000_0000 * k) == wrap32(x),
{
    reveal(wrap32);
    lemma_mod_multiples_vanish(k, x + 0x8000_0000, 0x1_0000_0000);
    assert(x + 0x1_0000_0000 * k + 0x8000_0000 == 0x1_0000_0000 * k + (x + 0x8000_0000));
}

/// `x` shifted right by `s` bits, rounding towards negative infinity.
pub open spec fn shr(x: int, s: int) -> int {
    x / (pow2(s as nat) as int)
}

/// `x` shifted right by `s` bits, rounding half up.
pub open spec fn round_shr(x: int, s: int) -> int {
    shr(x + pow2(s as nat) as int / 2, s)
}

/// `x` brought into `[lo, hi]`.
pub open spec fn clamp_int(x: int, lo: int, hi: int) -> int {
    if x < lo {
        lo
    } else if x > hi {
        hi
    } else {
        x
    }
}

/// The smaller of two integers.
pub open spec fn min_int(x: int, y: int) -> int {
    if x <= y {
        x
    } else {
        y
    }
}

/// The larger of two integers.
pub open spec fn max_int(x: int, y: int) -> int {
    if x >= y {
        x
    } else {
        y
    }
}

/// The absolute value of an integer.
pub open spec fn abs_int(x: int) -> int {
    if x < 0 {
        -x
    } else {
        x
    }
}

/// A negative number shifts right as the complement of its complement does.
proof fn lemma_floor_div_complement(y: int, d: int)
    requires
        d > 0,
        y >= 0,
    ensures
        (-1 - y) / d == -1 - y / d,
{
    lemma_fundamental_div_mod(y, d);
    let q = y / d;
    let r = y % d;
    assert(-1 - y == (-1 - q) * d + (d - 1 - r)) by (nonlinear_arith)
        requires
            y == d * q + r,
    ;
    lemma_fundamental_div_mod_converse(-1 - y, d, -1 - q, d - 1 - r);
}

/// The right shift of a signed 32-bit integer is a division that rounds down.
pub proof fn lemma_shr_i32(x: i32, s: u32)
    requires
        s < 32,
    ensures
        (x >> s) == shr(x as int, s as int),
{
    lemma_pow2_pos(s as nat);
    if x >= 0 {
        let y = x as u32;
        assert((x >> s) == (y >> s)) by (bit_vector)
            requires
                x >= 0,
                y == x as u32,
                s < 32,
        ;
        lemma_u32_shr_is_div(y, s);
    } else {
        let y = (-1 - x) as u32;
        assert((x >> s) == -1 - (y >> s)) by (bit_vector)
            requires
                x < 0,
                y == (-1 - x) as u32,
                s < 32,
        ;
        lemma_u32_shr_is_div(y, s);
        lemma_floor_div_complement(y as int, pow2(s as nat) as int);
    }
}

/// The right shift of a signed 64-bit integer is a division that rounds down.
pub proof fn lemma_shr_i64(x: i64, s: u32)
    requires
        s < 64,
    ensures
        (x >> s) == shr(x as int, s as int),
{
    lemma_pow2_pos(s as nat);
    let t = s as u64;
    if x >= 0 {
        let y = x as u64;
        assert((x >> s) == (y >> t)) by (bit_vector)
            requires
                x >= 0,
                y == x as u64,
                t == s,
                s < 64,
        ;
        lemma_u64_shr_is_div(y, t);
    } else {
        let y = (-1 - x) as u64;
        assert((x >> s) == -1 - (y >> t)) by (bit_vector)
            requires
                x < 0,
                y == (-1 - x) as u64,
                t == s,
                s < 64,
        ;
        lemma_u64_shr_is_div(y, t);
        lemma_floor_div_complement(y as int, pow2(s as nat) as int);
    }
}

/// The bounds of a floor shift.
pub proof fn lemma_shr_bounds(x: int, s: int)
    requires
        s >= 0,
    ensures
        x >= 0 ==> 0 <= shr(x, s) <= x,
        x < 0 ==> x <= shr(x, s) < 0,
{
    lemma_pow2_pos(s as nat);
    let d = pow2(s as nat) as int;
    lemma_fundamental_div_mod(x, d);
    let q = x / d;
    let r = x % d;
    assert(x >= 0 ==> 0 <= q <= x) by (nonlinear_arith)
        requires
            x == d * q + r,
            0 <= r < d,
            d >= 1,
    ;
    assert(x < 0 ==> x <= q < 0) by (nonlinear_arith)
        requires
            x == d * q + r,
            0 <= r < d,
            d >= 1,
    ;
}

/// The floor shift of a signed 32-bit integer.
pub fn shr_i32(x: i32, s: u32) -> (r: i32)
    requires
        s < 32,
    ensures
        r == shr(x as int, s as int),
{
    proof {
        lemma_shr_i32(x, s);
    }
    x >> s
}

/// The floor shift of a signed 64-bit integer.
pub fn shr_i64(x: i64, s: u32) -> (r: i64)
    requires
        s < 64,
    ensures
        r == shr(x as int, s as int),
{
    proof {
        lemma_shr_i64(x, s);
    }
    x >> s
}

/// The right shift of an unsigned 32-bit integer.
pub fn shr_u32(x: u32, s: u32) -> (r: u32)
    requires
        s < 32,
    ensures
        r == shr(x as int, s as int),
{
    proof {
        lemma_u32_shr_is_div(x, s);
    }
    x >> s
}

/// The right shift of an unsigned 64-bit integer.
pub fn shr_u64(x: u64, s: u32) -> (r: u64)
    requires
        s < 64,
    ensures
        r == shr(x as int, s as int),
{
    proof {
        lemma_u64_shr_is_div(x, s as u64);
    }
    x >> (s as u64)
}

/// A power of two as a signed 32-bit integer.
pub fn exp2_i32(s: u32) -> (r: i32)
    requires
        s < 31,
    ensures
        r == pow2(s as nat),
        r > 0,
{
    let mut r: i32 = 1;
    let mut i: u32 = 0;
    proof {
        lemma2_to64();
    }
    while i < s
        invariant
            i <= s < 31,
            r == pow2(i as nat),
            1 <= r <= 0x4000_0000,
        decreases s - i,
    {
        proof {
            lemma2_to64();
            lemma_pow2_adds(i as nat, 1);
            vstd::arithmetic::power2::lemma_pow2_strictly_increases(i as nat, 30);
            vstd::arithmetic::power2::lemma_pow2_strictly_increases(i as nat, (i + 1) as nat);
            if i + 1 < 30 {
                vstd::arithmetic::power2::lemma_pow2_strictly_increases((i + 1) as nat, 30);
            }
        }
        r = r * 2;
        i += 1;
    }
    r
}

/// Two's complement reduction of a 64-bit value to 32 bits.
pub fn wrap_to_i32(x: i64) -> (r: i32)
    ensures
        r == wrap32(x as int),
{
    proof {
        reveal(wrap32);
    }
    let r: i32 = #[verifier::truncate] (x as i32);
    assert(r == (x + 0x8000_0000) % 0x1_0000_0000 - 0x8000_0000) by (bit_vector)
        requires
            r == x as i32,
    ;
    r
}

/// Two's complement reduction of a 32-bit value to 16 bits.
pub fn wrap_to_i16(x: i32) -> (r: i16)
    ensures
        r == wrap16(x as int),
{
    proof {
        reveal(wrap16);
    }
    let r: i16 = #[verifier::truncate] (x as i16);
    assert(r == (x + 0x8000) % 0x1_0000 - 0x8000) by (bit_vector)
        requires
            r == x as i16,
    ;
    r
}

/// The sum of two 32-bit lanes, wrapped.
pub fn wrapping_add_i32(a: i32, b: i32) -> (r: i32)
    ensures
        r == wrap32(a + b),
{
    proof {
        reveal(wrap32);
    }
    a.wrapping_add(b)
}

/// The sum of two 64-bit lanes, wrapped.
pub fn wrapping_add_i64(a: i64, b: i64) -> (r: i64)
    ensures
        r == wrap64(a + b),
{
    proof {
        reveal(wrap64);
    }
    a.wrapping_add(b)
}

/// The difference of two 32-bit lanes, wrapped.
pub fn wrapping_sub_i32(a: i32, b: i32) -> (r: i32)
    ensures
        r == wrap32(a - b),
{
    proof {
        reveal(wrap32);
    }
    a.wrapping_sub(b)
}

/// The product of two 32-bit lanes is at most 62 bits wide.
pub proof fn lemma_mul_i32_bounds(a: i32, b: i32)
    ensures
        -0x4000_0000_0000_0000 <= a * b <= 0x4000_0000_0000_0000,
{
    assert(-0x4000_0000_0000_0000 <= a * b <= 0x4000_0000_0000_0000) by (nonlinear_arith)
        requires
            -0x8000_0000 <= a <= 0x7fff_ffff,
            -0x8000_0000 <= b <= 0x7fff_ffff,
    ;
}

/// The product of two 32-bit lanes, wrapped.
pub fn wrapping_mul_i32(a: i32, b: i32) -> (r: i32)
    ensures
        r == wrap32(a * b),
{
    proof {
        lemma_mul_i32_bounds(a, b);
    }
    wrap_to_i32(a as i64 * b as i64)
}

/// The absolute value of a 32-bit lane; the minimum keeps its bit pattern.
pub fn wrapping_abs_i32(a: i32) -> (r: i32)
    ensures
        r == wrap32(abs_int(a as int)),
{
    proof {
        reveal(wrap32);
    }
    if a == i32::MIN {
        a
    } else if a < 0 {
        -a
    } else {
        a
    }
}

/// The magnitude of a signed 32-bit integer.
pub fn unsigned_abs_i32(a: i32) -> (r: u32)
    ensures
        r == abs_int(a as int),
{
    if a < 0 {
        (-(a as i64)) as u32
    } else {
        a as u32
    }
}

/// `x` brought into `[lo, hi]`.
pub fn clamp(x: i32, lo: i32, hi: i32) -> (r: i32)
    ensures
        r == clamp_int(x as int, lo as int, hi as int),
{
    if x < lo {
        lo
    } else if x > hi {
        hi
    } else {
        x
    }
}

/// The smaller of two sizes.
pub fn min_usize(a: usize, b: usize) -> (r: usize)
    ensures
        r == min_int(a as int, b as int),
{
    if a <= b {
        a
    } else {
        b
    }
}

} // verus!
