//! The 128-bit vector of WebAssembly.
//!
//! A vector is four 32-bit words, the lowest first. Every narrower or wider lane is read out of
//! those words in little-endian order, so one value has all of its lane readings at once, as it
//! has in a vector register.

use crate::math::wrap32;
use vstd::prelude::*;

verus! {

/// A 128-bit vector.
#[allow(non_camel_case_types)]
#[derive(Clone, Copy, Debug, PartialEq, Eq, Structural)]
pub struct v128 {
    /// Bits 0 to 31.
    pub e0: i32,
    /// Bits 32 to 63.
    pub e1: i32,
    /// Bits 64 to 95.
    pub e2: i32,
    /// Bits 96 to 127.
    pub e3: i32,
}

/// The unsigned reading of a 32-bit word.
pub open spec fn word_u32(x: i32) -> int {
    if x < 0 {
        x + 0x1_0000_0000
    } else {
        x as int
    }
}

/// The unsigned reading of a reduced number is what is left of it modulo `2^32`.
pub proof fn lemma_word_of_wrap(w: i32, x: int, y: int, k: int)
    requires
        w == wrap32(x),
        y == x + 0x1_0000_0000 * k,
    ensures
        word_u32(w) == y % 0x1_0000_0000,
{
    let q = crate::math::lemma_wrap32_multiple(x);
    let c = if w < 0 {
        1int
    } else {
        0int
    };
    assert(y == (k + q - c) * 0x1_0000_0000 + word_u32(w));
    vstd::arithmetic::div_mod::lemma_fundamental_div_mod_converse(
        y,
        0x1_0000_0000,
        k + q - c,
        word_u32(w),
    );
}

/// How many times `2^32` the unsigned reading of a word exceeds the signed one.
pub open spec fn word_carry(x: i32) -> int {
    if x < 0 {
        1
    } else {
        0
    }
}

/// The signed reading of an unsigned value of `2 * half` patterns.
pub open spec fn signed(x: int, half: int) -> int {
    if x < half {
        x
    } else {
        x - 2 * half
    }
}

/// Half-word `j` of an unsigned 32-bit word.
pub open spec fn half_of(w: int, j: int) -> int {
    if j == 0 {
        w % 0x1_0000
    } else {
        w / 0x1_0000
    }
}

/// Byte `j` of an unsigned 32-bit word.
pub open spec fn byte_of(w: int, j: int) -> int {
    if j == 0 {
        w % 0x100
    } else if j == 1 {
        (w / 0x100) % 0x100
    } else if j == 2 {
        (w / 0x1_0000) % 0x100
    } else {
        w / 0x100_0000
    }
}

impl v128 {
    /// Lane `k` of the vector read as four signed 32-bit integers.
    pub open spec fn lane_i32(self, k: int) -> i32 {
        if k == 0 {
            self.e0
        } else if k == 1 {
            self.e1
        } else if k == 2 {
            self.e2
        } else {
            self.e3
        }
    }

    /// Lane `k` of the vector read as four unsigned 32-bit integers.
    pub open spec fn lane_u32(self, k: int) -> int {
        word_u32(self.lane_i32(k))
    }

    /// Lane `k` of the vector read as eight unsigned 16-bit integers.
    #[verifier::opaque]
    pub open spec fn lane_u16(self, k: int) -> int {
        half_of(self.lane_u32(k / 2), k % 2)
    }

    /// Lane `k` of the vector read as eight signed 16-bit integers.
    pub open spec fn lane_i16(self, k: int) -> int {
        signed(self.lane_u16(k), 0x8000)
    }

    /// Lane `k` of the vector read as sixteen bytes.
    #[verifier::opaque]
    pub open spec fn lane_u8(self, k: int) -> int {
        byte_of(self.lane_u32(k / 4), k % 4)
    }

    /// Lane `k` of the vector read as sixteen signed bytes.
    pub open spec fn lane_i8(self, k: int) -> int {
        signed(self.lane_u8(k), 0x80)
    }

    /// Lane `k` of the vector read as two signed 64-bit integers.
    #[verifier::opaque]
    pub open spec fn lane_i64(self, k: int) -> int {
        self.lane_u32(2 * k) + 0x1_0000_0000 * self.lane_i32(2 * k + 1)
    }
}

/// A byte lane is a byte.
pub broadcast proof fn lemma_lane_u8(v: v128, k: int)
    ensures
        0 <= #[trigger] v.lane_u8(k) <= 0xff,
{
    reveal(v128::lane_u8);
}

/// A 16-bit lane has 16 bits.
pub broadcast proof fn lemma_lane_u16(v: v128, k: int)
    ensures
        0 <= #[trigger] v.lane_u16(k) <= 0xffff,
{
    reveal(v128::lane_u16);
}

/// A 64-bit lane has 64 bits.
pub broadcast proof fn lemma_lane_i64(v: v128, k: int)
    ensures
        -0x8000_0000_0000_0000 <= #[trigger] v.lane_i64(k) <= 0x7fff_ffff_ffff_ffff,
{
    reveal(v128::lane_i64);
}

/// The ranges of the lanes.
pub broadcast group group_lanes {
    lemma_lane_u8,
    lemma_lane_u16,
    lemma_lane_i64,
}

/// The low word of a 64-bit lane is its reduction to 32 bits.
pub proof fn lemma_low_word(v: v128)
    ensures
        v.lane_i32(0) == wrap32(v.lane_i64(0)),
        v.lane_i32(2) == wrap32(v.lane_i64(1)),
{
    reveal(v128::lane_i64);
    crate::math::lemma_wrap32_periodic(v.e0 as int, word_carry(v.e0) + v.e1);
    crate::math::lemma_wrap32_periodic(v.e2 as int, word_carry(v.e2) + v.e3);
    crate::math::lemma_wrap32(v.e0 as int);
    crate::math::lemma_wrap32(v.e2 as int);
    assert(v.lane_i64(0) == v.e0 + 0x1_0000_0000 * (word_carry(v.e0) + v.e1));
    assert(v.lane_i64(1) == v.e2 + 0x1_0000_0000 * (word_carry(v.e2) + v.e3));
}

} // verus!
