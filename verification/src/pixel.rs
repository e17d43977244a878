//! Sample and coefficient types.

use crate::arch::{u8x16, v128};
use crate::math::{wrap16, wrap_to_i16};
use vstd::prelude::*;

verus! {

/// The storage of a sample.
#[derive(Debug, Copy, Clone, PartialEq, Eq, Structural)]
pub enum PixelType {
    /// Eight bits.
    U8,
    /// Up to sixteen bits.
    U16,
}

/// A sample of a plane.
pub trait Sample: Copy {
    /// The value of the sample.
    spec fn val(self) -> int;

    /// The storage of the type.
    spec fn storage() -> PixelType;

    /// A sample is unsigned and fits its storage, and its value determines it.
    proof fn lemma_val(self, other: Self)
        ensures
            0 <= self.val() < pixel_range(Self::storage()),
            self.val() == other.val() ==> self == other,
    ;

    /// The storage of the type.
    fn type_enum() -> (r: PixelType)
        ensures
            r == Self::storage(),
    ;

    /// The value of the sample.
    fn to_i32(self) -> (r: i32)
        ensures
            r == self.val(),
            0 <= r < pixel_range(Self::storage()),
    ;

    /// The sample that holds the low bits of `v`.
    fn cast_from(v: u32) -> (r: Self)
        ensures
            r.val() == v as int % pixel_range(Self::storage()),
    ;
}

/// The number of values that a sample of the given storage takes.
pub open spec fn pixel_range(t: PixelType) -> int {
    match t {
        PixelType::U8 => 0x100,
        PixelType::U16 => 0x1_0000,
    }
}

impl Sample for u8 {
    open spec fn val(self) -> int {
        self as int
    }

    open spec fn storage() -> PixelType {
        PixelType::U8
    }

    proof fn lemma_val(self, other: Self) {
    }

    fn type_enum() -> (r: PixelType) {
        PixelType::U8
    }

    fn to_i32(self) -> (r: i32) {
        self as i32
    }

    fn cast_from(v: u32) -> (r: Self) {
        (v % 0x100) as u8
    }
}

impl Sample for u16 {
    open spec fn val(self) -> int {
        self as int
    }

    open spec fn storage() -> PixelType {
        PixelType::U16
    }

    proof fn lemma_val(self, other: Self) {
    }

    fn type_enum() -> (r: PixelType) {
        PixelType::U16
    }

    fn to_i32(self) -> (r: i32) {
        self as i32
    }

    fn cast_from(v: u32) -> (r: Self) {
        (v % 0x1_0000) as u16
    }
}

/// A sample of eight bits as a byte.
fn byte_of<T: Sample>(p: T) -> (r: u8)
    requires
        T::storage() == PixelType::U8,
    ensures
        r == p.val(),
{
    p.to_i32() as u8
}

/// Sixteen samples of eight bits.
pub(crate) fn load16<T: Sample>(s: &[T], at: usize) -> (r: v128)
    requires
        T::storage() == PixelType::U8,
        at + 16 <= s@.len(),
    ensures
        forall|k: int| 0 <= k < 16 ==> #[trigger] r.lane_u8(k) == s@[at + k].val(),
{
    u8x16(
        byte_of(s[at]),
        byte_of(s[at + 1]),
        byte_of(s[at + 2]),
        byte_of(s[at + 3]),
        byte_of(s[at + 4]),
        byte_of(s[at + 5]),
        byte_of(s[at + 6]),
        byte_of(s[at + 7]),
        byte_of(s[at + 8]),
        byte_of(s[at + 9]),
        byte_of(s[at + 10]),
        byte_of(s[at + 11]),
        byte_of(s[at + 12]),
        byte_of(s[at + 13]),
        byte_of(s[at + 14]),
        byte_of(s[at + 15]),
    )
}

/// Eight samples of eight bits, and zeros.
pub(crate) fn load8<T: Sample>(s: &[T], at: usize) -> (r: v128)
    requires
        T::storage() == PixelType::U8,
        at + 8 <= s@.len(),
    ensures
        forall|k: int| 0 <= k < 8 ==> #[trigger] r.lane_u8(k) == s@[at + k].val(),
        forall|k: int| 8 <= k < 16 ==> #[trigger] r.lane_u8(k) == 0,
{
    u8x16(
        byte_of(s[at]),
        byte_of(s[at + 1]),
        byte_of(s[at + 2]),
        byte_of(s[at + 3]),
        byte_of(s[at + 4]),
        byte_of(s[at + 5]),
        byte_of(s[at + 6]),
        byte_of(s[at + 7]),
        0,
        0,
        0,
        0,
        0,
        0,
        0,
        0,
    )
}

/// Four samples of eight bits, and zeros.
pub(crate) fn load4<T: Sample>(s: &[T], at: usize) -> (r: v128)
    requires
        T::storage() == PixelType::U8,
        at + 4 <= s@.len(),
    ensures
        forall|k: int| 0 <= k < 4 ==> #[trigger] r.lane_u8(k) == s@[at + k].val(),
        forall|k: int| 4 <= k < 16 ==> #[trigger] r.lane_u8(k) == 0,
{
    u8x16(
        byte_of(s[at]),
        byte_of(s[at + 1]),
        byte_of(s[at + 2]),
        byte_of(s[at + 3]),
        0,
        0,
        0,
        0,
        0,
        0,
        0,
        0,
        0,
        0,
        0,
        0,
    )
}

/// A transform coefficient.
pub trait Coefficient: Copy {
    /// The value of the coefficient.
    spec fn val(self) -> int;

    /// Whether the coefficient is stored in 16 bits rather than 32.
    spec fn narrow() -> bool;

    /// Whether the coefficient is stored in 16 bits rather than 32.
    fn is_narrow() -> (r: bool)
        ensures
            r == Self::narrow(),
    ;

    /// The value of the coefficient.
    fn to_i32(self) -> (r: i32)
        ensures
            r == self.val(),
            Self::narrow() ==> -0x8000 <= r <= 0x7fff,
    ;

    /// The coefficient that holds the low bits of `v`.
    fn cast_from(v: i32) -> (r: Self)
        ensures
            r.val() == (if Self::narrow() {
                wrap16(v as int)
            } else {
                v as int
            }),
    ;
}

impl Coefficient for i16 {
    open spec fn val(self) -> int {
        self as int
    }

    open spec fn narrow() -> bool {
        true
    }

    fn is_narrow() -> (r: bool) {
        true
    }

    fn to_i32(self) -> (r: i32) {
        self as i32
    }

    fn cast_from(v: i32) -> (r: Self) {
        wrap_to_i16(v)
    }
}

impl Coefficient for i32 {
    open spec fn val(self) -> int {
        self as int
    }

    open spec fn narrow() -> bool {
        false
    }

    fn is_narrow() -> (r: bool) {
        false
    }

    fn to_i32(self) -> (r: i32) {
        self
    }

    fn cast_from(v: i32) -> (r: Self) {
        v
    }
}

} // verus!
