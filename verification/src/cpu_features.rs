//! The instruction sets that a kernel can be picked for.

use vstd::prelude::*;

verus! {

/// A level of processor support, from the least to the most.
#[allow(clippy::upper_case_acronyms)]
#[derive(Debug, Copy, Clone, PartialEq, Eq, PartialOrd, Structural)]
pub enum CpuFeatureLevel {
    /// Portable code only.
    RUST,
    /// 128-bit vectors.
    SIMD128,
}

impl CpuFeatureLevel {
    /// The position of the level, counted from the least support.
    pub open spec fn index(self) -> int {
        match self {
            CpuFeatureLevel::RUST => 0,
            CpuFeatureLevel::SIMD128 => 1,
        }
    }

    /// Every level, in order.
    pub fn all() -> (r: [Self; 2])
        ensures
            r@ == seq![CpuFeatureLevel::RUST, CpuFeatureLevel::SIMD128],
    {
        [CpuFeatureLevel::RUST, CpuFeatureLevel::SIMD128]
    }

    /// The number of levels.
    pub fn len() -> (r: usize)
        ensures
            r == 2,
    {
        CpuFeatureLevel::SIMD128.as_index() + 1
    }

    /// The position of the level in a table of all levels.
    pub fn as_index(self) -> (r: usize)
        ensures
            r == self.index(),
    {
        match self {
            CpuFeatureLevel::RUST => 0,
            CpuFeatureLevel::SIMD128 => 1,
        }
    }

    /// Whether the level includes 128-bit vectors.
    pub fn has_simd128(self) -> (r: bool)
        ensures
            r == (self.index() >= CpuFeatureLevel::SIMD128.index()),
    {
        self.as_index() >= CpuFeatureLevel::SIMD128.as_index()
    }
}

impl Default for CpuFeatureLevel {
    /// The best level.
    fn default() -> (r: Self)
        ensures
            r == CpuFeatureLevel::SIMD128,
    {
        CpuFeatureLevel::SIMD128
    }
}

/// A table with one entry for each level.
///
/// The least level has the entry `default`. The level with vectors has its own entry where one
/// is given, and otherwise takes over the entry of the level below.
pub fn cpu_function_lookup_table<T: Copy>(default: T, simd128: Option<T>) -> (r: [T; 2])
    ensures
        r[CpuFeatureLevel::RUST.index()] == default,
        r[CpuFeatureLevel::SIMD128.index()] == (match simd128 {
            Some(f) => f,
            None => default,
        }),
{
    match simd128 {
        Some(f) => [default, f],
        None => [default, default],
    }
}

/// Every level indexes a table of `len` entries, and no two levels share an entry.
pub proof fn lemma_index_in_table(a: CpuFeatureLevel, b: CpuFeatureLevel)
    ensures
        0 <= a.index() < 2,
        a.index() == b.index() ==> a == b,
{
}

} // verus!
