//! Block sizes.

use vstd::prelude::*;

verus! {

/// A size of block that the encoder partitions a frame into.
#[allow(non_camel_case_types)]
#[derive(Debug, Copy, Clone, PartialEq, Eq, Structural)]
pub enum BlockSize {
    BLOCK_4X4,
    BLOCK_4X8,
    BLOCK_8X4,
    BLOCK_8X8,
    BLOCK_8X16,
    BLOCK_16X8,
    BLOCK_16X16,
    BLOCK_16X32,
    BLOCK_32X16,
    BLOCK_32X32,
    BLOCK_32X64,
    BLOCK_64X32,
    BLOCK_64X64,
    BLOCK_64X128,
    BLOCK_128X64,
    BLOCK_128X128,
    BLOCK_4X16,
    BLOCK_16X4,
    BLOCK_8X32,
    BLOCK_32X8,
    BLOCK_16X64,
    BLOCK_64X16,
}

/// A pair of dimensions that no block has.
#[derive(Debug, Copy, Clone, PartialEq, Eq, Structural)]
pub struct InvalidBlockSize;

impl BlockSize {
    /// The number of columns and of rows.
    pub open spec fn dims(self) -> (int, int) {
        match self {
            BlockSize::BLOCK_4X4 => (4, 4),
            BlockSize::BLOCK_4X8 => (4, 8),
            BlockSize::BLOCK_8X4 => (8, 4),
            BlockSize::BLOCK_8X8 => (8, 8),
            BlockSize::BLOCK_8X16 => (8, 16),
            BlockSize::BLOCK_16X8 => (16, 8),
            BlockSize::BLOCK_16X16 => (16, 16),
            BlockSize::BLOCK_16X32 => (16, 32),
            BlockSize::BLOCK_32X16 => (32, 16),
            BlockSize::BLOCK_32X32 => (32, 32),
            BlockSize::BLOCK_32X64 => (32, 64),
            BlockSize::BLOCK_64X32 => (64, 32),
            BlockSize::BLOCK_64X64 => (64, 64),
            BlockSize::BLOCK_64X128 => (64, 128),
            BlockSize::BLOCK_128X64 => (128, 64),
            BlockSize::BLOCK_128X128 => (128, 128),
            BlockSize::BLOCK_4X16 => (4, 16),
            BlockSize::BLOCK_16X4 => (16, 4),
            BlockSize::BLOCK_8X32 => (8, 32),
            BlockSize::BLOCK_32X8 => (32, 8),
            BlockSize::BLOCK_16X64 => (16, 64),
            BlockSize::BLOCK_64X16 => (64, 16),
        }
    }

    /// The number of columns.
    pub fn width(self) -> (r: usize)
        ensures
            r == self.dims().0,
    {
        match self {
            BlockSize::BLOCK_4X4 => 4,
            BlockSize::BLOCK_4X8 => 4,
            BlockSize::BLOCK_8X4 => 8,
            BlockSize::BLOCK_8X8 => 8,
            BlockSize::BLOCK_8X16 => 8,
            BlockSize::BLOCK_16X8 => 16,
            BlockSize::BLOCK_16X16 => 16,
            BlockSize::BLOCK_16X32 => 16,
            BlockSize::BLOCK_32X16 => 32,
            BlockSize::BLOCK_32X32 => 32,
            BlockSize::BLOCK_32X64 => 32,
            BlockSize::BLOCK_64X32 => 64,
            BlockSize::BLOCK_64X64 => 64,
            BlockSize::BLOCK_64X128 => 64,
            BlockSize::BLOCK_128X64 => 128,
            BlockSize::BLOCK_128X128 => 128,
            BlockSize::BLOCK_4X16 => 4,
            BlockSize::BLOCK_16X4 => 16,
            BlockSize::BLOCK_8X32 => 8,
            BlockSize::BLOCK_32X8 => 32,
            BlockSize::BLOCK_16X64 => 16,
            BlockSize::BLOCK_64X16 => 64,
        }
    }

    /// The number of rows.
    pub fn height(self) -> (r: usize)
        ensures
            r == self.dims().1,
    {
        match self {
            BlockSize::BLOCK_4X4 => 4,
            BlockSize::BLOCK_4X8 => 8,
            BlockSize::BLOCK_8X4 => 4,
            BlockSize::BLOCK_8X8 => 8,
            BlockSize::BLOCK_8X16 => 16,
            BlockSize::BLOCK_16X8 => 8,
            BlockSize::BLOCK_16X16 => 16,
            BlockSize::BLOCK_16X32 => 32,
            BlockSize::BLOCK_32X16 => 16,
            BlockSize::BLOCK_32X32 => 32,
            BlockSize::BLOCK_32X64 => 64,
            BlockSize::BLOCK_64X32 => 32,
            BlockSize::BLOCK_64X64 => 64,
            BlockSize::BLOCK_64X128 => 128,
            BlockSize::BLOCK_128X64 => 64,
            BlockSize::BLOCK_128X128 => 128,
            BlockSize::BLOCK_4X16 => 16,
            BlockSize::BLOCK_16X4 => 4,
            BlockSize::BLOCK_8X32 => 32,
            BlockSize::BLOCK_32X8 => 8,
            BlockSize::BLOCK_16X64 => 64,
            BlockSize::BLOCK_64X16 => 16,
        }
    }

    /// The block of the given dimensions, if there is one.
    pub fn from_width_and_height_opt(w: usize, h: usize) -> (r: Result<Self, InvalidBlockSize>)
        ensures
            match r {
                Ok(b) => b.dims() == (w as int, h as int),
                Err(_) => forall|b: BlockSize| #[trigger] b.dims() != (w as int, h as int),
            },
    {
        match (w, h) {
            (4, 4) => Ok(BlockSize::BLOCK_4X4),
            (4, 8) => Ok(BlockSize::BLOCK_4X8),
            (8, 4) => Ok(BlockSize::BLOCK_8X4),
            (8, 8) => Ok(BlockSize::BLOCK_8X8),
            (8, 16) => Ok(BlockSize::BLOCK_8X16),
            (16, 8) => Ok(BlockSize::BLOCK_16X8),
            (16, 16) => Ok(BlockSize::BLOCK_16X16),
            (16, 32) => Ok(BlockSize::BLOCK_16X32),
            (32, 16) => Ok(BlockSize::BLOCK_32X16),
            (32, 32) => Ok(BlockSize::BLOCK_32X32),
            (32, 64) => Ok(BlockSize::BLOCK_32X64),
            (64, 32) => Ok(BlockSize::BLOCK_64X32),
            (64, 64) => Ok(BlockSize::BLOCK_64X64),
            (64, 128) => Ok(BlockSize::BLOCK_64X128),
            (128, 64) => Ok(BlockSize::BLOCK_128X64),
            (128, 128) => Ok(BlockSize::BLOCK_128X128),
            (4, 16) => Ok(BlockSize::BLOCK_4X16),
            (16, 4) => Ok(BlockSize::BLOCK_16X4),
            (8, 32) => Ok(BlockSize::BLOCK_8X32),
            (32, 8) => Ok(BlockSize::BLOCK_32X8),
            (16, 64) => Ok(BlockSize::BLOCK_16X64),
            (64, 16) => Ok(BlockSize::BLOCK_64X16),
            _ => Err(InvalidBlockSize),
        }
    }
}

/// Every block is made of whole 4x4 squares and is at most 128 samples wide and high.
pub proof fn lemma_block_dims(b: BlockSize)
    ensures
        b.dims().0 % 4 == 0,
        b.dims().1 % 4 == 0,
        4 <= b.dims().0 <= 128,
        4 <= b.dims().1 <= 128,
{
}

} // verus!
