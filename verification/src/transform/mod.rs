//! Transforms of residuals.

pub mod forward;
pub mod inverse;

use vstd::prelude::*;

verus! {

/// The size of a transform, columns by rows.
#[allow(non_camel_case_types)]
#[derive(Debug, Copy, Clone, PartialEq, Eq, Structural)]
pub enum TxSize {
    /// 4 columns and 4 rows.
    TX_4X4,
    /// 8 columns and 8 rows.
    TX_8X8,
    /// 16 columns and 16 rows.
    TX_16X16,
    /// 32 columns and 32 rows.
    TX_32X32,
    /// 64 columns and 64 rows.
    TX_64X64,
    /// 4 columns and 8 rows.
    TX_4X8,
    /// 8 columns and 4 rows.
    TX_8X4,
    /// 8 columns and 16 rows.
    TX_8X16,
    /// 16 columns and 8 rows.
    TX_16X8,
    /// 16 columns and 32 rows.
    TX_16X32,
    /// 32 columns and 16 rows.
    TX_32X16,
    /// 32 columns and 64 rows.
    TX_32X64,
    /// 64 columns and 32 rows.
    TX_64X32,
    /// 4 columns and 16 rows.
    TX_4X16,
    /// 16 columns and 4 rows.
    TX_16X4,
    /// 8 columns and 32 rows.
    TX_8X32,
    /// 32 columns and 8 rows.
    TX_32X8,
    /// 16 columns and 64 rows.
    TX_16X64,
    /// 64 columns and 16 rows.
    TX_64X16,
}

/// The kind of a transform, down the columns and along the rows.
#[allow(non_camel_case_types)]
#[derive(Debug, Copy, Clone, PartialEq, Eq, Structural)]
pub enum TxType {
    /// A cosine transform down the columns, a cosine transform along the rows.
    DCT_DCT,
    /// A sine transform down the columns, a cosine transform along the rows.
    ADST_DCT,
    /// A cosine transform down the columns, a sine transform along the rows.
    DCT_ADST,
    /// A sine transform down the columns, a sine transform along the rows.
    ADST_ADST,
    /// A flipped sine transform down the columns, a cosine transform along the rows.
    FLIPADST_DCT,
    /// A cosine transform down the columns, a flipped sine transform along the rows.
    DCT_FLIPADST,
    /// A flipped sine transform down the columns, a flipped sine transform along the rows.
    FLIPADST_FLIPADST,
    /// A sine transform down the columns, a flipped sine transform along the rows.
    ADST_FLIPADST,
    /// A flipped sine transform down the columns, a sine transform along the rows.
    FLIPADST_ADST,
    /// No transform.
    IDTX,
    /// A cosine transform down the columns only.
    V_DCT,
    /// A cosine transform along the rows only.
    H_DCT,
    /// A sine transform down the columns only.
    V_ADST,
    /// A sine transform along the rows only.
    H_ADST,
    /// A flipped sine transform down the columns only.
    V_FLIPADST,
    /// A flipped sine transform along the rows only.
    H_FLIPADST,
    /// A Walsh-Hadamard transform down the columns, a Walsh-Hadamard transform along the rows.
    WHT_WHT,
}

impl TxSize {
    /// The columns and rows of the size.
    pub open spec fn dims(self) -> (int, int) {
        match self {
            TxSize::TX_4X4 => (4, 4),
            TxSize::TX_8X8 => (8, 8),
            TxSize::TX_16X16 => (16, 16),
            TxSize::TX_32X32 => (32, 32),
            TxSize::TX_64X64 => (64, 64),
            TxSize::TX_4X8 => (4, 8),
            TxSize::TX_8X4 => (8, 4),
            TxSize::TX_8X16 => (8, 16),
            TxSize::TX_16X8 => (16, 8),
            TxSize::TX_16X32 => (16, 32),
            TxSize::TX_32X16 => (32, 16),
            TxSize::TX_32X64 => (32, 64),
            TxSize::TX_64X32 => (64, 32),
            TxSize::TX_4X16 => (4, 16),
            TxSize::TX_16X4 => (16, 4),
            TxSize::TX_8X32 => (8, 32),
            TxSize::TX_32X8 => (32, 8),
            TxSize::TX_16X64 => (16, 64),
            TxSize::TX_64X16 => (64, 16),
        }
    }

    /// The number of columns.
    pub fn width(self) -> (r: usize)
        ensures
            r == self.dims().0,
    {
        match self {
            TxSize::TX_4X4 => 4,
            TxSize::TX_8X8 => 8,
            TxSize::TX_16X16 => 16,
            TxSize::TX_32X32 => 32,
            TxSize::TX_64X64 => 64,
            TxSize::TX_4X8 => 4,
            TxSize::TX_8X4 => 8,
            TxSize::TX_8X16 => 8,
            TxSize::TX_16X8 => 16,
            TxSize::TX_16X32 => 16,
            TxSize::TX_32X16 => 32,
            TxSize::TX_32X64 => 32,
            TxSize::TX_64X32 => 64,
            TxSize::TX_4X16 => 4,
            TxSize::TX_16X4 => 16,
            TxSize::TX_8X32 => 8,
            TxSize::TX_32X8 => 32,
            TxSize::TX_16X64 => 16,
            TxSize::TX_64X16 => 64,
        }
    }

    /// The number of rows.
    pub fn height(self) -> (r: usize)
        ensures
            r == self.dims().1,
    {
        match self {
            TxSize::TX_4X4 => 4,
            TxSize::TX_8X8 => 8,
            TxSize::TX_16X16 => 16,
            TxSize::TX_32X32 => 32,
            TxSize::TX_64X64 => 64,
            TxSize::TX_4X8 => 8,
            TxSize::TX_8X4 => 4,
            TxSize::TX_8X16 => 16,
            TxSize::TX_16X8 => 8,
            TxSize::TX_16X32 => 32,
            TxSize::TX_32X16 => 16,
            TxSize::TX_32X64 => 64,
            TxSize::TX_64X32 => 32,
            TxSize::TX_4X16 => 16,
            TxSize::TX_16X4 => 4,
            TxSize::TX_8X32 => 32,
            TxSize::TX_32X8 => 8,
            TxSize::TX_16X64 => 64,
            TxSize::TX_64X16 => 16,
        }
    }
}

/// The sides that transforms have.
pub open spec fn is_tx_side(n: int) -> bool {
    n == 4 || n == 8 || n == 16 || n == 32 || n == 64
}

/// Both sides of a size are powers of two from 4 to 64, and neither is more than four times the
/// other.
pub proof fn lemma_tx_dims(t: TxSize)
    ensures
        is_tx_side(t.dims().0),
        is_tx_side(t.dims().1),
        t.dims().0 <= 4 * t.dims().1,
        t.dims().1 <= 4 * t.dims().0,
{
}

} // verus!
