//! The forward transform: columns first, then rows, four at a time.

use crate::arch::{
    i32x4, i32x4_add, i32x4_lt, i32x4_shl, i32x4_shr, i32x4_shuffle, i32x4_splat, i32x4_sub,
    i64x2_add, i64x2_extmul_high_i32x4, i64x2_extmul_low_i32x4, i64x2_shr, i64x2_splat, mask,
    pair_lane, v128,
};
use crate::cpu_features::CpuFeatureLevel;
use crate::math::{min_int, min_usize, shr, wrap16, wrap32};
use crate::pixel::Coefficient;
use crate::transform::{is_tx_side, lemma_tx_dims, TxSize, TxType};
use vstd::arithmetic::power2::pow2;
use vstd::prelude::*;

verus! {

broadcast use {crate::math::group_wrap, crate::vector::group_lanes};

/// Four 32-bit numbers.
#[derive(Debug, Copy, Clone, PartialEq, Eq, Structural)]
pub struct I32X4 {
    /// The numbers, lane by lane.
    pub data: v128,
}

impl I32X4 {
    /// Number `k`.
    pub open spec fn lane(self, k: int) -> int {
        self.data.lane_i32(k) as int
    }

    /// The numbers as a vector.
    pub fn vec(self) -> (r: v128)
        ensures
            r == self.data,
    {
        self.data
    }

    /// The numbers of a vector.
    pub fn new(a: v128) -> (r: I32X4)
        ensures
            r.data == a,
    {
        I32X4 { data: a }
    }

    /// Four zeros.
    pub fn zero() -> (r: I32X4)
        ensures
            forall|k: int| 0 <= k < 4 ==> #[trigger] r.lane(k) == 0,
    {
        let r = I32X4::new(i32x4_splat(0));
        assert forall|k: int| 0 <= k < 4 implies #[trigger] r.lane(k) == 0 by {
            assert(r.data.lane_i32(k) == 0);
        }
        r
    }

    /// The numbers times `mul`, divided by `2^SHIFT` and rounded half up. Products have 64 bits,
    /// results wrap to 32.
    pub fn tx_mul<const SHIFT: u32>(self, mul: i32) -> (r: I32X4)
        requires
            SHIFT <= 62,
        ensures
            forall|k: int|
                0 <= k < 4 ==> #[trigger] r.lane(k) == wrap32(
                    shr(self.lane(k) * mul + pow2(SHIFT as nat) as int / 2, SHIFT as int),
                ),
    {
        let mulx4 = i32x4_splat(mul);
        let prod_lo = i64x2_extmul_low_i32x4(self.data, mulx4);
        let prod_hi = i64x2_extmul_high_i32x4(self.data, mulx4);
        let half: i64 = half_of(SHIFT);
        let rounding = i64x2_splat(half);
        let round_lo = i64x2_add(prod_lo, rounding);
        let round_hi = i64x2_add(prod_hi, rounding);
        let shifted_lo = i64x2_shr(round_lo, SHIFT);
        let shifted_hi = i64x2_shr(round_hi, SHIFT);
        let r = I32X4::new(i32x4_shuffle::<0, 2, 4, 6>(shifted_lo, shifted_hi));
        proof {
            assert(mulx4.lane_i32(0) == mul && mulx4.lane_i32(1) == mul && mulx4.lane_i32(2) == mul
                && mulx4.lane_i32(3) == mul);
            crate::math::lemma_mul_i32_bounds(self.data.e0, mul);
            crate::math::lemma_mul_i32_bounds(self.data.e1, mul);
            crate::math::lemma_mul_i32_bounds(self.data.e2, mul);
            crate::math::lemma_mul_i32_bounds(self.data.e3, mul);
            assert(rounding.lane_i64(0) == half && rounding.lane_i64(1) == half);
            assert(round_lo.lane_i64(0) == self.lane(0) * mul + half);
            assert(round_lo.lane_i64(1) == self.lane(1) * mul + half);
            assert(round_hi.lane_i64(0) == self.lane(2) * mul + half);
            assert(round_hi.lane_i64(1) == self.lane(3) * mul + half);
            crate::vector::lemma_low_word(shifted_lo);
            crate::vector::lemma_low_word(shifted_hi);
            assert(r.data.lane_i32(0) == pair_lane(shifted_lo, shifted_hi, 0));
            assert(r.data.lane_i32(1) == pair_lane(shifted_lo, shifted_hi, 2));
            assert(r.data.lane_i32(2) == pair_lane(shifted_lo, shifted_hi, 4));
            assert(r.data.lane_i32(3) == pair_lane(shifted_lo, shifted_hi, 6));
            assert(r.lane(0) == wrap32(shr(self.lane(0) * mul + half, SHIFT as int)));
            assert(r.lane(1) == wrap32(shr(self.lane(1) * mul + half, SHIFT as int)));
            assert(r.lane(2) == wrap32(shr(self.lane(2) * mul + half, SHIFT as int)));
            assert(r.lane(3) == wrap32(shr(self.lane(3) * mul + half, SHIFT as int)));
        }
        r
    }

    /// Half of each number, rounded towards zero.
    pub fn rshift1(self) -> (r: I32X4)
        ensures
            forall|k: int| 0 <= k < 4 ==> #[trigger] r.lane(k) == half_toward_zero(self.lane(k)),
    {
        let zero = i32x4_splat(0);
        let is_negative = i32x4_lt(self.data, zero);
        let adjusted = i32x4_sub(self.data, is_negative);
        let r = I32X4::new(i32x4_shr(adjusted, 1));
        proof {
            vstd::arithmetic::power2::lemma2_to64();
            assert(pow2(1) == 2);
            assert forall|k: int| 0 <= k < 4 implies #[trigger] r.lane(k) == half_toward_zero(
                self.lane(k),
            ) by {
                assert(zero.lane_i32(k) == 0);
                assert(is_negative.lane_i32(k) == mask(self.lane(k) < 0));
                assert(adjusted.lane_i32(k) == self.lane(k) - mask(self.lane(k) < 0));
                assert(r.data.lane_i32(k) == shr(adjusted.lane_i32(k) as int, 1));
                assert(shr(adjusted.lane_i32(k) as int, 1) == adjusted.lane_i32(k) as int / 2);
            }
        }
        r
    }

    /// Sums, wrapped to 32 bits.
    pub fn add(self, b: I32X4) -> (r: I32X4)
        ensures
            forall|k: int| 0 <= k < 4 ==> #[trigger] r.lane(k) == wrap32(self.lane(k) + b.lane(k)),
    {
        let r = I32X4::new(i32x4_add(self.data, b.data));
        assert forall|k: int| 0 <= k < 4 implies #[trigger] r.lane(k) == wrap32(
            self.lane(k) + b.lane(k),
        ) by {
            assert(r.data.lane_i32(k) == wrap32(self.data.lane_i32(k) + b.data.lane_i32(k)));
        }
        r
    }

    /// Differences, wrapped to 32 bits.
    pub fn sub(self, b: I32X4) -> (r: I32X4)
        ensures
            forall|k: int| 0 <= k < 4 ==> #[trigger] r.lane(k) == wrap32(self.lane(k) - b.lane(k)),
    {
        let r = I32X4::new(i32x4_sub(self.data, b.data));
        assert forall|k: int| 0 <= k < 4 implies #[trigger] r.lane(k) == wrap32(
            self.lane(k) - b.lane(k),
        ) by {
            assert(r.data.lane_i32(k) == wrap32(self.data.lane_i32(k) - b.data.lane_i32(k)));
        }
        r
    }

    /// Half the sums, rounded down.
    pub fn add_avg(self, b: I32X4) -> (r: I32X4)
        ensures
            forall|k: int|
                0 <= k < 4 ==> #[trigger] r.lane(k) == shr(wrap32(self.lane(k) + b.lane(k)), 1),
    {
        let s = self.add(b);
        let r = I32X4::new(i32x4_shr(s.data, 1));
        assert forall|k: int| 0 <= k < 4 implies #[trigger] r.lane(k) == shr(
            wrap32(self.lane(k) + b.lane(k)),
            1,
        ) by {
            assert(s.lane(k) == wrap32(self.lane(k) + b.lane(k)));
            assert(r.data.lane_i32(k) == shr(s.data.lane_i32(k) as int, 1));
        }
        r
    }

    /// Half the differences, rounded down.
    pub fn sub_avg(self, b: I32X4) -> (r: I32X4)
        ensures
            forall|k: int|
                0 <= k < 4 ==> #[trigger] r.lane(k) == shr(wrap32(self.lane(k) - b.lane(k)), 1),
    {
        let s = self.sub(b);
        let r = I32X4::new(i32x4_shr(s.data, 1));
        assert forall|k: int| 0 <= k < 4 implies #[trigger] r.lane(k) == shr(
            wrap32(self.lane(k) - b.lane(k)),
            1,
        ) by {
            assert(s.lane(k) == wrap32(self.lane(k) - b.lane(k)));
            assert(r.data.lane_i32(k) == shr(s.data.lane_i32(k) as int, 1));
        }
        r
    }
}

/// Half of a number, rounded towards zero.
pub open spec fn half_toward_zero(x: int) -> int {
    if x < 0 {
        -(-x / 2)
    } else {
        x / 2
    }
}

/// Half of a power of two.
fn half_of(shift: u32) -> (r: i64)
    requires
        shift <= 62,
    ensures
        r == pow2(shift as nat) as int / 2,
        0 <= r <= 0x2000_0000_0000_0000,
{
    let mut r: i64 = 1;
    let mut i: u32 = 0;
    proof {
        vstd::arithmetic::power2::lemma2_to64();
    }
    while i < shift
        invariant
            i <= shift <= 62,
            r == pow2(i as nat),
            i < 62 ==> r <= 0x2000_0000_0000_0000,
            r <= 0x4000_0000_0000_0000,
        decreases shift - i,
    {
        proof {
            vstd::arithmetic::power2::lemma2_to64();
            vstd::arithmetic::power2::lemma2_to64_rest();
            vstd::arithmetic::power2::lemma_pow2_adds(i as nat, 1);
            if i + 1 < 61 {
                vstd::arithmetic::power2::lemma_pow2_strictly_increases((i + 1) as nat, 61);
            }
        }
        r = r * 2;
        i += 1;
    }
    r / 2
}

// ---------------------------------------------------------------------------
// Transposition
// ---------------------------------------------------------------------------

/// Transposes four rows of four numbers.
pub fn transpose_4x4(input: &[I32X4; 4], into: &mut [I32X4; 4])
    ensures
        forall|i: int, j: int|
            0 <= i < 4 && 0 <= j < 4 ==> #[trigger] final(into)[i].lane(j) == input[j].lane(i),
{
    let lo01 = i32x4_shuffle::<0, 4, 1, 5>(input[0].vec(), input[1].vec());
    let hi01 = i32x4_shuffle::<2, 6, 3, 7>(input[0].vec(), input[1].vec());
    let lo23 = i32x4_shuffle::<0, 4, 1, 5>(input[2].vec(), input[3].vec());
    let hi23 = i32x4_shuffle::<2, 6, 3, 7>(input[2].vec(), input[3].vec());
    into[0] = I32X4::new(i32x4_shuffle::<0, 1, 4, 5>(lo01, lo23));
    into[1] = I32X4::new(i32x4_shuffle::<2, 3, 6, 7>(lo01, lo23));
    into[2] = I32X4::new(i32x4_shuffle::<0, 1, 4, 5>(hi01, hi23));
    into[3] = I32X4::new(i32x4_shuffle::<2, 3, 6, 7>(hi01, hi23));
}

/// Transposes eight rows of four numbers into four rows of eight, each of two parts.
pub fn transpose_8x4_to_4x8(input: &[I32X4; 8], into: &mut [I32X4; 8])
    ensures
        forall|i: int, j: int|
            0 <= i < 4 && 0 <= j < 8 ==> #[trigger] wide_at(final(into)@, i, j) == input[j].lane(i),
{
    let mut top: [I32X4; 4] = [I32X4::zero(); 4];
    let mut bot: [I32X4; 4] = [I32X4::zero(); 4];
    transpose_4x4(&[input[0], input[1], input[2], input[3]], &mut top);
    transpose_4x4(&[input[4], input[5], input[6], input[7]], &mut bot);
    into[0] = top[0];
    into[1] = bot[0];
    into[2] = top[1];
    into[3] = bot[1];
    into[4] = top[2];
    into[5] = bot[2];
    into[6] = top[3];
    into[7] = bot[3];
    assert forall|i: int, j: int| 0 <= i < 4 && 0 <= j < 8 implies #[trigger] wide_at(into@, i, j)
        == input[j].lane(i) by {
        if j < 4 {
            assert(into[2 * i] == top[i]);
            assert(top[i].lane(j) == input[j].lane(i));
        } else {
            assert(into[2 * i + 1] == bot[i]);
            assert(bot[i].lane(j - 4) == input[j].lane(i));
        }
    }
}

/// Number `j` of row `i`, where each row has eight numbers in two parts.
pub open spec fn wide_at(m: Seq<I32X4>, i: int, j: int) -> int {
    if j < 4 {
        m[2 * i].lane(j)
    } else {
        m[2 * i + 1].lane(j - 4)
    }
}

/// Transposes four rows of eight numbers, each of two parts, into eight rows of four.
pub fn transpose_4x8_to_8x4(input: &[I32X4; 8], into: &mut [I32X4; 8])
    ensures
        forall|i: int, j: int|
            0 <= i < 8 && 0 <= j < 4 ==> #[trigger] final(into)[i].lane(j) == wide_at(
                input@,
                j,
                i,
            ),
{
    let left_in = [input[0], input[2], input[4], input[6]];
    let mut left_out: [I32X4; 4] = [I32X4::zero(); 4];
    transpose_4x4(&left_in, &mut left_out);
    let right_in = [input[1], input[3], input[5], input[7]];
    let mut right_out: [I32X4; 4] = [I32X4::zero(); 4];
    transpose_4x4(&right_in, &mut right_out);
    into[0] = left_out[0];
    into[1] = left_out[1];
    into[2] = left_out[2];
    into[3] = left_out[3];
    into[4] = right_out[0];
    into[5] = right_out[1];
    into[6] = right_out[2];
    into[7] = right_out[3];
    assert forall|i: int, j: int| 0 <= i < 8 && 0 <= j < 4 implies #[trigger] into[i].lane(j)
        == wide_at(input@, j, i) by {
        if i < 4 {
            assert(into[i] == left_out[i]);
            assert(left_out[i].lane(j) == left_in[j].lane(i));
            assert(left_in[j] == input[2 * j]);
        } else {
            assert(into[i] == right_out[i - 4]);
            assert(right_out[i - 4].lane(j) == right_in[j].lane(i - 4));
            assert(right_in[j] == input[2 * j + 1]);
        }
    }
}

/// Transposes eight rows of eight numbers, each of two parts.
pub fn transpose_8x8(input: &[I32X4; 16], into: &mut [I32X4; 16])
    ensures
        forall|i: int, j: int|
            0 <= i < 8 && 0 <= j < 8 ==> #[trigger] wide_at(final(into)@, i, j) == wide_at(
                input@,
                j,
                i,
            ),
{
    let a_in = [input[0], input[2], input[4], input[6]];
    let b_in = [input[1], input[3], input[5], input[7]];
    let c_in = [input[8], input[10], input[12], input[14]];
    let d_in = [input[9], input[11], input[13], input[15]];
    let mut a_out: [I32X4; 4] = [I32X4::zero(); 4];
    let mut b_out: [I32X4; 4] = [I32X4::zero(); 4];
    let mut c_out: [I32X4; 4] = [I32X4::zero(); 4];
    let mut d_out: [I32X4; 4] = [I32X4::zero(); 4];
    transpose_4x4(&a_in, &mut a_out);
    transpose_4x4(&b_in, &mut b_out);
    transpose_4x4(&c_in, &mut c_out);
    transpose_4x4(&d_in, &mut d_out);
    into[0] = a_out[0];
    into[1] = c_out[0];
    into[2] = a_out[1];
    into[3] = c_out[1];
    into[4] = a_out[2];
    into[5] = c_out[2];
    into[6] = a_out[3];
    into[7] = c_out[3];
    into[8] = b_out[0];
    into[9] = d_out[0];
    into[10] = b_out[1];
    into[11] = d_out[1];
    into[12] = b_out[2];
    into[13] = d_out[2];
    into[14] = b_out[3];
    into[15] = d_out[3];
    assert forall|i: int, j: int| 0 <= i < 8 && 0 <= j < 8 implies #[trigger] wide_at(into@, i, j)
        == wide_at(input@, j, i) by {
        if i < 4 && j < 4 {
            assert(into[2 * i] == a_out[i]);
            assert(a_out[i].lane(j) == a_in[j].lane(i));
            assert(a_in[j] == input[2 * j]);
        } else if i < 4 {
            assert(into[2 * i + 1] == c_out[i]);
            assert(c_out[i].lane(j - 4) == c_in[j - 4].lane(i));
            assert(c_in[j - 4] == input[2 * j]);
        } else if j < 4 {
            assert(into[2 * i] == b_out[i - 4]);
            assert(b_out[i - 4].lane(j) == b_in[j].lane(i - 4));
            assert(b_in[j] == input[2 * j + 1]);
        } else {
            assert(into[2 * i + 1] == d_out[i - 4]);
            assert(d_out[i - 4].lane(j - 4) == d_in[j - 4].lane(i - 4));
            assert(d_in[j - 4] == input[2 * j + 1]);
        }
    }
}

// ---------------------------------------------------------------------------
// Rounding shifts
// ---------------------------------------------------------------------------

/// A left shift; bits that leave the word are lost, and the amount counts modulo 32.
pub open spec fn left_shifted(x: int, shift: int) -> int {
    wrap32(x * pow2((shift % 32) as nat))
}

/// A right shift that rounds half up; the amount counts modulo 32.
pub open spec fn right_shifted(x: int, shift: int) -> int {
    if shift > 0 {
        shr(wrap32(x + pow2(((shift - 1) % 32) as nat)), shift % 32)
    } else {
        x
    }
}

/// A shift to the right by `bit`, rounded, or to the left where `bit` is negative.
pub open spec fn round_shifted(x: int, bit: int) -> int {
    if bit >= 0 {
        right_shifted(x, bit)
    } else {
        left_shifted(x, -bit)
    }
}

/// The numbers, shifted left.
pub fn shift_left(a: I32X4, shift: u32) -> (r: I32X4)
    ensures
        forall|k: int| 0 <= k < 4 ==> #[trigger] r.lane(k) == left_shifted(a.lane(k), shift as int),
{
    let r = I32X4::new(i32x4_shl(a.data, shift));
    assert forall|k: int| 0 <= k < 4 implies #[trigger] r.lane(k) == left_shifted(
        a.lane(k),
        shift as int,
    ) by {
        assert(r.data.lane_i32(k) == wrap32(
            a.data.lane_i32(k) * pow2((shift as int % 32) as nat),
        ));
    }
    r
}

/// The numbers, shifted right and rounded.
pub fn shift_right(a: I32X4, shift: u32) -> (r: I32X4)
    ensures
        forall|k: int|
            0 <= k < 4 ==> #[trigger] r.lane(k) == right_shifted(a.lane(k), shift as int),
{
    if shift == 0 {
        return a;
    }
    let one = i32x4_splat(1);
    let rounding = i32x4_shl(one, shift - 1);
    let rounded = i32x4_add(a.data, rounding);
    let r = I32X4::new(i32x4_shr(rounded, shift));
    assert forall|k: int| 0 <= k < 4 implies #[trigger] r.lane(k) == right_shifted(
        a.lane(k),
        shift as int,
    ) by {
        let p = pow2(((shift - 1) % 32) as nat) as int;
        assert(one.lane_i32(k) == 1);
        assert(1 * p == p);
        assert(rounding.lane_i32(k) == wrap32(p));
        crate::math::lemma_wrap32_add(a.lane(k), p);
        assert(rounded.lane_i32(k) == wrap32(a.lane(k) + p));
        assert(r.data.lane_i32(k) == shr(rounded.lane_i32(k) as int, shift as int % 32));
    }
    r
}

/// Whether `now` is `before` with every number shifted.
pub open spec fn all_shifted(before: Seq<I32X4>, now: Seq<I32X4>, bit: int) -> bool {
    &&& now.len() == before.len()
    &&& forall|i: int, k: int|
        0 <= i < before.len() && 0 <= k < 4 ==> #[trigger] now[i].lane(k) == round_shifted(
            before[i].lane(k),
            bit,
        )
}

/// Shifts every number of a list.
pub fn round_shift_array(arr: &mut Vec<I32X4>, bit: i8)
    requires
        bit != -128,
    ensures
        all_shifted(old(arr)@, final(arr)@, bit as int),
{
    let ghost before = arr@;
    let n: usize = arr.len();
    let mut i: usize = 0;
    while i < n
        invariant
            i <= n,
            bit != -128,
            n == before.len(),
            arr@.len() == before.len(),
            forall|j: int, k: int|
                0 <= j < i && 0 <= k < 4 ==> #[trigger] arr@[j].lane(k) == round_shifted(
                    before[j].lane(k),
                    bit as int,
                ),
            forall|j: int| i <= j < n ==> #[trigger] arr@[j] == before[j],
        decreases n - i,
    {
        let v = arr[i];
        let w = if bit >= 0 {
            shift_right(v, bit as u32)
        } else {
            shift_left(v, (-(bit as i32)) as u32)
        };
        arr.set(i, w);
        i += 1;
    }
}

// ---------------------------------------------------------------------------
// The transform
// ---------------------------------------------------------------------------

/// How a transform is set up; `K` tells kinds of one-dimensional transforms apart.
#[derive(Debug)]
pub struct Txfm2DFlipCfg<K> {
    /// Whether the rows are read from the bottom up.
    pub ud_flip: bool,
    /// Whether the columns are written from the right.
    pub lr_flip: bool,
    /// The left shifts before the columns, between columns and rows, and after the rows.
    pub shift: [i8; 3],
    /// The kind of the transform down the columns.
    pub txfm_type_col: K,
    /// The kind of the transform along the rows.
    pub txfm_type_row: K,
}

/// The row that is read as row `r`.
pub open spec fn flipped(flip: bool, n: int, r: int) -> int {
    if flip {
        n - 1 - r
    } else {
        r
    }
}

/// Whether `v` holds the four columns of group `cg` of a block, ready for their transform.
pub open spec fn is_column_input<K: Copy>(
    v: Seq<I32X4>,
    input: Seq<i16>,
    stride: int,
    h: int,
    cg: int,
    cfg: Txfm2DFlipCfg<K>,
) -> bool {
    &&& v.len() == h
    &&& forall|r: int, l: int|
        0 <= r < h && 0 <= l < 4 ==> #[trigger] v[r].lane(l) == left_shifted(
            input[flipped(cfg.ud_flip, h, r) * stride + 4 * cg + l] as int,
            cfg.shift[0] as int,
        )
}

/// What the column transforms gave for row `r`, column `c`, shifted.
pub open spec fn column_result<K: Copy>(
    cols: Seq<Vec<I32X4>>,
    cfg: Txfm2DFlipCfg<K>,
    r: int,
    c: int,
) -> int {
    round_shifted(cols[c / 4]@[r].lane(c % 4), -(cfg.shift[1] as int))
}

/// Whether `v` holds the four rows of group `rg`, ready for their transform.
pub open spec fn is_row_input<K: Copy>(
    v: Seq<I32X4>,
    cols: Seq<Vec<I32X4>>,
    w: int,
    rg: int,
    cfg: Txfm2DFlipCfg<K>,
) -> bool {
    &&& v.len() == w
    &&& forall|c: int, l: int|
        0 <= c < w && 0 <= l < 4 ==> #[trigger] v[c].lane(l) == column_result(
            cols,
            cfg,
            4 * rg + l,
            flipped(cfg.lr_flip, w, c),
        )
}

/// What the row transforms gave for row `r`, column `c`, shifted.
pub open spec fn row_result<K: Copy>(
    rows: Seq<Vec<I32X4>>,
    cfg: Txfm2DFlipCfg<K>,
    r: int,
    c: int,
) -> int {
    round_shifted(rows[r / 4]@[c].lane(r % 4), -(cfg.shift[2] as int))
}

/// The place of the coefficient of row `r`, column `c`. Coefficients are stored by columns, in
/// squares of 32.
pub open spec fn out_index(w: int, h: int, r: int, c: int) -> int {
    let s = min_int(h, 32);
    (if r >= 32 {
        s * min_int(w, 32)
    } else {
        0
    }) + h * (32 * (c / 32)) + (c % 32) * s + r % 32
}

/// A number in the storage of a coefficient.
pub open spec fn stored<T: Coefficient>(x: int) -> int {
    if T::narrow() {
        wrap16(x)
    } else {
        x
    }
}

/// Whether `output` holds the coefficients that the row transforms gave, in their places.
pub open spec fn holds_results<K: Copy, T: Coefficient>(
    output: Seq<T>,
    rows: Seq<Vec<I32X4>>,
    w: int,
    h: int,
    cfg: Txfm2DFlipCfg<K>,
) -> bool {
    forall|r: int, c: int|
        #![trigger output[out_index(w, h, r, c)]]
        0 <= r < h && 0 <= c < w ==> output[out_index(w, h, r, c)].val() == stored::<T>(
            row_result(rows, cfg, r, c),
        )
}

/// Whether the forward transform of `input` is `output`: there are results of the column
/// transforms, and results of the row transforms, from which it is made.
pub open spec fn is_forward_transform<
    K: Copy,
    T: Coefficient,
    F: Fn(K, Vec<I32X4>) -> Vec<I32X4>,
>(
    input: Seq<i16>,
    output: Seq<T>,
    stride: int,
    w: int,
    h: int,
    cfg: Txfm2DFlipCfg<K>,
    txfm: F,
) -> bool {
    exists|cols: Seq<Vec<I32X4>>, rows: Seq<Vec<I32X4>>|
        {
            &&& #[trigger] are_columns(cols, input, stride, w, h, cfg, txfm)
            &&& #[trigger] are_rows(rows, cols, w, h, cfg, txfm)
            &&& holds_results(output, rows, w, h, cfg)
        }
}

/// Whether `cols` are results of the column transforms.
pub open spec fn are_columns<K: Copy, F: Fn(K, Vec<I32X4>) -> Vec<I32X4>>(
    cols: Seq<Vec<I32X4>>,
    input: Seq<i16>,
    stride: int,
    w: int,
    h: int,
    cfg: Txfm2DFlipCfg<K>,
    txfm: F,
) -> bool {
    &&& cols.len() == w / 4
    &&& forall|cg: int|
        0 <= cg < w / 4 ==> is_column_result(
            #[trigger] cols[cg],
            input,
            stride,
            h,
            cg,
            cfg,
            txfm,
        )
}

/// Whether `o` is a result of the transform of the columns of group `cg`.
pub open spec fn is_column_result<K: Copy, F: Fn(K, Vec<I32X4>) -> Vec<I32X4>>(
    o: Vec<I32X4>,
    input: Seq<i16>,
    stride: int,
    h: int,
    cg: int,
    cfg: Txfm2DFlipCfg<K>,
    txfm: F,
) -> bool {
    exists|v: Vec<I32X4>|
        is_column_input(v@, input, stride, h, cg, cfg) && #[trigger] call_ensures(
            txfm,
            (cfg.txfm_type_col, v),
            o,
        )
}

/// Whether `rows` are results of the row transforms.
pub open spec fn are_rows<K: Copy, F: Fn(K, Vec<I32X4>) -> Vec<I32X4>>(
    rows: Seq<Vec<I32X4>>,
    cols: Seq<Vec<I32X4>>,
    w: int,
    h: int,
    cfg: Txfm2DFlipCfg<K>,
    txfm: F,
) -> bool {
    &&& rows.len() == h / 4
    &&& forall|rg: int|
        0 <= rg < h / 4 ==> is_row_result(#[trigger] rows[rg], cols, w, rg, cfg, txfm)
}

/// Whether `o` is a result of the transform of the rows of group `rg`.
pub open spec fn is_row_result<K: Copy, F: Fn(K, Vec<I32X4>) -> Vec<I32X4>>(
    o: Vec<I32X4>,
    cols: Seq<Vec<I32X4>>,
    w: int,
    rg: int,
    cfg: Txfm2DFlipCfg<K>,
    txfm: F,
) -> bool {
    exists|v: Vec<I32X4>|
        is_row_input(v@, cols, w, rg, cfg) && #[trigger] call_ensures(
            txfm,
            (cfg.txfm_type_row, v),
            o,
        )
}

/// Whether the transform of a kind takes lists of `n`, and gives lists of `n`.
pub open spec fn transforms<K: Copy, F: Fn(K, Vec<I32X4>) -> Vec<I32X4>>(
    f: F,
    kind: K,
    n: int,
) -> bool {
    &&& forall|v: Vec<I32X4>| v@.len() == n ==> #[trigger] call_requires(f, (kind, v))
    &&& forall|v: Vec<I32X4>, o: Vec<I32X4>|
        v@.len() == n && #[trigger] call_ensures(f, (kind, v), o) ==> o@.len() == n
}

/// The place of a coefficient in numbers of 32 rows or fewer, and in 64 rows.
pub proof fn lemma_out_index(w: int, h: int, r: int, c: int)
    requires
        is_tx_side(w),
        is_tx_side(h),
        0 <= r < h,
        0 <= c < w,
    ensures
        h <= 32 ==> out_index(w, h, r, c) == c * h + r,
        h == 64 ==> out_index(w, h, r, c) == (if r >= 32 {
            32 * min_int(w, 32)
        } else {
            0
        }) + 2048 * (c / 32) + 32 * (c % 32) + r % 32,
        0 <= out_index(w, h, r, c) < w * h,
{
    let q = c / 32;
    let m = c % 32;
    if h <= 32 {
        assert(h * (32 * q) + m * h == c * h) by (nonlinear_arith)
            requires
                c == 32 * q + m,
        ;
        assert(c * h + r < w * h && c * h >= 0) by (nonlinear_arith)
            requires
                0 <= c <= w - 1,
                0 <= r < h,
        ;
    } else {
        assert(h * (32 * q) == 2048 * q) by (nonlinear_arith)
            requires
                h == 64,
        ;
        assert(w * h == 64 * w) by (nonlinear_arith)
            requires
                h == 64,
        ;
        let s = min_int(h, 32);
        let t = min_int(w, 32);
        assert(s * t == 32 * t && m * s == 32 * m) by (nonlinear_arith)
            requires
                s == 32,
        ;
    }
}

/// No two coefficients share a place.
pub proof fn lemma_out_index_unique(w: int, h: int, r: int, c: int, r2: int, c2: int)
    requires
        is_tx_side(w),
        is_tx_side(h),
        0 <= r < h,
        0 <= c < w,
        0 <= r2 < h,
        0 <= c2 < w,
        out_index(w, h, r, c) == out_index(w, h, r2, c2),
    ensures
        r == r2,
        c == c2,
{
    lemma_out_index(w, h, r, c);
    lemma_out_index(w, h, r2, c2);
    if h <= 32 {
        vstd::arithmetic::div_mod::lemma_fundamental_div_mod_converse(c * h + r, h, c, r);
        vstd::arithmetic::div_mod::lemma_fundamental_div_mod_converse(c2 * h + r2, h, c2, r2);
    }
}

/// Every coefficient has its place among the first `w * h`.
pub proof fn lemma_out_index_range(w: int, h: int, r: int, c: int)
    requires
        is_tx_side(w),
        is_tx_side(h),
        0 <= r < h,
        0 <= c < w,
    ensures
        0 <= out_index(w, h, r, c) < w * h,
{
    lemma_out_index(w, h, r, c);
}

/// The place of a coefficient.
fn out_index_of(w: usize, h: usize, r: usize, c: usize) -> (k: usize)
    requires
        is_tx_side(w as int),
        is_tx_side(h as int),
        r < h,
        c < w,
    ensures
        k == out_index(w as int, h as int, r as int, c as int),
        k < w * h,
{
    proof {
        lemma_out_index(w as int, h as int, r as int, c as int);
        assert(c * h <= 4096) by (nonlinear_arith)
            requires
                0 <= c <= 64,
                0 <= h <= 64,
        ;
    }
    if h <= 32 {
        c * h + r
    } else {
        let base: usize = if r >= 32 {
            32 * min_usize(w, 32)
        } else {
            0
        };
        base + 2048 * (c / 32) + 32 * (c % 32) + r % 32
    }
}

/// Number `k`.
fn lane_of(v: I32X4, k: usize) -> (r: i32)
    requires
        k < 4,
    ensures
        r == v.lane(k as int),
{
    if k == 0 {
        v.data.e0
    } else if k == 1 {
        v.data.e1
    } else if k == 2 {
        v.data.e2
    } else {
        v.data.e3
    }
}

/// A left shift by a signed amount, which counts modulo 32.
fn shift_left_by(v: I32X4, shift: i8) -> (r: I32X4)
    ensures
        forall|k: int| 0 <= k < 4 ==> #[trigger] r.lane(k) == left_shifted(v.lane(k), shift as int),
{
    let s: u32 = (shift as i32 + 128) as u32;
    assert(s as int % 32 == shift as int % 32);
    let r = shift_left(v, s);
    assert forall|k: int| 0 <= k < 4 implies #[trigger] r.lane(k) == left_shifted(
        v.lane(k),
        shift as int,
    ) by {
        assert(r.lane(k) == left_shifted(v.lane(k), s as int));
    }
    r
}

/// The four columns of group `cg` of a block, ready for their transform.
pub fn column_input<K: Copy>(
    input: &[i16],
    stride: usize,
    h: usize,
    cg: usize,
    cfg: &Txfm2DFlipCfg<K>,
) -> (r: Vec<I32X4>)
    requires
        0 < h <= 64,
        cg < 16,
        (h - 1) * stride + 4 * cg + 4 <= input@.len(),
    ensures
        is_column_input(r@, input@, stride as int, h as int, cg as int, *cfg),
{
    let mut v: Vec<I32X4> = Vec::new();
    let len: usize = input.len();
    assert(len == input@.len());
    let mut r: usize = 0;
    while r < h
        invariant
            r <= h <= 64,
            0 < h,
            cg < 16,
            len == input@.len(),
            (h - 1) * stride + 4 * cg + 4 <= input@.len(),
            v@.len() == r,
            forall|i: int, l: int|
                0 <= i < r && 0 <= l < 4 ==> #[trigger] v@[i].lane(l) == left_shifted(
                    input@[flipped(cfg.ud_flip, h as int, i) * stride + 4 * cg + l] as int,
                    cfg.shift[0] as int,
                ),
        decreases h - r,
    {
        let src: usize = if cfg.ud_flip {
            h - 1 - r
        } else {
            r
        };
        proof {
            assert(0 <= src * stride <= (h - 1) * stride) by (nonlinear_arith)
                requires
                    0 <= src <= h - 1,
                    0 <= stride,
            ;
        }
        let at: usize = src * stride + 4 * cg;
        let x = I32X4::new(
            i32x4(
                input[at] as i32,
                input[at + 1] as i32,
                input[at + 2] as i32,
                input[at + 3] as i32,
            ),
        );
        let y = shift_left_by(x, cfg.shift[0]);
        proof {
            assert forall|l: int| 0 <= l < 4 implies #[trigger] y.lane(l) == left_shifted(
                input@[flipped(cfg.ud_flip, h as int, r as int) * stride + 4 * cg + l] as int,
                cfg.shift[0] as int,
            ) by {
                assert(x.lane(l) == input@[at + l]);
            }
        }
        v.push(y);
        r += 1;
    }
    v
}

/// The four rows of group `rg`, ready for their transform, from the shifted results of the column
/// transforms.
fn row_input<K: Copy>(
    shifted: &Vec<Vec<I32X4>>,
    w: usize,
    h: usize,
    rg: usize,
    cfg: &Txfm2DFlipCfg<K>,
    Ghost(cols): Ghost<Seq<Vec<I32X4>>>,
) -> (r: Vec<I32X4>)
    requires
        is_tx_side(w as int),
        is_tx_side(h as int),
        rg < h / 4,
        shifted@.len() == w / 4,
        cols.len() == w / 4,
        forall|j: int|
            0 <= j < w / 4 ==> (#[trigger] cols[j])@.len() == h && all_shifted(
                cols[j]@,
                shifted@[j]@,
                -(cfg.shift[1] as int),
            ),
    ensures
        is_row_input(r@, cols, w as int, rg as int, *cfg),
{
    let mut v: Vec<I32X4> = Vec::new();
    let groups: usize = w / 4;
    let mut n: usize = 0;
    while n < groups
        invariant
            n <= groups,
            groups == w / 4,
            is_tx_side(w as int),
            is_tx_side(h as int),
            rg < h / 4,
            shifted@.len() == groups,
            cols.len() == groups,
            forall|j: int|
                0 <= j < groups ==> (#[trigger] cols[j])@.len() == h && all_shifted(
                    cols[j]@,
                    shifted@[j]@,
                    -(cfg.shift[1] as int),
                ),
            v@.len() == 4 * n,
            forall|c: int, l: int|
                0 <= c < 4 * n && 0 <= l < 4 ==> #[trigger] v@[c].lane(l) == column_result(
                    cols,
                    *cfg,
                    4 * rg + l,
                    flipped(cfg.lr_flip, w as int, c),
                ),
        decreases groups - n,
    {
        let cg: usize = if cfg.lr_flip {
            groups - 1 - n
        } else {
            n
        };
        proof {
            assert(cols[cg as int]@.len() == h);
            assert(all_shifted(
                cols[cg as int]@,
                shifted@[cg as int]@,
                -(cfg.shift[1] as int),
            ));
        }
        let col = &shifted[cg];
        let block = [col[4 * rg], col[4 * rg + 1], col[4 * rg + 2], col[4 * rg + 3]];
        let mut t: [I32X4; 4] = [I32X4::zero(); 4];
        transpose_4x4(&block, &mut t);
        let ghost prev = v@;
        if cfg.lr_flip {
            v.push(t[3]);
            v.push(t[2]);
            v.push(t[1]);
            v.push(t[0]);
        } else {
            v.push(t[0]);
            v.push(t[1]);
            v.push(t[2]);
            v.push(t[3]);
        }
        proof {
            assert forall|c: int, l: int| 0 <= c < 4 * n + 4 && 0 <= l < 4 implies #[trigger] v@[c].lane(
                l,
            ) == column_result(cols, *cfg, 4 * rg + l, flipped(cfg.lr_flip, w as int, c)) by {
                if c < 4 * n {
                    assert(v@[c] == prev[c]);
                    assert(prev[c].lane(l) == column_result(
                        cols,
                        *cfg,
                        4 * rg + l,
                        flipped(cfg.lr_flip, w as int, c),
                    ));
                } else {
                    let i = c - 4 * n;
                    let k = if cfg.lr_flip {
                        3 - i
                    } else {
                        i
                    };
                    assert(v@[c] == t[k]);
                    let src = flipped(cfg.lr_flip, w as int, c);
                    assert(src == 4 * cg + k);
                    assert(src / 4 == cg && src % 4 == k);
                    assert(t[k].lane(l) == block[l].lane(k));
                    assert(block[l] == col@[4 * rg + l]);
                    assert(shifted@[cg as int]@[4 * rg + l].lane(k) == round_shifted(
                        cols[cg as int]@[4 * rg + l].lane(k),
                        -(cfg.shift[1] as int),
                    ));
                }
            }
        }
        n += 1;
    }
    v
}

/// Puts the shifted results of the row transforms in their places.
fn store_results<K: Copy, T: Coefficient>(
    output: &mut [T],
    shifted: &Vec<Vec<I32X4>>,
    w: usize,
    h: usize,
    cfg: &Txfm2DFlipCfg<K>,
    Ghost(rows): Ghost<Seq<Vec<I32X4>>>,
)
    requires
        is_tx_side(w as int),
        is_tx_side(h as int),
        w * h <= old(output)@.len(),
        shifted@.len() == h / 4,
        rows.len() == h / 4,
        forall|j: int|
            0 <= j < h / 4 ==> (#[trigger] rows[j])@.len() == w && all_shifted(
                rows[j]@,
                shifted@[j]@,
                -(cfg.shift[2] as int),
            ),
    ensures
        holds_results(final(output)@, rows, w as int, h as int, *cfg),
        final(output)@.len() == old(output)@.len(),
        forall|k: int|
            w * h <= k < old(output)@.len() ==> #[trigger] final(output)@[k] == old(output)@[k],
{
    let ghost before = output@;
    let mut r: usize = 0;
    while r < h
        invariant
            r <= h,
            is_tx_side(w as int),
            is_tx_side(h as int),
            w * h <= before.len(),
            output@.len() == before.len(),
            shifted@.len() == h / 4,
            rows.len() == h / 4,
            forall|j: int|
                0 <= j < h / 4 ==> (#[trigger] rows[j])@.len() == w && all_shifted(
                    rows[j]@,
                    shifted@[j]@,
                    -(cfg.shift[2] as int),
                ),
            forall|a: int, b: int|
                #![trigger output@[out_index(w as int, h as int, a, b)]]
                0 <= a < r && 0 <= b < w ==> output@[out_index(w as int, h as int, a, b)].val()
                    == stored::<T>(row_result(rows, *cfg, a, b)),
            forall|k: int| w * h <= k < before.len() ==> #[trigger] output@[k] == before[k],
        decreases h - r,
    {
        proof {
            assert(rows[r as int / 4]@.len() == w);
            assert(all_shifted(
                rows[r as int / 4]@,
                shifted@[r as int / 4]@,
                -(cfg.shift[2] as int),
            ));
        }
        let line = &shifted[r / 4];
        let mut c: usize = 0;
        while c < w
            invariant
                c <= w,
                r < h,
                is_tx_side(w as int),
                is_tx_side(h as int),
                w * h <= before.len(),
                output@.len() == before.len(),
                rows[r as int / 4]@.len() == w,
                line@.len() == w,
                all_shifted(rows[r as int / 4]@, line@, -(cfg.shift[2] as int)),
                forall|a: int, b: int|
                    #![trigger output@[out_index(w as int, h as int, a, b)]]
                    0 <= a < h && 0 <= b < w && (a < r || (a == r && b < c)) ==> output@[out_index(
                        w as int,
                        h as int,
                        a,
                        b,
                    )].val() == stored::<T>(row_result(rows, *cfg, a, b)),
                forall|k: int| w * h <= k < before.len() ==> #[trigger] output@[k] == before[k],
            decreases w - c,
        {
            let k: usize = out_index_of(w, h, r, c);
            let v: i32 = lane_of(line[c], r % 4);
            let ghost prev = output@;
            output[k] = T::cast_from(v);
            proof {
                assert(v == row_result(rows, *cfg, r as int, c as int)) by {
                    assert(line@[c as int].lane(r as int % 4) == round_shifted(
                        rows[r as int / 4]@[c as int].lane(r as int % 4),
                        -(cfg.shift[2] as int),
                    ));
                }
                assert forall|a: int, b: int|
                    #![trigger output@[out_index(w as int, h as int, a, b)]]
                    0 <= a < h && 0 <= b < w && (a < r || (a == r && b < c + 1)) implies output@[out_index(
                    w as int,
                    h as int,
                    a,
                    b,
                )].val() == stored::<T>(row_result(rows, *cfg, a, b)) by {
                    lemma_out_index_range(w as int, h as int, a, b);
                    if out_index(w as int, h as int, a, b) == k {
                        lemma_out_index_unique(w as int, h as int, a, b, r as int, c as int);
                    } else {
                        assert(output@[out_index(w as int, h as int, a, b)] == prev[out_index(
                            w as int,
                            h as int,
                            a,
                            b,
                        )]);
                        assert(a < r || b < c);
                    }
                }
            }
            c += 1;
        }
        r += 1;
    }
}

/// The forward transform, four columns and then four rows at a time.
fn forward_transform_simd128<
    K: Copy,
    T: Coefficient,
    F: Fn(K, Vec<I32X4>) -> Vec<I32X4>,
>(
    input: &[i16],
    output: &mut [T],
    stride: usize,
    w: usize,
    h: usize,
    cfg: &Txfm2DFlipCfg<K>,
    txfm: F,
)
    requires
        is_tx_side(w as int),
        is_tx_side(h as int),
        (h - 1) * stride + w <= input@.len(),
        w * h <= old(output)@.len(),
        cfg.shift[1] != -128,
        cfg.shift[2] != -128,
        transforms(txfm, cfg.txfm_type_col, h as int),
        transforms(txfm, cfg.txfm_type_row, w as int),
    ensures
        is_forward_transform(
            input@,
            final(output)@,
            stride as int,
            w as int,
            h as int,
            *cfg,
            txfm,
        ),
        final(output)@.len() == old(output)@.len(),
        forall|k: int|
            w * h <= k < old(output)@.len() ==> #[trigger] final(output)@[k] == old(output)@[k],
{
    let mid_bit: i8 = -cfg.shift[1];
    let end_bit: i8 = -cfg.shift[2];
    let ghost mut cols: Seq<Vec<I32X4>> = Seq::empty();
    let mut col_shifted: Vec<Vec<I32X4>> = Vec::new();
    let groups: usize = w / 4;
    let mut cg: usize = 0;
    while cg < groups
        invariant
            cg <= groups,
            groups == w / 4,
            is_tx_side(w as int),
            is_tx_side(h as int),
            (h - 1) * stride + w <= input@.len(),
            mid_bit == -(cfg.shift[1] as int),
            mid_bit != -128,
            transforms(txfm, cfg.txfm_type_col, h as int),
            cols.len() == cg,
            col_shifted@.len() == cg,
            forall|j: int|
                0 <= j < cg ==> (#[trigger] cols[j])@.len() == h && all_shifted(
                    cols[j]@,
                    col_shifted@[j]@,
                    mid_bit as int,
                ),
            forall|j: int|
                0 <= j < cg ==> is_column_result(
                    #[trigger] cols[j],
                    input@,
                    stride as int,
                    h as int,
                    j,
                    *cfg,
                    txfm,
                ),
        decreases groups - cg,
    {
        let v = column_input(input, stride, h, cg, cfg);
        let ghost given = v;
        let mut o = txfm(cfg.txfm_type_col, v);
        let ghost raw = o;
        round_shift_array(&mut o, mid_bit);
        let ghost prev = cols;
        proof {
            cols = cols.push(raw);
            assert(call_ensures(txfm, (cfg.txfm_type_col, given), cols[cg as int]));
            assert forall|j: int| 0 <= j < cg + 1 implies is_column_result(
                #[trigger] cols[j],
                input@,
                stride as int,
                h as int,
                j,
                *cfg,
                txfm,
            ) by {
                if j < cg {
                    assert(cols[j] == prev[j]);
                }
            }
        }
        col_shifted.push(o);
        cg += 1;
    }
    let ghost mut rows: Seq<Vec<I32X4>> = Seq::empty();
    let mut row_shifted: Vec<Vec<I32X4>> = Vec::new();
    let row_groups: usize = h / 4;
    let mut rg: usize = 0;
    while rg < row_groups
        invariant
            rg <= row_groups,
            row_groups == h / 4,
            is_tx_side(w as int),
            is_tx_side(h as int),
            end_bit == -(cfg.shift[2] as int),
            end_bit != -128,
            transforms(txfm, cfg.txfm_type_row, w as int),
            cols.len() == w / 4,
            col_shifted@.len() == w / 4,
            forall|j: int|
                0 <= j < w / 4 ==> (#[trigger] cols[j])@.len() == h && all_shifted(
                    cols[j]@,
                    col_shifted@[j]@,
                    -(cfg.shift[1] as int),
                ),
            rows.len() == rg,
            row_shifted@.len() == rg,
            forall|j: int|
                0 <= j < rg ==> (#[trigger] rows[j])@.len() == w && all_shifted(
                    rows[j]@,
                    row_shifted@[j]@,
                    end_bit as int,
                ),
            forall|j: int|
                0 <= j < rg ==> is_row_result(
                    #[trigger] rows[j],
                    cols,
                    w as int,
                    j,
                    *cfg,
                    txfm,
                ),
        decreases row_groups - rg,
    {
        let v = row_input(&col_shifted, w, h, rg, cfg, Ghost(cols));
        let ghost given = v;
        let mut o = txfm(cfg.txfm_type_row, v);
        let ghost raw = o;
        round_shift_array(&mut o, end_bit);
        let ghost prev = rows;
        proof {
            rows = rows.push(raw);
            assert(call_ensures(txfm, (cfg.txfm_type_row, given), rows[rg as int]));
            assert forall|j: int| 0 <= j < rg + 1 implies is_row_result(
                #[trigger] rows[j],
                cols,
                w as int,
                j,
                *cfg,
                txfm,
            ) by {
                if j < rg {
                    assert(rows[j] == prev[j]);
                }
            }
        }
        row_shifted.push(o);
        rg += 1;
    }
    store_results(output, &row_shifted, w, h, cfg, Ghost(rows));
    proof {
        assert(are_columns(cols, input@, stride as int, w as int, h as int, *cfg, txfm));
        assert(are_rows(rows, cols, w as int, h as int, *cfg, txfm));
    }
}

/// Whether a test of sizes and kinds of transforms accepts the given ones.
pub open spec fn accepts<V: Fn(TxSize, TxType) -> bool>(
    valid: V,
    tx_size: TxSize,
    tx_type: TxType,
) -> bool {
    &&& call_requires(valid, (tx_size, tx_type))
    &&& forall|b: bool| #[trigger] call_ensures(valid, (tx_size, tx_type), b) ==> b
}

/// The forward transform of a block of residuals.
///
/// Not every kind of transform is there in every size: the size and the kind have to be a
/// combination that `valid` accepts. `configure` tells for the kind, the size and the bit depth
/// how the block is flipped, how the numbers are shifted and which one-dimensional transforms are
/// applied. `txfm` applies one of these to four columns, or four rows, at a time. The residuals of
/// a row are `stride` entries apart from those of the next. The coefficients are stored by
/// columns, in squares of 32.
pub fn forward_transform<
    K: Copy,
    T: Coefficient,
    F: Fn(K, Vec<I32X4>) -> Vec<I32X4>,
    G: FnOnce(TxType, TxSize, usize) -> Txfm2DFlipCfg<K>,
    V: Fn(TxSize, TxType) -> bool,
>(
    input: &[i16],
    output: &mut [T],
    stride: usize,
    tx_size: TxSize,
    tx_type: TxType,
    bd: usize,
    _cpu: CpuFeatureLevel,
    valid: V,
    configure: G,
    txfm: F,
)
    requires
        accepts(valid, tx_size, tx_type),
        (tx_size.dims().1 - 1) * stride + tx_size.dims().0 <= input@.len(),
        tx_size.dims().0 * tx_size.dims().1 <= old(output)@.len(),
        call_requires(configure, (tx_type, tx_size, bd)),
        forall|cfg: Txfm2DFlipCfg<K>|
            #[trigger] call_ensures(configure, (tx_type, tx_size, bd), cfg) ==> {
                &&& cfg.shift[1] != -128
                &&& cfg.shift[2] != -128
                &&& transforms(txfm, cfg.txfm_type_col, tx_size.dims().1)
                &&& transforms(txfm, cfg.txfm_type_row, tx_size.dims().0)
            },
    ensures
        exists|cfg: Txfm2DFlipCfg<K>|
            #[trigger] call_ensures(configure, (tx_type, tx_size, bd), cfg) && is_forward_transform(
                input@,
                final(output)@,
                stride as int,
                tx_size.dims().0,
                tx_size.dims().1,
                cfg,
                txfm,
            ),
        final(output)@.len() == old(output)@.len(),
        forall|k: int|
            tx_size.dims().0 * tx_size.dims().1 <= k < old(output)@.len()
                ==> #[trigger] final(output)@[k] == old(output)@[k],
{
    proof {
        lemma_tx_dims(tx_size);
    }
    let _accepted = valid(tx_size, tx_type);
    assert(_accepted);
    let cfg = configure(tx_type, tx_size, bd);
    let w: usize = tx_size.width();
    let h: usize = tx_size.height();
    forward_transform_simd128(input, output, stride, w, h, &cfg, txfm)
}

/// Whether the transform of a kind gives zeros for `n` zeros.
pub open spec fn keeps_zeros<K: Copy, F: Fn(K, Vec<I32X4>) -> Vec<I32X4>>(
    f: F,
    kind: K,
    n: int,
) -> bool {
    forall|v: Vec<I32X4>, o: Vec<I32X4>|
        v@.len() == n && all_zero(v@) && #[trigger] call_ensures(f, (kind, v), o) ==> o@.len() == n
            && all_zero(o@)
}

/// Whether all lanes of a list are zero.
pub open spec fn all_zero(v: Seq<I32X4>) -> bool {
    forall|i: int, l: int| 0 <= i < v.len() && 0 <= l < 4 ==> #[trigger] v[i].lane(l) == 0
}

/// Zero stays zero under a left shift.
proof fn lemma_zero_left(shift: int)
    ensures
        left_shifted(0, shift) == 0,
{
    let a = pow2((shift % 32) as nat);
    assert(0 * a == 0);
}

/// Whether a rounding shift keeps zero: what it adds before a shift to the right is shifted out
/// again, unless the amount counts as nothing.
pub open spec fn shifts_out(bit: int) -> bool {
    bit <= 0 || bit % 32 != 0
}

/// Zero stays zero under a rounding shift.
proof fn lemma_zero_shift(bit: int)
    requires
        shifts_out(bit),
    ensures
        round_shifted(0, bit) == 0,
{
    if bit > 0 {
        let s = bit % 32;
        assert((bit - 1) % 32 == s - 1);
        vstd::arithmetic::power2::lemma2_to64();
        vstd::arithmetic::power2::lemma_pow2_pos((s - 1) as nat);
        vstd::arithmetic::power2::lemma_pow2_strictly_increases((s - 1) as nat, s as nat);
        vstd::arithmetic::power2::lemma_pow2_strictly_increases((s - 1) as nat, 31);
        let a = pow2((s - 1) as nat) as int;
        let b = pow2(s as nat) as int;
        assert(a / b == 0) by (nonlinear_arith)
            requires
                0 <= a < b,
        ;
    } else {
        lemma_zero_left(-bit);
    }
}

/// Where the one-dimensional transforms give zeros for zeros, and the shifts after them keep zero,
/// so does the forward transform.
pub proof fn lemma_forward_zeros<
    K: Copy,
    T: Coefficient,
    F: Fn(K, Vec<I32X4>) -> Vec<I32X4>,
>(
    input: Seq<i16>,
    output: Seq<T>,
    stride: int,
    tx_size: TxSize,
    cfg: Txfm2DFlipCfg<K>,
    txfm: F,
    r: int,
    c: int,
)
    requires
        0 <= stride,
        (tx_size.dims().1 - 1) * stride + tx_size.dims().0 <= input.len(),
        forall|k: int| 0 <= k < input.len() ==> #[trigger] input[k] == 0,
        is_forward_transform(
            input,
            output,
            stride,
            tx_size.dims().0,
            tx_size.dims().1,
            cfg,
            txfm,
        ),
        keeps_zeros(txfm, cfg.txfm_type_col, tx_size.dims().1),
        keeps_zeros(txfm, cfg.txfm_type_row, tx_size.dims().0),
        shifts_out(-(cfg.shift[1] as int)),
        shifts_out(-(cfg.shift[2] as int)),
        0 <= r < tx_size.dims().1,
        0 <= c < tx_size.dims().0,
    ensures
        output[out_index(tx_size.dims().0, tx_size.dims().1, r, c)].val() == 0,
{
    lemma_tx_dims(tx_size);
    let w = tx_size.dims().0;
    let h = tx_size.dims().1;
    let (cols, rows) = choose|cols: Seq<Vec<I32X4>>, rows: Seq<Vec<I32X4>>|
        {
            &&& #[trigger] are_columns(cols, input, stride, w, h, cfg, txfm)
            &&& #[trigger] are_rows(rows, cols, w, h, cfg, txfm)
            &&& holds_results(output, rows, w, h, cfg)
        };
    assert forall|cg: int| 0 <= cg < w / 4 implies (#[trigger] cols[cg])@.len() == h && all_zero(
        cols[cg]@,
    ) by {
        assert(is_column_result(cols[cg], input, stride, h, cg, cfg, txfm));
        let v = choose|v: Vec<I32X4>|
            is_column_input(v@, input, stride, h, cg, cfg) && #[trigger] call_ensures(
                txfm,
                (cfg.txfm_type_col, v),
                cols[cg],
            );
        assert forall|i: int, l: int| 0 <= i < v@.len() && 0 <= l < 4 implies #[trigger] v@[i].lane(
            l,
        ) == 0 by {
            let y = flipped(cfg.ud_flip, h, i);
            assert(0 <= y * stride <= (h - 1) * stride) by (nonlinear_arith)
                requires
                    0 <= y <= h - 1,
                    0 <= stride,
            ;
            assert(input[y * stride + 4 * cg + l] == 0);
            lemma_zero_left(cfg.shift[0] as int);
        }
    }
    lemma_zero_shift(-(cfg.shift[1] as int));
    lemma_zero_shift(-(cfg.shift[2] as int));
    let rg = r / 4;
    assert(is_row_result(rows[rg], cols, w, rg, cfg, txfm));
    let v = choose|v: Vec<I32X4>|
        is_row_input(v@, cols, w, rg, cfg) && #[trigger] call_ensures(
            txfm,
            (cfg.txfm_type_row, v),
            rows[rg],
        );
    assert forall|i: int, l: int| 0 <= i < v@.len() && 0 <= l < 4 implies #[trigger] v@[i].lane(l)
        == 0 by {
        let x = flipped(cfg.lr_flip, w, i);
        assert(cols[x / 4]@[4 * rg + l].lane(x % 4) == 0);
    }
    assert(rows[rg]@[c].lane(r % 4) == 0);
    lemma_out_index_range(w, h, r, c);
    let k = out_index(w, h, r, c);
    assert(output[k].val() == stored::<T>(row_result(rows, cfg, r, c)));
}

/// Transposing twice gives back what was there.
pub proof fn lemma_transpose_twice(a: Seq<I32X4>, b: Seq<I32X4>, c: Seq<I32X4>)
    requires
        forall|i: int, j: int|
            0 <= i < 8 && 0 <= j < 8 ==> #[trigger] wide_at(b, i, j) == wide_at(a, j, i),
        forall|i: int, j: int|
            0 <= i < 8 && 0 <= j < 8 ==> #[trigger] wide_at(c, i, j) == wide_at(b, j, i),
    ensures
        forall|i: int, j: int|
            0 <= i < 8 && 0 <= j < 8 ==> #[trigger] wide_at(c, i, j) == wide_at(a, i, j),
{
    assert forall|i: int, j: int| 0 <= i < 8 && 0 <= j < 8 implies #[trigger] wide_at(c, i, j)
        == wide_at(a, i, j) by {
        assert(wide_at(b, j, i) == wide_at(a, i, j));
    }
}

/// Eight rows of four, transposed to four rows of eight and back, are what they were.
pub proof fn lemma_transpose_back(a: Seq<I32X4>, b: Seq<I32X4>, c: Seq<I32X4>)
    requires
        forall|i: int, j: int|
            0 <= i < 4 && 0 <= j < 8 ==> #[trigger] wide_at(b, i, j) == a[j].lane(i),
        forall|i: int, j: int|
            0 <= i < 8 && 0 <= j < 4 ==> #[trigger] c[i].lane(j) == wide_at(b, j, i),
    ensures
        forall|i: int, j: int| 0 <= i < 8 && 0 <= j < 4 ==> #[trigger] c[i].lane(j) == a[i].lane(j),
{
    assert forall|i: int, j: int| 0 <= i < 8 && 0 <= j < 4 implies #[trigger] c[i].lane(j)
        == a[i].lane(j) by {
        assert(wide_at(b, j, i) == a[i].lane(j));
    }
}

} // verus!
