//! The inverse transform: coefficients become residuals, which are added to a prediction.

use crate::arch::{
    i32x4, i32x4_add, i32x4_extract_lane, i32x4_max, i32x4_min, i32x4_mul, i32x4_shr, i32x4_splat,
    i32x4_sub, v128,
};
use crate::cpu_features::CpuFeatureLevel;
use crate::math::{clamp, clamp_int, exp2_i32, lemma_wrap32_add, max_int, shr, wrap32};
use crate::pixel::{Coefficient, pixel_range, Sample};
use crate::plane::{PlaneRegion, PlaneRegionMut};
use crate::portable::{block_of, store_block};
use crate::transform::forward::{I32X4, transpose_4x4};
use crate::transform::{TxSize, TxType};
use vstd::arithmetic::power2::pow2;
use vstd::prelude::*;

verus! {

broadcast use {crate::math::group_wrap, crate::vector::group_lanes};

/// `4096 * cos(32 * pi / 128)`.
pub const COSPI_32: i32 = 2896;

/// `4096 * cos(16 * pi / 128)`.
pub const COSPI_16: i32 = 3784;

/// `4096 * cos(48 * pi / 128)`.
pub const COSPI_48: i32 = 1567;

/// The bits of the cosines.
pub const INV_COS_BIT: u32 = 12;

/// Half of a butterfly: a weighted sum of two numbers, rounded. The sum wraps to 32 bits.
pub open spec fn half_btf(w0: int, a: int, w1: int, b: int) -> int {
    shr(wrap32(a * w0 + b * w1 + 2048), 12)
}

/// A number brought into the range of `range + 1` bits.
pub open spec fn clamp_range(x: int, range: int) -> int {
    clamp_int(x, -(pow2(range as nat) as int), pow2(range as nat) - 1)
}

/// Number `k` of the inverse cosine transform of four numbers.
pub open spec fn idct4(x0: int, x1: int, x2: int, x3: int, range: int, k: int) -> int {
    let s0 = half_btf(COSPI_32 as int, x0, COSPI_32 as int, x2);
    let s1 = half_btf(COSPI_32 as int, x0, -COSPI_32, x2);
    let s2 = half_btf(COSPI_48 as int, x1, -COSPI_16, x3);
    let s3 = half_btf(COSPI_16 as int, x1, COSPI_48 as int, x3);
    clamp_range(
        if k == 0 {
            s0 + s3
        } else if k == 1 {
            s1 + s2
        } else if k == 2 {
            s1 - s2
        } else {
            s0 - s3
        },
        range,
    )
}

/// The coefficient of row `r`, column `c` of a 4x4 block: coefficients are stored by columns.
pub open spec fn coeff_at<C: Coefficient>(input: Seq<C>, r: int, c: int) -> int {
    input[4 * c + r].val()
}

/// The first pass: row `r`, transformed, at column `c`.
pub open spec fn row_pass<C: Coefficient>(input: Seq<C>, bd: int, r: int, c: int) -> int {
    idct4(
        coeff_at(input, r, 0),
        coeff_at(input, r, 1),
        coeff_at(input, r, 2),
        coeff_at(input, r, 3),
        bd + 8,
        c,
    )
}

/// The second pass: column `c` of the first pass, transformed, at row `r`.
pub open spec fn column_pass<C: Coefficient>(input: Seq<C>, bd: int, r: int, c: int) -> int {
    idct4(
        row_pass(input, bd, 0, c),
        row_pass(input, bd, 1, c),
        row_pass(input, bd, 2, c),
        row_pass(input, bd, 3, c),
        max_int(bd, 10) + 6,
        r,
    )
}

/// The residual of row `r`, column `c`: a sixteenth of the second pass, rounded half up.
pub open spec fn residual_4x4<C: Coefficient>(input: Seq<C>, bd: int, r: int, c: int) -> int {
    shr(column_pass(input, bd, r, c) + 8, 4)
}

/// A sample and its residual, in the range of samples.
pub open spec fn reconstructed(sample: int, residual: int, bd: int) -> int {
    clamp_int(sample + residual, 0, pow2(bd as nat) - 1)
}

/// Four half butterflies.
fn half_btf_simd(w0: i32, a: v128, w1: i32, b: v128) -> (r: v128)
    ensures
        forall|k: int|
            0 <= k < 4 ==> #[trigger] r.lane_i32(k) == half_btf(
                w0 as int,
                a.lane_i32(k) as int,
                w1 as int,
                b.lane_i32(k) as int,
            ),
{
    let w0_vec = i32x4_splat(w0);
    let w1_vec = i32x4_splat(w1);
    let round = i32x4_splat(2048);
    let prod0 = i32x4_mul(a, w0_vec);
    let prod1 = i32x4_mul(b, w1_vec);
    let pair = i32x4_add(prod0, prod1);
    let sum = i32x4_add(pair, round);
    let r = i32x4_shr(sum, INV_COS_BIT);
    assert forall|k: int| 0 <= k < 4 implies #[trigger] r.lane_i32(k) == half_btf(
        w0 as int,
        a.lane_i32(k) as int,
        w1 as int,
        b.lane_i32(k) as int,
    ) by {
        let p = a.lane_i32(k) * w0;
        let q = b.lane_i32(k) * w1;
        assert(w0_vec.lane_i32(k) == w0 && w1_vec.lane_i32(k) == w1 && round.lane_i32(k) == 2048);
        assert(prod0.lane_i32(k) == wrap32(p) && prod1.lane_i32(k) == wrap32(q));
        lemma_wrap32_add(p, q);
        assert(pair.lane_i32(k) == wrap32(p + q));
        lemma_wrap32_add(p + q, 2048);
        assert(sum.lane_i32(k) == wrap32(p + q + 2048));
    }
    r
}

/// A half butterfly has 20 bits.
proof fn lemma_half_btf_range(w0: int, a: int, w1: int, b: int)
    ensures
        -0x8_0000 <= half_btf(w0, a, w1, b) <= 0x7_ffff,
{
    vstd::arithmetic::power2::lemma2_to64();
    let s = wrap32(a * w0 + b * w1 + 2048);
    assert(pow2(12) == 4096);
    assert(shr(s, 12) == s / 4096);
}

/// The powers of two that a range can have.
proof fn lemma_range(range: u32)
    requires
        range <= 30,
    ensures
        1 <= pow2(range as nat) <= 0x4000_0000,
{
    vstd::arithmetic::power2::lemma2_to64();
    vstd::arithmetic::power2::lemma_pow2_pos(range as nat);
    if range < 30 {
        vstd::arithmetic::power2::lemma_pow2_strictly_increases(range as nat, 30);
    }
}

/// Four numbers brought into range.
fn clamp_vec(v: v128, range: u32) -> (r: v128)
    requires
        range <= 30,
    ensures
        forall|k: int|
            0 <= k < 4 ==> #[trigger] r.lane_i32(k) == clamp_range(
                v.lane_i32(k) as int,
                range as int,
            ),
{
    proof {
        lemma_range(range);
    }
    let p: i32 = exp2_i32(range);
    let max_val = i32x4_splat(p - 1);
    let min_val = i32x4_splat(-p);
    let r = i32x4_min(i32x4_max(v, min_val), max_val);
    assert forall|k: int| 0 <= k < 4 implies #[trigger] r.lane_i32(k) == clamp_range(
        v.lane_i32(k) as int,
        range as int,
    ) by {
        assert(max_val.lane_i32(k) == p - 1 && min_val.lane_i32(k) == -p);
    }
    r
}

/// Four inverse cosine transforms at once, one in each lane.
fn idct4_lanes(x: &[I32X4; 4], range: u32) -> (r: [I32X4; 4])
    requires
        range <= 30,
    ensures
        forall|k: int, l: int|
            0 <= k < 4 && 0 <= l < 4 ==> #[trigger] r[k].lane(l) == idct4(
                x[0].lane(l),
                x[1].lane(l),
                x[2].lane(l),
                x[3].lane(l),
                range as int,
                k,
            ),
{
    let s0 = half_btf_simd(COSPI_32, x[0].vec(), COSPI_32, x[2].vec());
    let s1 = half_btf_simd(COSPI_32, x[0].vec(), -COSPI_32, x[2].vec());
    let s2 = half_btf_simd(COSPI_48, x[1].vec(), -COSPI_16, x[3].vec());
    let s3 = half_btf_simd(COSPI_16, x[1].vec(), COSPI_48, x[3].vec());
    let t0 = i32x4_add(s0, s3);
    let t1 = i32x4_add(s1, s2);
    let t2 = i32x4_sub(s1, s2);
    let t3 = i32x4_sub(s0, s3);
    let r = [
        I32X4::new(clamp_vec(t0, range)),
        I32X4::new(clamp_vec(t1, range)),
        I32X4::new(clamp_vec(t2, range)),
        I32X4::new(clamp_vec(t3, range)),
    ];
    assert forall|k: int, l: int| 0 <= k < 4 && 0 <= l < 4 implies #[trigger] r[k].lane(l) == idct4(
        x[0].lane(l),
        x[1].lane(l),
        x[2].lane(l),
        x[3].lane(l),
        range as int,
        k,
    ) by {
        let a = half_btf(COSPI_32 as int, x[0].lane(l), COSPI_32 as int, x[2].lane(l));
        let b = half_btf(COSPI_32 as int, x[0].lane(l), -COSPI_32, x[2].lane(l));
        let c = half_btf(COSPI_48 as int, x[1].lane(l), -COSPI_16, x[3].lane(l));
        let d = half_btf(COSPI_16 as int, x[1].lane(l), COSPI_48 as int, x[3].lane(l));
        assert(s0.lane_i32(l) == a && s1.lane_i32(l) == b && s2.lane_i32(l) == c && s3.lane_i32(l)
            == d);
        lemma_half_btf_range(COSPI_32 as int, x[0].lane(l), COSPI_32 as int, x[2].lane(l));
        lemma_half_btf_range(COSPI_32 as int, x[0].lane(l), -COSPI_32, x[2].lane(l));
        lemma_half_btf_range(COSPI_48 as int, x[1].lane(l), -COSPI_16, x[3].lane(l));
        lemma_half_btf_range(COSPI_16 as int, x[1].lane(l), COSPI_48 as int, x[3].lane(l));
        assert(t0.lane_i32(l) == a + d);
        assert(t1.lane_i32(l) == b + c);
        assert(t2.lane_i32(l) == b - c);
        assert(t3.lane_i32(l) == a - d);
        if k == 0 {
            assert(r[0].data.lane_i32(l) == clamp_range(a + d, range as int));
        } else if k == 1 {
            assert(r[1].data.lane_i32(l) == clamp_range(b + c, range as int));
        } else if k == 2 {
            assert(r[2].data.lane_i32(l) == clamp_range(b - c, range as int));
        } else {
            assert(r[3].data.lane_i32(l) == clamp_range(a - d, range as int));
        }
    }
    r
}

/// Four coefficients of a column.
fn load_column<C: Coefficient>(input: &[C], c: usize) -> (r: I32X4)
    requires
        c < 4,
        16 <= input@.len(),
    ensures
        forall|l: int| 0 <= l < 4 ==> #[trigger] r.lane(l) == coeff_at(input@, l, c as int),
{
    let at: usize = 4 * c;
    let r = I32X4::new(
        i32x4(
            input[at].to_i32(),
            input[at + 1].to_i32(),
            input[at + 2].to_i32(),
            input[at + 3].to_i32(),
        ),
    );
    assert forall|l: int| 0 <= l < 4 implies #[trigger] r.lane(l) == coeff_at(
        input@,
        l,
        c as int,
    ) by {
        assert(input@[at + l] == input@[4 * c + l]);
    }
    r
}

/// The residuals of a 4x4 block of coefficients, row by row.
pub fn residuals_4x4<C: Coefficient>(input: &[C], bd: usize) -> (r: [I32X4; 4])
    requires
        16 <= input@.len(),
        bd <= 22,
    ensures
        forall|y: int, x: int|
            0 <= y < 4 && 0 <= x < 4 ==> #[trigger] r[y].lane(x) == residual_4x4(
                input@,
                bd as int,
                y,
                x,
            ) && -0x800_0000 <= r[y].lane(x) <= 0x800_0000,
{
    let cols = [
        load_column(input, 0),
        load_column(input, 1),
        load_column(input, 2),
        load_column(input, 3),
    ];
    // Every lane is a row, every vector a column of the result
    let first = idct4_lanes(&cols, (bd + 8) as u32);
    let mut rows: [I32X4; 4] = [I32X4::zero(); 4];
    transpose_4x4(&first, &mut rows);
    proof {
        assert forall|y: int, x: int| 0 <= y < 4 && 0 <= x < 4 implies #[trigger] rows[y].lane(x)
            == row_pass(input@, bd as int, y, x) by {
            assert(rows[y].lane(x) == first[x].lane(y));
            assert(first[x].lane(y) == idct4(
                cols[0].lane(y),
                cols[1].lane(y),
                cols[2].lane(y),
                cols[3].lane(y),
                bd + 8,
                x,
            ));
        }
    }
    let range2: u32 = (if bd > 10 {
        bd
    } else {
        10
    } + 6) as u32;
    let second = idct4_lanes(&rows, range2);
    let round = i32x4_splat(8);
    let r = [
        I32X4::new(i32x4_shr(i32x4_add(second[0].vec(), round), 4)),
        I32X4::new(i32x4_shr(i32x4_add(second[1].vec(), round), 4)),
        I32X4::new(i32x4_shr(i32x4_add(second[2].vec(), round), 4)),
        I32X4::new(i32x4_shr(i32x4_add(second[3].vec(), round), 4)),
    ];
    proof {
        lemma_range(range2);
        vstd::arithmetic::power2::lemma2_to64();
        if range2 < 28 {
            vstd::arithmetic::power2::lemma_pow2_strictly_increases(range2 as nat, 28);
        }
        assert(pow2(28) == 0x1000_0000);
        assert(pow2(4) == 16);
        assert forall|y: int, x: int| 0 <= y < 4 && 0 <= x < 4 implies #[trigger] r[y].lane(x)
            == residual_4x4(input@, bd as int, y, x) && -0x800_0000 <= r[y].lane(x)
            <= 0x800_0000 by {
            let v = column_pass(input@, bd as int, y, x);
            assert(rows[0].lane(x) == row_pass(input@, bd as int, 0, x));
            assert(rows[1].lane(x) == row_pass(input@, bd as int, 1, x));
            assert(rows[2].lane(x) == row_pass(input@, bd as int, 2, x));
            assert(rows[3].lane(x) == row_pass(input@, bd as int, 3, x));
            assert(second[y].lane(x) == v);
            assert(round.lane_i32(x) == 8);
            assert(-0x1000_0000 <= v <= 0x1000_0000);
            assert(shr(v + 8, 4) == (v + 8) / 16);
            if y == 0 {
                assert(r[0].data.lane_i32(x) == shr(v + 8, 4));
            } else if y == 1 {
                assert(r[1].data.lane_i32(x) == shr(v + 8, 4));
            } else if y == 2 {
                assert(r[2].data.lane_i32(x) == shr(v + 8, 4));
            } else {
                assert(r[3].data.lane_i32(x) == shr(v + 8, 4));
            }
        }
    }
    r
}

/// The block of a prediction and its residuals.
pub open spec fn reconstruction<T: Sample, C: Coefficient>(
    input: Seq<C>,
    output: PlaneRegionMut<'_, T>,
    bd: int,
) -> spec_fn(int, int) -> int {
    |y: int, x: int|
        reconstructed(output.at(y, x), residual_4x4(input, bd, y, x), bd) % pixel_range(
            T::storage(),
        )
}

/// One reconstructed sample.
fn reconstruct<T: Sample>(p: T, residual: i32, top: i32) -> (r: T)
    requires
        -0x800_0000 <= residual <= 0x800_0000,
        0 <= top,
    ensures
        r.val() == clamp_int(p.val() + residual, 0, top as int) % pixel_range(T::storage()),
{
    let v: i32 = clamp(p.to_i32() + residual, 0, top);
    T::cast_from(v as u32)
}

/// Adds the inverse cosine transform of a 4x4 block of coefficients to a prediction.
pub fn inverse_transform_add_4x4_dct_simd<T: Sample, C: Coefficient>(
    input: &[C],
    output: &mut PlaneRegionMut<'_, T>,
    bd: usize,
)
    requires
        16 <= input@.len(),
        bd <= 22,
        old(output).holds(4, 4),
    ensures
        final(output).wrote(*old(output), 4, 4, reconstruction(input@, *old(output), bd as int)),
        final(final(output).data)@ == final(old(output).data)@,
{
    let res = residuals_4x4(input, bd);
    proof {
        lemma_range(bd as u32);
    }
    let top: i32 = exp2_i32(bd as u32) - 1;
    let ghost before = *output;
    let ghost f = reconstruction(input@, before, bd as int);
    let ghost storage = final(output.data)@;
    let mut y: usize = 0;
    while y < 4
        invariant
            y <= 4,
            bd <= 22,
            top == pow2(bd as nat) - 1,
            0 <= top,
            before.holds(4, 4),
            output.progress(before, 4, y as int, 0, f),
            f == reconstruction(input@, before, bd as int),
            final(output.data)@ == storage,
            forall|j: int, x: int|
                0 <= j < 4 && 0 <= x < 4 ==> #[trigger] res[j].lane(x) == residual_4x4(
                    input@,
                    bd as int,
                    j,
                    x,
                ) && -0x800_0000 <= res[j].lane(x) <= 0x800_0000,
        decreases 4 - y,
    {
        let v = res[y];
        proof {
            before.lemma_holds_fewer(4, 4, y + 1);
            output.lemma_untouched(before, 4, 4, y as int, y as int, 0, f);
            output.lemma_untouched(before, 4, 4, y as int, y as int, 1, f);
            output.lemma_untouched(before, 4, 4, y as int, y as int, 2, f);
            output.lemma_untouched(before, 4, 4, y as int, y as int, 3, f);
            assert(res[y as int].lane(0) == residual_4x4(input@, bd as int, y as int, 0));
            assert(res[y as int].lane(1) == residual_4x4(input@, bd as int, y as int, 1));
            assert(res[y as int].lane(2) == residual_4x4(input@, bd as int, y as int, 2));
            assert(res[y as int].lane(3) == residual_4x4(input@, bd as int, y as int, 3));
        }
        let row: [T; 4] = [
            reconstruct(output.get(y, 0), i32x4_extract_lane::<0>(v.vec()), top),
            reconstruct(output.get(y, 1), i32x4_extract_lane::<1>(v.vec()), top),
            reconstruct(output.get(y, 2), i32x4_extract_lane::<2>(v.vec()), top),
            reconstruct(output.get(y, 3), i32x4_extract_lane::<3>(v.vec()), top),
        ];
        assert forall|x: int| 0 <= x < 4 implies (#[trigger] row@[x]).val() == f(y as int, x) by {
            if x == 0 {
                assert(row@[0].val() == f(y as int, 0));
            } else if x == 1 {
                assert(row@[1].val() == f(y as int, 1));
            } else if x == 2 {
                assert(row@[2].val() == f(y as int, 2));
            } else {
                assert(row@[3].val() == f(y as int, 3));
            }
        }
        output.paint_row(y, 4, row.as_slice(), Ghost(before), Ghost(f));
        y += 1;
    }
    proof {
        output.lemma_done(before, 4, 4, f);
    }
}

/// Whether a block is transformed in vectors: where there are vectors, 4x4 blocks under the cosine
/// transform are.
pub open spec fn inverts_in_vectors(
    tx_size: TxSize,
    tx_type: TxType,
    cpu: CpuFeatureLevel,
) -> bool {
    cpu == CpuFeatureLevel::SIMD128 && tx_size == TxSize::TX_4X4 && tx_type == TxType::DCT_DCT
}

/// Adds the inverse transform of coefficients to a prediction.
///
/// Blocks that are not transformed in vectors are left to `portable`: it is handed the
/// coefficients, the prediction, the position behind the last coefficient, the size and the kind
/// of the transform, the bit depth and the level, and returns the samples of the block, row after
/// row.
pub fn inverse_transform_add<
    T: Sample,
    C: Coefficient,
    F: FnOnce(&[C], &PlaneRegion<'_, T>, u16, TxSize, TxType, usize, CpuFeatureLevel) -> Vec<T>,
>(
    input: &[C],
    output: &mut PlaneRegionMut<'_, T>,
    eob: u16,
    tx_size: TxSize,
    tx_type: TxType,
    bd: usize,
    cpu: CpuFeatureLevel,
    portable: F,
)
    requires
        old(output).holds(tx_size.dims().0, tx_size.dims().1),
        inverts_in_vectors(tx_size, tx_type, cpu) ==> 16 <= input@.len() && bd <= 22,
        !inverts_in_vectors(tx_size, tx_type, cpu) ==> {
            &&& forall|p: &PlaneRegion<'_, T>|
                old(output).shows(*p) ==> #[trigger] call_requires(
                    portable,
                    (input, p, eob, tx_size, tx_type, bd, cpu),
                )
            &&& forall|p: &PlaneRegion<'_, T>, v: Vec<T>|
                old(output).shows(*p) && #[trigger] call_ensures(
                    portable,
                    (input, p, eob, tx_size, tx_type, bd, cpu),
                    v,
                ) ==> tx_size.dims().0 * tx_size.dims().1 <= v@.len()
        },
    ensures
        inverts_in_vectors(tx_size, tx_type, cpu) ==> final(output).wrote(
            *old(output),
            4,
            4,
            reconstruction(input@, *old(output), bd as int),
        ),
        !inverts_in_vectors(tx_size, tx_type, cpu) ==> exists|p: &PlaneRegion<'_, T>, v: Vec<T>|
            old(output).shows(*p) && #[trigger] call_ensures(
                portable,
                (input, p, eob, tx_size, tx_type, bd, cpu),
                v,
            ) && final(output).wrote(
                *old(output),
                tx_size.dims().0,
                tx_size.dims().1,
                block_of(v@, tx_size.dims().0),
            ),
        final(final(output).data)@ == final(old(output).data)@,
{
    if cpu.has_simd128() && tx_size == TxSize::TX_4X4 && tx_type == TxType::DCT_DCT {
        inverse_transform_add_4x4_dct_simd(input, output, bd);
    } else {
        let prediction = output.as_const();
        let v: Vec<T> = portable(input, &prediction, eob, tx_size, tx_type, bd, cpu);
        store_block(output, &v, tx_size.width(), tx_size.height());
    }
}

/// A block without coefficients has no residuals, and a prediction in range stays as it is.
pub proof fn lemma_no_coefficients<C: Coefficient>(
    input: Seq<C>,
    bd: int,
    sample: int,
    r: int,
    c: int,
)
    requires
        0 <= bd <= 22,
        0 <= r < 4,
        0 <= c < 4,
        forall|k: int| 0 <= k < 16 ==> (#[trigger] input[k]).val() == 0,
        0 <= sample < pow2(bd as nat),
    ensures
        residual_4x4(input, bd, r, c) == 0,
        reconstructed(sample, residual_4x4(input, bd, r, c), bd) == sample,
{
    lemma_zero(bd + 8);
    lemma_zero(max_int(bd, 10) + 6);
    assert forall|i: int, j: int| 0 <= i < 4 && 0 <= j < 4 implies #[trigger] coeff_at(input, i, j)
        == 0 by {
        assert(input[4 * j + i].val() == 0);
    }
    assert(row_pass(input, bd, 0, c) == 0 && row_pass(input, bd, 1, c) == 0 && row_pass(
        input,
        bd,
        2,
        c,
    ) == 0 && row_pass(input, bd, 3, c) == 0);
    vstd::arithmetic::power2::lemma2_to64();
    assert(pow2(4) == 16);
    assert(shr(8, 4) == 8int / 16);
}

/// The inverse transform of zeros.
proof fn lemma_zero(range: int)
    requires
        0 <= range,
    ensures
        forall|k: int| #[trigger] idct4(0, 0, 0, 0, range, k) == 0,
{
    vstd::arithmetic::power2::lemma2_to64();
    vstd::arithmetic::power2::lemma_pow2_pos(range as nat);
    assert(pow2(12) == 4096);
    assert(wrap32(2048) == 2048);
    assert(shr(2048, 12) == 2048int / 4096);
    assert forall|k: int| #[trigger] idct4(0, 0, 0, 0, range, k) == 0 by {
        assert(0 * COSPI_32 == 0 && 0 * COSPI_48 == 0 && 0 * COSPI_16 == 0);
        assert(half_btf(COSPI_32 as int, 0, COSPI_32 as int, 0) == 0);
        assert(half_btf(COSPI_32 as int, 0, -COSPI_32, 0) == 0);
        assert(half_btf(COSPI_48 as int, 0, -COSPI_16, 0) == 0);
        assert(half_btf(COSPI_16 as int, 0, COSPI_48 as int, 0) == 0);
    }
}

} // verus!
