//! Inverse quantization of transform coefficients.

use crate::arch::{
    i16x8_narrow_i32x4, i32x4, i32x4_add, i32x4_mul, i32x4_shr, i32x4_splat, pair_lane,
    to_signed_halves, v128, v128_and,
};
use crate::cpu_features::CpuFeatureLevel;
use crate::math::{
    clamp_int, exp2_i32, lemma_shr_bounds, lemma_wrap32_add, min_int, min_usize, shr, shr_i32,
    wrap16, wrap32,
};
use crate::pixel::Coefficient;
use crate::transform::TxSize;
use vstd::arithmetic::power2::pow2;
use vstd::prelude::*;

verus! {

broadcast use {crate::math::group_wrap, crate::vector::group_lanes};

/// What is added to the product of a coefficient before the shift: for a negative one, enough to
/// make the shift round towards zero.
pub open spec fn toward_zero(c: int, scale: int) -> int {
    if c < 0 {
        pow2(scale as nat) as int - 1
    } else {
        0
    }
}

/// A coefficient times its quantizer, scaled down and rounded towards zero.
pub open spec fn dequantized(c: int, quant: int, scale: int) -> int {
    shr(c * quant + toward_zero(c, scale), scale)
}

/// Whether the product of a coefficient fits 32 bits, also with what is added to it.
pub open spec fn product_fits(c: int, quant: int) -> bool {
    -0x8000_0000 <= c * quant <= 0x7fff_ffff
}

/// Whether position `i` of `len` is handled in a vector: all but the first and the last few.
pub open spec fn in_vector(cpu: CpuFeatureLevel, i: int, len: int) -> bool {
    &&& cpu == CpuFeatureLevel::SIMD128
    &&& 1 <= i < 1 + 4 * ((len - 1) / 4)
}

/// The quantizer of position `i`.
pub open spec fn quant_at(i: int, dc_quant: int, ac_quant: int) -> int {
    if i == 0 {
        dc_quant
    } else {
        ac_quant
    }
}

/// The stored result for a coefficient. What does not fit 16 bits saturates in a vector, and
/// loses its high bits elsewhere; 32-bit products wrap.
pub open spec fn dequantized_lane(
    c: int,
    quant: int,
    scale: int,
    narrow: bool,
    vector: bool,
) -> int {
    if narrow && vector {
        clamp_int(dequantized(c, quant, scale), -0x8000, 0x7fff)
    } else if narrow {
        wrap16(dequantized(c, quant, scale))
    } else {
        shr(wrap32(c * quant + toward_zero(c, scale)), scale)
    }
}

/// A coefficient of 16 bits has a product of 32 bits.
proof fn lemma_narrow_product(c: int, quant: int)
    requires
        -0x8000 <= c <= 0x7fff,
        0 <= quant <= 0xffff,
    ensures
        product_fits(c, quant),
{
    assert(-0x8000_0000 <= c * quant <= 0x7fff_ffff) by (nonlinear_arith)
        requires
            -0x8000 <= c <= 0x7fff,
            0 <= quant <= 0xffff,
    ;
}

/// A product that fits stays in range when it is rounded.
proof fn lemma_rounded_fits(c: int, quant: int, scale: int)
    requires
        product_fits(c, quant),
        0 <= quant,
        0 <= scale < 31,
    ensures
        -0x8000_0000 <= c * quant + toward_zero(c, scale) <= 0x7fff_ffff,
        -0x8000_0000 <= dequantized(c, quant, scale) <= 0x7fff_ffff,
        0 <= toward_zero(c, scale) < 0x4000_0000,
{
    vstd::arithmetic::power2::lemma2_to64();
    vstd::arithmetic::power2::lemma_pow2_pos(scale as nat);
    if scale < 30 {
        vstd::arithmetic::power2::lemma_pow2_strictly_increases(scale as nat, 30);
    }
    assert(c < 0 ==> c * quant <= 0) by (nonlinear_arith)
        requires
            quant >= 0,
    ;
    lemma_shr_bounds(c * quant + toward_zero(c, scale), scale);
}

/// A right shift by the whole width leaves the sign.
proof fn lemma_sign(x: i32)
    ensures
        shr(x as int, 31) == if x < 0 {
            -1int
        } else {
            0int
        },
{
    vstd::arithmetic::power2::lemma2_to64();
    assert(pow2(31) == 0x8000_0000);
    assert(shr(x as int, 31) == x as int / 0x8000_0000);
}

/// A mask of the sign picks the offset or nothing.
proof fn lemma_mask_offset(offset: i32)
    ensures
        -1i32 & offset == offset,
        0i32 & offset == 0i32,
{
    assert(-1i32 & offset == offset) by (bit_vector);
    assert(0i32 & offset == 0i32) by (bit_vector);
}

/// One coefficient, without a vector.
fn dequantize_scalar(c: i32, quant: i32, offset: i32, scale: u32) -> (r: i32)
    requires
        0 <= quant,
        scale < 31,
        offset == pow2(scale as nat) - 1,
        product_fits(c as int, quant as int),
    ensures
        r == dequantized(c as int, quant as int, scale as int),
{
    proof {
        lemma_rounded_fits(c as int, quant as int, scale as int);
        lemma_sign(c);
        lemma_mask_offset(offset);
    }
    let sign: i32 = shr_i32(c, 31);
    shr_i32(c * quant + (sign & offset), scale)
}

/// Four coefficients.
fn dequantize_lanes(c: v128, quant: i32, offset: i32, scale: u32) -> (r: v128)
    requires
        0 <= quant,
        scale < 31,
        offset == pow2(scale as nat) - 1,
    ensures
        forall|k: int|
            0 <= k < 4 ==> #[trigger] r.lane_i32(k) == shr(
                wrap32(c.lane_i32(k) * quant + toward_zero(c.lane_i32(k) as int, scale as int)),
                scale as int,
            ),
{
    let sign = i32x4_shr(c, 31);
    let offset_masked = v128_and(sign, i32x4_splat(offset));
    let prod = i32x4_mul(c, i32x4_splat(quant));
    let sum = i32x4_add(prod, offset_masked);
    proof {
        lemma_mask_offset(offset);
        assert forall|k: int| 0 <= k < 4 implies #[trigger] sum.lane_i32(k) == wrap32(
            c.lane_i32(k) * quant + toward_zero(c.lane_i32(k) as int, scale as int),
        ) by {
            lemma_sign(c.lane_i32(k));
            assert(offset_masked.lane_i32(k) == toward_zero(c.lane_i32(k) as int, scale as int));
            lemma_wrap32_add(
                c.lane_i32(k) * quant,
                toward_zero(c.lane_i32(k) as int, scale as int),
            );
            assert(prod.lane_i32(k) == wrap32(c.lane_i32(k) * quant));
        }
    }
    i32x4_shr(sum, scale)
}

/// Four coefficients, beginning at `coeffs[at]`.
fn load_coeffs<T: Coefficient>(coeffs: &[T], at: usize) -> (r: v128)
    requires
        at + 4 <= coeffs@.len(),
    ensures
        forall|k: int| 0 <= k < 4 ==> #[trigger] r.lane_i32(k) == coeffs@[at + k].val(),
        T::narrow() ==> forall|k: int| 0 <= k < 4 ==> -0x8000 <= #[trigger] r.lane_i32(k) <= 0x7fff,
{
    i32x4(
        coeffs[at].to_i32(),
        coeffs[at + 1].to_i32(),
        coeffs[at + 2].to_i32(),
        coeffs[at + 3].to_i32(),
    )
}

/// The first `n` positions hold the results for their coefficients, and nothing else differs from
/// what was there before.
pub open spec fn done_to<T: Coefficient>(
    coeffs: Seq<T>,
    before: Seq<T>,
    now: Seq<T>,
    dc_quant: int,
    ac_quant: int,
    scale: int,
    cpu: CpuFeatureLevel,
    n: int,
) -> bool {
    let len = min_int(coeffs.len() as int, before.len() as int);
    &&& now.len() == before.len()
    &&& forall|i: int|
        0 <= i < n ==> (#[trigger] now[i]).val() == dequantized_lane(
            coeffs[i].val(),
            quant_at(i, dc_quant, ac_quant),
            scale,
            T::narrow(),
            in_vector(cpu, i, len),
        )
    &&& forall|i: int| n <= i < before.len() ==> #[trigger] now[i] == before[i]
}

/// Four results that were made of 32-bit lanes, saturated where the storage is narrow.
fn store_coeffs<T: Coefficient>(v: v128, rcoeffs: &mut [T], at: usize)
    requires
        at + 4 <= old(rcoeffs)@.len(),
    ensures
        final(rcoeffs)@.len() == old(rcoeffs)@.len(),
        forall|k: int|
            at <= k < at + 4 ==> (#[trigger] final(rcoeffs)@[k]).val() == if T::narrow() {
                clamp_int(v.lane_i32(k - at) as int, -0x8000, 0x7fff)
            } else {
                v.lane_i32(k - at) as int
            },
        forall|k: int|
            0 <= k < old(rcoeffs)@.len() && !(at <= k < at + 4) ==> #[trigger] final(rcoeffs)@[k]
                == old(rcoeffs)@[k],
{
    if T::is_narrow() {
        let narrow = i16x8_narrow_i32x4(v, i32x4_splat(0));
        let x = to_signed_halves(narrow);
        assert(forall|k: int|
            0 <= k < 4 ==> #[trigger] x[k] == clamp_int(v.lane_i32(k) as int, -0x8000, 0x7fff)) by {
            assert(forall|k: int| 0 <= k < 4 ==> #[trigger] pair_lane(v, v, k) == v.lane_i32(k));
        }
        rcoeffs[at] = T::cast_from(x[0] as i32);
        rcoeffs[at + 1] = T::cast_from(x[1] as i32);
        rcoeffs[at + 2] = T::cast_from(x[2] as i32);
        rcoeffs[at + 3] = T::cast_from(x[3] as i32);
    } else {
        rcoeffs[at] = T::cast_from(v.e0);
        rcoeffs[at + 1] = T::cast_from(v.e1);
        rcoeffs[at + 2] = T::cast_from(v.e2);
        rcoeffs[at + 3] = T::cast_from(v.e3);
    }
}

/// Whether the products that are computed without a vector fit 32 bits, as those of 16-bit
/// coefficients do.
pub open spec fn scalar_products_fit<T: Coefficient>(
    coeffs: Seq<T>,
    dc_quant: int,
    ac_quant: int,
    cpu: CpuFeatureLevel,
    len: int,
) -> bool {
    forall|i: int|
        #![trigger coeffs[i]]
        0 <= i < len && !in_vector(cpu, i, len) ==> T::narrow() || product_fits(
            coeffs[i].val(),
            quant_at(i, dc_quant, ac_quant),
        )
}

/// Dequantizes coefficients: each, times the quantizer of its position, is divided by
/// `2^log_tx_scale` and rounded towards zero. The first position has a quantizer of its own.
/// As many coefficients are handled as both slices hold.
///
/// Four coefficients at a time are handled in a vector, where a result that does not fit 16-bit
/// storage saturates. The first coefficient, and the last few, are handled one by one; there such
/// a result loses its high bits.
pub fn dequantize_by<T: Coefficient>(
    dc_quant: u16,
    ac_quant: u16,
    log_tx_scale: u32,
    coeffs: &[T],
    rcoeffs: &mut [T],
    cpu: CpuFeatureLevel,
)
    requires
        coeffs@.len() > 0,
        old(rcoeffs)@.len() > 0,
        log_tx_scale < 31,
        scalar_products_fit(
            coeffs@,
            dc_quant as int,
            ac_quant as int,
            cpu,
            min_int(coeffs@.len() as int, old(rcoeffs)@.len() as int),
        ),
    ensures
        done_to(
            coeffs@,
            old(rcoeffs)@,
            final(rcoeffs)@,
            dc_quant as int,
            ac_quant as int,
            log_tx_scale as int,
            cpu,
            min_int(coeffs@.len() as int, old(rcoeffs)@.len() as int),
        ),
{
    let ghost before = rcoeffs@;
    let len: usize = min_usize(coeffs.len(), rcoeffs.len());
    let ghost dcq = dc_quant as int;
    let ghost acq = ac_quant as int;
    let ghost scale = log_tx_scale as int;
    let offset: i32 = exp2_i32(log_tx_scale) - 1;
    let mut i: usize = 0;
    // The first coefficient
    dequantize_one(
        coeffs,
        rcoeffs,
        0,
        dc_quant,
        offset,
        log_tx_scale,
        Ghost(before),
        Ghost(dcq),
        Ghost(acq),
        Ghost(cpu),
    );
    i = i + 1;
    // The others, four at a time
    if cpu.has_simd128() {
        while len - i >= 4
            invariant
                1 <= i <= len,
                len == min_int(coeffs@.len() as int, before.len() as int),
                (i - 1) % 4 == 0,
                cpu == CpuFeatureLevel::SIMD128,
                dcq == dc_quant,
                acq == ac_quant,
                scale == log_tx_scale,
                log_tx_scale < 31,
                offset == pow2(log_tx_scale as nat) - 1,
                done_to(coeffs@, before, rcoeffs@, dcq, acq, scale, cpu, i as int),
            decreases len - i,
        {
            let c = load_coeffs(coeffs, i);
            let r = dequantize_lanes(c, ac_quant as i32, offset, log_tx_scale);
            let ghost prev = rcoeffs@;
            store_coeffs(r, rcoeffs, i);
            proof {
                assert forall|k: int| i <= k < i + 4 implies (#[trigger] rcoeffs@[k]).val()
                    == dequantized_lane(
                    coeffs@[k].val(),
                    quant_at(k, dcq, acq),
                    scale,
                    T::narrow(),
                    in_vector(cpu, k, len as int),
                ) by {
                    let j = k - i;
                    assert(c.lane_i32(j) == coeffs@[i + j].val());
                    if T::narrow() {
                        lemma_narrow_product(coeffs@[k].val(), acq);
                        lemma_rounded_fits(coeffs@[k].val(), acq, scale);
                    }
                }
            }
            i = i + 4;
        }
    }
    // What is left
    while i < len
        invariant
            1 <= i <= len,
            len == min_int(coeffs@.len() as int, before.len() as int),
            cpu == CpuFeatureLevel::SIMD128 ==> i >= 1 + 4 * ((len - 1) / 4),
            dcq == dc_quant,
            acq == ac_quant,
            scale == log_tx_scale,
            log_tx_scale < 31,
            offset == pow2(log_tx_scale as nat) - 1,
            scalar_products_fit(coeffs@, dcq, acq, cpu, len as int),
            done_to(coeffs@, before, rcoeffs@, dcq, acq, scale, cpu, i as int),
        decreases len - i,
    {
        dequantize_one(
            coeffs,
            rcoeffs,
            i,
            ac_quant,
            offset,
            log_tx_scale,
            Ghost(before),
            Ghost(dcq),
            Ghost(acq),
            Ghost(cpu),
        );
        i = i + 1;
    }
}

/// Dequantizes the coefficients of a block.
///
/// `dc_q` looks up the quantizer of the first coefficient, and `ac_q` that of the others: each is
/// handed the index, the difference that belongs to it and the bit depth. `get_log_tx_scale` looks
/// up the scale of the size. What is stored is told by `dequantize_by`.
pub fn dequantize<
    T: Coefficient,
    D: FnOnce(u8, i8, usize) -> u16,
    A: FnOnce(u8, i8, usize) -> u16,
    L: FnOnce(TxSize) -> usize,
>(
    qindex: u8,
    coeffs: &[T],
    _eob: u16,
    rcoeffs: &mut [T],
    tx_size: TxSize,
    bit_depth: usize,
    dc_delta_q: i8,
    ac_delta_q: i8,
    cpu: CpuFeatureLevel,
    dc_q: D,
    ac_q: A,
    get_log_tx_scale: L,
)
    requires
        coeffs@.len() > 0,
        old(rcoeffs)@.len() > 0,
        call_requires(dc_q, (qindex, dc_delta_q, bit_depth)),
        call_requires(ac_q, (qindex, ac_delta_q, bit_depth)),
        call_requires(get_log_tx_scale, (tx_size,)),
        forall|scale: usize|
            #[trigger] call_ensures(get_log_tx_scale, (tx_size,), scale) ==> scale < 31,
        forall|dc: u16, ac: u16|
            #[trigger] call_ensures(dc_q, (qindex, dc_delta_q, bit_depth), dc)
                && #[trigger] call_ensures(ac_q, (qindex, ac_delta_q, bit_depth), ac)
                ==> scalar_products_fit(
                coeffs@,
                dc as int,
                ac as int,
                cpu,
                min_int(coeffs@.len() as int, old(rcoeffs)@.len() as int),
            ),
    ensures
        exists|dc: u16, ac: u16, scale: usize|
            {
                &&& #[trigger] call_ensures(dc_q, (qindex, dc_delta_q, bit_depth), dc)
                &&& #[trigger] call_ensures(ac_q, (qindex, ac_delta_q, bit_depth), ac)
                &&& #[trigger] call_ensures(get_log_tx_scale, (tx_size,), scale)
                &&& done_to(
                    coeffs@,
                    old(rcoeffs)@,
                    final(rcoeffs)@,
                    dc as int,
                    ac as int,
                    scale as int,
                    cpu,
                    min_int(coeffs@.len() as int, old(rcoeffs)@.len() as int),
                )
            },
{
    let log_tx_scale: usize = get_log_tx_scale(tx_size);
    let dc_quant: u16 = dc_q(qindex, dc_delta_q, bit_depth);
    let ac_quant: u16 = ac_q(qindex, ac_delta_q, bit_depth);
    dequantize_by(dc_quant, ac_quant, log_tx_scale as u32, coeffs, rcoeffs, cpu);
}

/// One coefficient, without a vector, in its place.
fn dequantize_one<T: Coefficient>(
    coeffs: &[T],
    rcoeffs: &mut [T],
    i: usize,
    quant: u16,
    offset: i32,
    scale: u32,
    Ghost(before): Ghost<Seq<T>>,
    Ghost(dcq): Ghost<int>,
    Ghost(acq): Ghost<int>,
    Ghost(cpu): Ghost<CpuFeatureLevel>,
)
    requires
        i < coeffs@.len(),
        i < before.len(),
        scale < 31,
        offset == pow2(scale as nat) - 1,
        quant == quant_at(i as int, dcq, acq),
        !in_vector(cpu, i as int, min_int(coeffs@.len() as int, before.len() as int)),
        T::narrow() || product_fits(coeffs@[i as int].val(), quant as int),
        done_to(coeffs@, before, old(rcoeffs)@, dcq, acq, scale as int, cpu, i as int),
    ensures
        done_to(coeffs@, before, final(rcoeffs)@, dcq, acq, scale as int, cpu, i + 1),
{
    let c: i32 = coeffs[i].to_i32();
    proof {
        if T::narrow() {
            lemma_narrow_product(c as int, quant as int);
        }
        lemma_rounded_fits(c as int, quant as int, scale as int);
    }
    let r: i32 = dequantize_scalar(c, quant as i32, offset, scale);
    rcoeffs[i] = T::cast_from(r);
}

/// Where a coefficient's result fits its storage, it is the same with and without a vector: the
/// product, divided and rounded towards zero.
pub proof fn lemma_dequantize_same(c: int, quant: int, scale: int, narrow: bool)
    requires
        0 <= quant,
        0 <= scale < 31,
        product_fits(c, quant),
        narrow ==> -0x8000 <= dequantized(c, quant, scale) <= 0x7fff,
    ensures
        dequantized_lane(c, quant, scale, narrow, true) == dequantized(c, quant, scale),
        dequantized_lane(c, quant, scale, narrow, false) == dequantized(c, quant, scale),
{
    lemma_rounded_fits(c, quant, scale);
}

/// Dequantization is odd: the opposite coefficient has the opposite result.
pub proof fn lemma_dequantized_odd(c: int, quant: int, scale: int)
    requires
        0 <= quant,
        0 <= scale,
    ensures
        dequantized(-c, quant, scale) == -dequantized(c, quant, scale),
{
    let d = pow2(scale as nat) as int;
    vstd::arithmetic::power2::lemma_pow2_pos(scale as nat);
    let a = if c < 0 {
        -c
    } else {
        c
    };
    let p = a * quant;
    assert((-a) * quant == -p) by (nonlinear_arith)
        requires
            p == a * quant,
    ;
    assert(p >= 0) by (nonlinear_arith)
        requires
            p == a * quant,
            a >= 0,
            quant >= 0,
    ;
    vstd::arithmetic::div_mod::lemma_fundamental_div_mod(p, d);
    let q = p / d;
    let r = p % d;
    assert(-p + (d - 1) == (-q) * d + (d - 1 - r)) by (nonlinear_arith)
        requires
            p == d * q + r,
    ;
    vstd::arithmetic::div_mod::lemma_fundamental_div_mod_converse(-p + (d - 1), d, -q, d - 1 - r);
    if a == 0 {
        assert(0 * quant == 0);
    }
}

} // verus!
