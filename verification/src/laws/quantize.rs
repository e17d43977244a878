//! What holds of inverse quantization.

use crate::cpu_features::CpuFeatureLevel;
use crate::math::{shr, wrap16, wrap32};
use crate::pixel::Coefficient;
use crate::quantize::{dequantized, done_to, toward_zero};
use vstd::arithmetic::div_mod::{lemma_fundamental_div_mod, lemma_fundamental_div_mod_converse};
use vstd::arithmetic::power2::{lemma_pow2_pos, pow2};
use vstd::prelude::*;

verus! {

/// Each coefficient becomes its product with the quantizer, divided by `2^scale` and cut off
/// towards zero. The first coefficient has a quantizer of its own.
///
/// Where the quotient `r` does not fit 16-bit storage, a position of a vector has the nearest
/// number that fits, and any other position a number that differs from `r` by a multiple of
/// `2^16`. A product `t` that does not fit 32 bits wraps before it is divided.
pub proof fn lemma_coefficients_are_scaled<T: Coefficient>(
    coeffs: Seq<T>,
    before: Seq<T>,
    now: Seq<T>,
    dc_quant: int,
    ac_quant: int,
    scale: int,
    cpu: CpuFeatureLevel,
    len: int,
    i: int,
    c: int,
    quant: int,
    r: int,
    t: int,
)
    requires
        done_to(coeffs, before, now, dc_quant, ac_quant, scale, cpu, len),
        len <= coeffs.len() && len <= before.len(),
        len == coeffs.len() || len == before.len(),
        0 <= scale,
        0 <= i < len,
        c == coeffs[i].val(),
        quant == (if i == 0 {
            dc_quant
        } else {
            ac_quant
        }),
        c >= 0 ==> pow2(scale as nat) * r <= c * quant < pow2(scale as nat) * (r + 1),
        c < 0 ==> pow2(scale as nat) * (r - 1) < c * quant <= pow2(scale as nat) * r,
        -0x8000_0000 <= t <= 0x7fff_ffff,
        c >= 0 ==> (c * quant - t) % 0x1_0000_0000 == 0,
        c < 0 ==> (c * quant + pow2(scale as nat) - 1 - t) % 0x1_0000_0000 == 0,
    ensures
        T::narrow() && -0x8000 <= r <= 0x7fff ==> now[i].val() == r,
        T::narrow() && cpu == CpuFeatureLevel::SIMD128 && 1 <= i < 1 + 4 * ((len - 1) / 4) ==> {
            &&& r < -0x8000 ==> now[i].val() == -0x8000
            &&& r > 0x7fff ==> now[i].val() == 0x7fff
        },
        T::narrow() && !(cpu == CpuFeatureLevel::SIMD128 && 1 <= i < 1 + 4 * ((len - 1) / 4)) ==> {
            &&& -0x8000 <= now[i].val() <= 0x7fff
            &&& (now[i].val() - r) % 0x1_0000 == 0
        },
        !T::narrow() && -0x8000_0000 <= c * quant + (if c < 0 {
            pow2(scale as nat) - 1
        } else {
            0
        }) <= 0x7fff_ffff ==> now[i].val() == r,
        !T::narrow() ==> pow2(scale as nat) * now[i].val() <= t < pow2(scale as nat) * (
        now[i].val() + 1),
{
    let d = pow2(scale as nat) as int;
    lemma_pow2_pos(scale as nat);
    let p = c * quant + toward_zero(c, scale);
    assert(d * (r + 1) == d * r + d && d * (r - 1) == d * r - d && r * d + (p - d * r) == p)
        by (nonlinear_arith);
    lemma_fundamental_div_mod_converse(p, d, r, p - d * r);
    assert(dequantized(c, quant, scale) == r);
    reveal(wrap16);
    reveal(wrap32);
    let _ = now[i];
    assert(wrap32(p) == t);
    lemma_fundamental_div_mod(t, d);
    let g = t / d;
    assert(d * (g + 1) == d * g + d) by (nonlinear_arith);
    assert(shr(t, scale) == g);
}

/// What lies behind the coefficients stays as it was.
pub proof fn lemma_other_coefficients_stay<T: Coefficient>(
    coeffs: Seq<T>,
    before: Seq<T>,
    now: Seq<T>,
    dc_quant: int,
    ac_quant: int,
    scale: int,
    cpu: CpuFeatureLevel,
    len: int,
    i: int,
)
    requires
        done_to(coeffs, before, now, dc_quant, ac_quant, scale, cpu, len),
        len <= i < before.len(),
    ensures
        now.len() == before.len(),
        now[i] == before[i],
{
}

} // verus!
