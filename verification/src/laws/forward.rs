//! What holds of the forward transform.

use crate::laws::numbers::{lemma_reductions, lemma_shift_is_quotient};
use crate::pixel::Coefficient;
use crate::transform::forward::{
    are_columns, are_rows, flipped, holds_results, is_column_input, is_column_result,
    is_forward_transform, is_row_input, is_row_result, left_shifted, lemma_out_index,
    out_index, round_shifted, stored, transforms, I32X4, Txfm2DFlipCfg,
};
use crate::transform::{lemma_tx_dims, TxSize};
use vstd::arithmetic::power2::{lemma2_to64, lemma_pow2_pos, pow2};
use vstd::prelude::*;

verus! {

broadcast use crate::math::group_wrap;

/// Lane `l` of a list.
pub open spec fn lane_line(v: Seq<I32X4>, l: int) -> Seq<int> {
    Seq::new(v.len(), |k: int| v[k].lane(l))
}

/// Whether `t` is what 32 bits hold of `x`: the number in their range that differs from it by a
/// multiple of `2^32`.
pub open spec fn fits32(x: int, t: int) -> bool {
    &&& -0x8000_0000 <= t < 0x8000_0000
    &&& (x - t) % 0x1_0000_0000 == 0
}

/// Whether `m` is `v`, divided by `2^b`, rounded to the nearest and halves up; where `b` is not
/// positive, whether it is `v` multiplied by `2^-b`. All of it is done in 32 bits, and amounts
/// count modulo 32.
pub open spec fn is_scaled(m: int, v: int, b: int) -> bool {
    if b > 0 {
        exists|t: int|
            #[trigger] fits32(v + pow2(((b - 1) % 32) as nat), t) && pow2((b % 32) as nat) * m <= t
                < pow2((b % 32) as nat) * (m + 1)
    } else if b == 0 {
        m == v
    } else {
        fits32(v * pow2(((-b) % 32) as nat), m)
    }
}

/// A rounding shift scales.
proof fn lemma_scaled(m: int, v: int, b: int)
    requires
        is_scaled(m, v, b),
        -0x8000_0000 <= v < 0x8000_0000,
    ensures
        round_shifted(v, b) == m,
{
    if b > 0 {
        let q = v + pow2(((b - 1) % 32) as nat);
        let t = choose|t: int|
            #[trigger] fits32(q, t) && pow2((b % 32) as nat) * m <= t < pow2((b % 32) as nat) * (m
                + 1);
        lemma_reductions(q, t);
        lemma_shift_is_quotient(t, b % 32, m);
    } else if b < 0 {
        lemma_reductions(v * pow2(((-b) % 32) as nat), m);
    }
}

/// A residual, multiplied, has 32 bits.
proof fn lemma_residual_scaled(x: int, s: int)
    requires
        -0x8000 <= x <= 0x7fff,
        0 <= s <= 16,
    ensures
        -0x8000_0000 <= x * pow2(s as nat) < 0x8000_0000,
{
    lemma2_to64();
    lemma_pow2_pos(s as nat);
    if s < 16 {
        vstd::arithmetic::power2::lemma_pow2_strictly_increases(s as nat, 16);
    }
    let p = pow2(s as nat) as int;
    assert(-0x8000_0000 <= x * p <= 0x7fff_ffff) by (nonlinear_arith)
        requires
            -0x8000 <= x <= 0x7fff,
            0 < p <= 0x1_0000,
    ;
}

/// The forward transform works line by line. Where the one-dimensional transform of kind `k` gives
/// number `n` of a line as `g(k, line, n)`:
///
/// - every residual, multiplied by a power of two, is `start`
/// - every column of that, read from the bottom up where the block is flipped, is transformed; what
///   comes out, scaled, is `mid`
/// - every row of that, read from the right where the block is flipped, is transformed; what comes
///   out, scaled, are the coefficients
/// - the coefficients are stored column by column, those of 64 rows in squares of 32; storage of 16
///   bits holds their low bits
pub proof fn lemma_forward_line_by_line<
    K: Copy,
    T: Coefficient,
    F: Fn(K, Vec<I32X4>) -> Vec<I32X4>,
>(
    input: Seq<i16>,
    output: Seq<T>,
    stride: int,
    tx_size: TxSize,
    cfg: Txfm2DFlipCfg<K>,
    txfm: F,
    g: spec_fn(K, Seq<int>, int) -> int,
    start: spec_fn(int, int) -> int,
    mid: spec_fn(int, int) -> int,
    w: int,
    h: int,
    i: int,
    j: int,
    c: int,
    d: int,
)
    requires
        w == tx_size.dims().0,
        h == tx_size.dims().1,
        is_forward_transform(input, output, stride, w, h, cfg, txfm),
        transforms(txfm, cfg.txfm_type_col, h),
        transforms(txfm, cfg.txfm_type_row, w),
        forall|k: K, v: Vec<I32X4>, o: Vec<I32X4>, n: int, l: int|
            #![trigger call_ensures(txfm, (k, v), o), o@[n].lane(l)]
            call_ensures(txfm, (k, v), o) && 0 <= n < v@.len() && 0 <= l < 4 ==> o@[n].lane(l) == g(
                k,
                lane_line(v@, l),
                n,
            ),
        forall|r: int, x: int|
            0 <= r < h && 0 <= x < w ==> fits32(
                input[r * stride + x] * pow2((cfg.shift[0] as int % 32) as nat),
                #[trigger] start(r, x),
            ),
        forall|r: int, x: int|
            0 <= r < h && 0 <= x < w ==> is_scaled(
                #[trigger] mid(r, x),
                g(
                    cfg.txfm_type_col,
                    Seq::new(
                        h as nat,
                        |k: int|
                            start(
                                if cfg.ud_flip {
                                    h - 1 - k
                                } else {
                                    k
                                },
                                x,
                            ),
                    ),
                    r,
                ),
                -(cfg.shift[1] as int),
            ),
        0 <= i < h,
        0 <= j < w,
        is_scaled(
            c,
            g(
                cfg.txfm_type_row,
                Seq::new(
                    w as nat,
                    |k: int|
                        mid(
                            i,
                            if cfg.lr_flip {
                                w - 1 - k
                            } else {
                                k
                            },
                        ),
                ),
                j,
            ),
            -(cfg.shift[2] as int),
        ),
        T::narrow() ==> -0x8000 <= d < 0x8000 && (c - d) % 0x1_0000 == 0,
        !T::narrow() ==> d == c,
    ensures
        h <= 32 ==> output[j * h + i].val() == d,
        h == 64 && i < 32 ==> output[2048 * (j / 32) + 32 * (j % 32) + i].val() == d,
        h == 64 && i >= 32 && w <= 32 ==> output[32 * w + 32 * j + i - 32].val() == d,
        h == 64 && i >= 32 && w == 64 ==> output[1024 + 2048 * (j / 32) + 32 * (j % 32) + i
            - 32].val() == d,
{
    lemma_tx_dims(tx_size);
    let (cols, rows) = choose|cols: Seq<Vec<I32X4>>, rows: Seq<Vec<I32X4>>|
        {
            &&& #[trigger] are_columns(cols, input, stride, w, h, cfg, txfm)
            &&& #[trigger] are_rows(rows, cols, w, h, cfg, txfm)
            &&& holds_results(output, rows, w, h, cfg)
        };
    assert forall|r: int, x: int| 0 <= r < h && 0 <= x < w implies round_shifted(
        (#[trigger] cols[x / 4]@[r]).lane(x % 4),
        -(cfg.shift[1] as int),
    ) == mid(r, x) by {
        let cg = x / 4;
        let l = x % 4;
        assert(is_column_result(cols[cg], input, stride, h, cg, cfg, txfm));
        let v = choose|v: Vec<I32X4>|
            is_column_input(v@, input, stride, h, cg, cfg) && #[trigger] call_ensures(
                txfm,
                (cfg.txfm_type_col, v),
                cols[cg],
            );
        let line = Seq::new(
            h as nat,
            |k: int|
                start(
                    if cfg.ud_flip {
                        h - 1 - k
                    } else {
                        k
                    },
                    x,
                ),
        );
        assert forall|k: int| 0 <= k < h implies lane_line(v@, l)[k] == line[k] by {
            let y = flipped(cfg.ud_flip, h, k);
            assert(fits32(
                input[y * stride + x] * pow2((cfg.shift[0] as int % 32) as nat),
                start(y, x),
            ));
            lemma_reductions(
                input[y * stride + x] * pow2((cfg.shift[0] as int % 32) as nat),
                start(y, x),
            );
            assert(v@[k].lane(l) == left_shifted(
                input[y * stride + 4 * cg + l] as int,
                cfg.shift[0] as int,
            ));
            assert(y * stride + 4 * cg + l == y * stride + x);
        }
        assert(lane_line(v@, l) =~= line);
        assert(cols[cg]@[r].lane(l) == g(cfg.txfm_type_col, line, r));
        lemma_scaled(mid(r, x), g(cfg.txfm_type_col, line, r), -(cfg.shift[1] as int));
    }
    let rg = i / 4;
    let l = i % 4;
    assert(is_row_result(rows[rg], cols, w, rg, cfg, txfm));
    let v = choose|v: Vec<I32X4>|
        is_row_input(v@, cols, w, rg, cfg) && #[trigger] call_ensures(
            txfm,
            (cfg.txfm_type_row, v),
            rows[rg],
        );
    let line = Seq::new(
        w as nat,
        |k: int|
            mid(
                i,
                if cfg.lr_flip {
                    w - 1 - k
                } else {
                    k
                },
            ),
    );
    assert forall|k: int| 0 <= k < w implies lane_line(v@, l)[k] == line[k] by {
        let x = flipped(cfg.lr_flip, w, k);
        assert(v@[k].lane(l) == crate::transform::forward::column_result(cols, cfg, 4 * rg + l, x));
        assert(4 * rg + l == i);
        assert(round_shifted(cols[x / 4]@[i].lane(x % 4), -(cfg.shift[1] as int)) == mid(i, x));
    }
    assert(lane_line(v@, l) =~= line);
    assert(rows[rg]@[j].lane(l) == g(cfg.txfm_type_row, line, j));
    lemma_scaled(c, g(cfg.txfm_type_row, line, j), -(cfg.shift[2] as int));
    lemma_out_index(w, h, i, j);
    lemma_reductions(c, d);
    let k = out_index(w, h, i, j);
    assert(output[k].val() == stored::<T>(
        crate::transform::forward::row_result(rows, cfg, i, j),
    ));
}

/// With transforms that hand back what they are given, and no other shift than the first, every
/// coefficient is a residual, multiplied by a power of two: that of its own row and column, counted
/// from the bottom or from the right where the block is flipped.
pub proof fn lemma_forward_scales_residuals<
    K: Copy,
    T: Coefficient,
    F: Fn(K, Vec<I32X4>) -> Vec<I32X4>,
>(
    input: Seq<i16>,
    output: Seq<T>,
    stride: int,
    tx_size: TxSize,
    cfg: Txfm2DFlipCfg<K>,
    txfm: F,
    w: int,
    h: int,
    i: int,
    j: int,
    c: int,
)
    requires
        w == tx_size.dims().0,
        h == tx_size.dims().1,
        is_forward_transform(input, output, stride, w, h, cfg, txfm),
        transforms(txfm, cfg.txfm_type_col, h),
        transforms(txfm, cfg.txfm_type_row, w),
        forall|k: K, v: Vec<I32X4>, o: Vec<I32X4>|
            #[trigger] call_ensures(txfm, (k, v), o) ==> o@ == v@,
        0 <= cfg.shift[0] <= 16,
        cfg.shift[1] == 0,
        cfg.shift[2] == 0,
        0 <= i < h,
        0 <= j < w,
        c == input[(if cfg.ud_flip {
            h - 1 - i
        } else {
            i
        }) * stride + (if cfg.lr_flip {
            w - 1 - j
        } else {
            j
        })] * pow2(cfg.shift[0] as nat),
        T::narrow() ==> -0x8000 <= c <= 0x7fff,
    ensures
        h <= 32 ==> output[j * h + i].val() == c,
        h == 64 && i < 32 ==> output[2048 * (j / 32) + 32 * (j % 32) + i].val() == c,
        h == 64 && i >= 32 && w <= 32 ==> output[32 * w + 32 * j + i - 32].val() == c,
        h == 64 && i >= 32 && w == 64 ==> output[1024 + 2048 * (j / 32) + 32 * (j % 32) + i
            - 32].val() == c,
{
    let g = |k: K, line: Seq<int>, n: int| line[n];
    let start = |r: int, x: int| input[r * stride + x] * pow2(cfg.shift[0] as nat);
    let mid = |r: int, x: int|
        start(
            if cfg.ud_flip {
                h - 1 - r
            } else {
                r
            },
            x,
        );
    assert forall|r: int, x: int| 0 <= r < h && 0 <= x < w implies fits32(
        input[r * stride + x] * pow2((cfg.shift[0] as int % 32) as nat),
        #[trigger] start(r, x),
    ) by {
        lemma_residual_scaled(input[r * stride + x] as int, cfg.shift[0] as int);
        let m = start(r, x);
        assert((m - m) % 0x1_0000_0000 == 0);
    }
    assert((c - c) % 0x1_0000 == 0);
    lemma_forward_line_by_line(
        input,
        output,
        stride,
        tx_size,
        cfg,
        txfm,
        g,
        start,
        mid,
        w,
        h,
        i,
        j,
        c,
        c,
    );
}

} // verus!
