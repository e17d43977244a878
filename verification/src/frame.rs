//! Slices of planes with padding: a picture, and the position in it from which samples are read.

use crate::cdef::{best_direction, cdef_find_dir, centred, costs_fit, costs_of, direction_cost};
use crate::cpu_features::CpuFeatureLevel;
use crate::math::shr;
use crate::pixel::Sample;
use crate::plane::{PlaneRegion, sample_index};
use vstd::prelude::*;

verus! {

/// Where a slice begins in the storage of its plane.
#[derive(Debug, Copy, Clone, PartialEq, Eq, Structural)]
pub struct SliceGeometry {
    /// The distance between two samples of a column.
    pub stride: usize,
    /// The column of the storage in which the picture begins.
    pub xorigin: usize,
    /// The row of the storage in which the picture begins.
    pub yorigin: usize,
    /// The column of the picture in which the slice begins.
    pub x: isize,
    /// The row of the picture in which the slice begins.
    pub y: isize,
}

impl SliceGeometry {
    /// The column of the storage in which the slice begins.
    pub open spec fn column(self) -> int {
        self.xorigin + self.x
    }

    /// The row of the storage in which the slice begins.
    pub open spec fn row(self) -> int {
        self.yorigin + self.y
    }

    /// The position in the storage at which the slice begins.
    pub open spec fn start(self) -> int {
        self.row() * self.stride + self.column()
    }

    /// Whether the storage, of `len` samples, holds the first eight rows of the slice, and these
    /// have eight columns.
    pub open spec fn has_block(self, len: int) -> bool {
        &&& self.column() >= 0
        &&& self.row() >= 0
        &&& self.column() + 8 <= self.stride
        &&& (self.row() + 8) * self.stride <= len
    }

    /// The position at which the slice begins, where it has a block of eight rows and columns.
    fn start_of_block(self, len: usize) -> (r: Option<usize>)
        ensures
            r.is_some() == self.has_block(len as int),
            r.is_some() ==> r.unwrap() == self.start(),
            r.is_some() ==> self.start() + 7 * self.stride + 8 <= len,
    {
        let column: i128 = self.xorigin as i128 + self.x as i128;
        let row: i128 = self.yorigin as i128 + self.y as i128;
        let stride: i128 = self.stride as i128;
        if column < 0 || row < 0 || column + 8 > stride {
            return None;
        }
        let rows: i128 = len as i128 / stride;
        proof {
            vstd::arithmetic::div_mod::lemma_fundamental_div_mod(len as int, stride as int);
            let rest = len as int % stride as int;
            assert(row + 8 > rows <==> (row + 8) * stride > len) by (nonlinear_arith)
                requires
                    len == stride * rows + rest,
                    0 <= rest < stride,
            ;
            assert((row + 8) * stride == row * stride + 8 * stride) by (nonlinear_arith);
            assert(row * stride >= 0) by (nonlinear_arith)
                requires
                    0 <= row,
                    0 <= stride,
            ;
        }
        if row + 8 > rows {
            return None;
        }
        Some((row * stride + column) as usize)
    }
}

/// The samples of a slice, shifted and centred on zero.
pub open spec fn slice_centred<T: Sample>(
    samples: Seq<T>,
    geometry: SliceGeometry,
    shift: int,
) -> spec_fn(int, int) -> int {
    |i: int, j: int|
        shr(
            samples[sample_index(geometry.start(), geometry.stride as int, i, j)].val(),
            shift,
        ) - 128
}

/// Whether `dir` is the direction of a block, and `var` how much it stands out.
pub open spec fn direction_found(x: spec_fn(int, int) -> int, dir: int, var: int) -> bool {
    &&& best_direction(x, dir)
    &&& var == (direction_cost(x, dir) - direction_cost(x, (dir + 4) % 8)) / 1024
}

/// Whether the costs of the block at which a window begins fit 32 bits.
fn region_fits<T: Sample>(img: &PlaneRegion<'_, T>, shift: u32) -> (r: bool)
    requires
        img.covers(8, 8),
        shift < 32,
    ensures
        r == costs_fit(centred(*img, shift as int)),
{
    let ghost x = centred(*img, shift as int);
    let costs = costs_of(img, shift);
    let mut d: usize = 0;
    while d < 8
        invariant
            d <= 8,
            x == centred(*img, shift as int),
            forall|k: int| 0 <= k < 8 ==> #[trigger] costs[k] == direction_cost(x, k),
            forall|k: int| 0 <= k < d ==> #[trigger] direction_cost(x, k) <= i32::MAX,
        decreases 8 - d,
    {
        assert(costs[d as int] == direction_cost(x, d as int));
        if costs[d] > 0x7fff_ffff {
            return false;
        }
        d += 1;
    }
    true
}

/// The direction of the block of eight rows and columns at which a slice begins: see
/// `cdef_find_dir`. Where the slice has no such block, or its costs do not fit 32 bits, there is
/// none, and `var` stays as it is.
pub fn cdef_find_dir_slice<T: Sample>(
    samples: &[T],
    geometry: SliceGeometry,
    var: &mut u32,
    coeff_shift: usize,
    cpu: CpuFeatureLevel,
) -> (r: Option<i32>)
    requires
        coeff_shift < 32,
    ensures
        r.is_some() == (geometry.has_block(samples@.len() as int) && costs_fit(
            slice_centred(samples@, geometry, coeff_shift as int),
        )),
        r.is_some() ==> direction_found(
            slice_centred(samples@, geometry, coeff_shift as int),
            r.unwrap() as int,
            *final(var) as int,
        ),
        r.is_none() ==> *final(var) == *old(var),
{
    match geometry.start_of_block(samples.len()) {
        Some(origin) => {
            let img = PlaneRegion { data: samples, stride: geometry.stride, origin };
            assert(centred(img, coeff_shift as int) =~= slice_centred(
                samples@,
                geometry,
                coeff_shift as int,
            ));
            if region_fits(&img, coeff_shift as u32) {
                Some(cdef_find_dir(&img, var, coeff_shift, cpu))
            } else {
                None
            }
        },
        None => None,
    }
}

} // verus!
