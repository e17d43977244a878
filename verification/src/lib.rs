//! Kernels of a video codec for the 128-bit vectors of WebAssembly: intra prediction, motion
//! compensation, transforms, inverse quantization, distortion measures and loop filters.
//!
//! Every kernel is proved against a description of what it computes, sample by sample. The vector
//! instructions are in `arch`; each has the meaning that WebAssembly gives it.

pub mod arch;
pub mod cdef;
pub mod cpu_features;
pub mod dist;
pub mod frame;
pub mod laws;
pub mod lrf;
pub mod math;
pub mod mc;
pub mod partition;
pub mod pixel;
pub mod plane;
pub mod portable;
pub mod predict;
pub mod quantize;
pub mod simd_helpers;
pub mod sums;
pub mod transform;
pub mod vector;
