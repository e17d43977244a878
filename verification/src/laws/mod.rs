//! What the kernels are for: how their results relate to what they are given, sample by sample,
//! and how the results of several calls relate to each other.

pub mod boxes;
pub mod direction;
pub mod distance;
pub mod filter;
pub mod forward;
pub mod inverse;
pub mod mc;
pub mod numbers;
pub mod planes;
pub mod predict;
pub mod quantize;
pub mod sizes;
pub mod transformed;
pub mod vectors;
pub mod weighted;
