//! Levels of processor support, and block sizes.

use wasm_kernels::cpu_features::{cpu_function_lookup_table, CpuFeatureLevel};
use wasm_kernels::partition::BlockSize;
use wasm_kernels::plane::PlaneRegion;
use wasm_kernels::predict::pred_cfl_ac;

#[test]
fn levels_in_order() {
    assert_eq!(CpuFeatureLevel::len(), 2);
    assert_eq!(CpuFeatureLevel::all(), [CpuFeatureLevel::RUST, CpuFeatureLevel::SIMD128]);
    assert_eq!(CpuFeatureLevel::RUST.as_index(), 0);
    assert_eq!(CpuFeatureLevel::SIMD128.as_index(), 1);
    assert_eq!(CpuFeatureLevel::default(), CpuFeatureLevel::SIMD128);
    assert!(CpuFeatureLevel::RUST < CpuFeatureLevel::SIMD128);
    assert!(!CpuFeatureLevel::RUST.has_simd128());
    assert!(CpuFeatureLevel::SIMD128.has_simd128());
}

#[test]
fn tables_by_level() {
    assert_eq!(cpu_function_lookup_table(1, Some(2)), [1, 2]);
    assert_eq!(cpu_function_lookup_table(1, None), [1, 1]);
}

#[test]
fn sizes_of_blocks() {
    assert_eq!(BlockSize::from_width_and_height_opt(16, 64).unwrap(), BlockSize::BLOCK_16X64);
    assert!(BlockSize::from_width_and_height_opt(16, 128).is_err());
    assert!(BlockSize::from_width_and_height_opt(0, 4).is_err());
    assert_eq!((BlockSize::BLOCK_8X32.width(), BlockSize::BLOCK_8X32.height()), (8, 32));
}

#[test]
fn luma_averages_are_stored() {
    let mut ac = vec![1i16; 4];
    let luma = PlaneRegion { data: &[7u8, 8, 9][..], stride: 1, origin: 1 };
    let simd = CpuFeatureLevel::SIMD128;
    pred_cfl_ac::<_, 1, 0, _>(
        &mut ac,
        &luma,
        BlockSize::BLOCK_4X4,
        1,
        2,
        simd,
        |luma, xdec, ydec, b, w, h, cpu| {
            assert_eq!((xdec, ydec, b, w, h, cpu), (1, 0, BlockSize::BLOCK_4X4, 1, 2, simd));
            vec![-(luma.data[luma.origin] as i16); 3]
        },
    );
    assert_eq!(ac, [-8, -8, -8, 1]);
}
