# wasm_kernels

Kernels of an AV1 encoder for the 128-bit vectors of WebAssembly, verified with Verus.

- `arch`, `vector`, `simd_helpers`: the vector, its instructions, and what is made of a few of them
- `plane`, `pixel`, `frame`, `partition`: samples, windows onto them, and the sizes of blocks
- `dist`: sums of absolute, transformed and squared differences
- `cdef`, `lrf`: the loop filters
- `predict`, `mc`: intra prediction and motion compensation
- `transform`, `quantize`: forward and inverse transforms, and inverse quantization
- `portable`: what routines without a vector kernel return, put in its place
- `cpu_features`: which kernels a processor can run
- `math`, `sums`: the arithmetic and the sums that contracts speak of

A contract says for every sample what a kernel stores there, and that nothing else changes. Public
proof functions state what holds of several kernels at once.

`app` puts the kernels to use on planes of `v_frame`.
