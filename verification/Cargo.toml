[package]
name = "wasm_kernels"
version = "0.1.0"
edition = "2021"
publish = false

[dependencies]
v_frame = "0.3"
arg_enum_proc_macro = "0.3"

[dev-dependencies]
rand = "0.9"
