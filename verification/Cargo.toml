[package]
name = "bf_jit"
version = "0.1.0"
edition = "2021"
publish = false

[dependencies]
dynasmrt = "2"
inkwell = { version = "0.2.0", features = ["llvm15-0"] }
nix = "0.24"
