[package]
name = "zk_rust_api"
version = "0.1.0"
edition = "2021"
publish = false

[dependencies]
halo2_proofs = "*"
halo2_gadgets = "*"
