[package]
name = "circuit_gadgets"
version = "0.1.0"
edition = "2021"
publish = false

[dependencies]
halo2_proofs = "=0.2.0"
