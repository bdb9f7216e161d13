[package]
name = "poe"
version = "0.1.0"
edition = "2021"
publish = false

[dependencies]
num = "=0.4.3"
keccak-hash = "0.8"
plonky2 = "=0.2.2"
