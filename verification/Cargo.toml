[package]
name = "subchain_step"
version = "0.1.0"
edition = "2021"
publish = false

[dependencies]
plonky2 = "0.1.4"
plonky2_field = "0.1.1"
