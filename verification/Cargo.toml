[package]
name = "mpc_bits"
version = "0.1.0"
edition = "2021"
publish = false

[dependencies]
cosmian_std = "*"
