[package]
name = "ct_montgomery"
version = "0.1.0"
edition = "2021"
publish = false

[dependencies]
subtle = { version = "2.4", default-features = false }
zeroize = { version = "1", default-features = false }
serdect = { version = "0.2", default-features = false }
rand_core = { version = "0.6", default-features = false }
risc0-zkvm-platform = "*"
