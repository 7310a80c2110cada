[package]
name = "rlnc-cat-rs"
version = "0.2.0"
edition = "2021"
publish = false

[dependencies]
blake3 = { version = "1", features = ["pure"] }
comp-cat-rs = "*"
