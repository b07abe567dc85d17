[package]
name = "onepass"
version = "0.1.0"
edition = "2021"
publish = false

[dependencies]
anyhow = "1"
argon2 = "0.5"
blake3 = { version = "1", features = ["pure", "zeroize"] }
clap = { version = "4", features = ["derive", "env"] }
crypto-bigint = { version = "0.6", features = ["rand_core"] }
rand_core = "0.6"
rpassword = "7"
zeroize = "1"
