[package]
name = "sealed_auction"
version = "0.1.0"
edition = "2021"
publish = false

[dependencies]
tfhe = { version = "*", features = ["boolean"] }

[dev-dependencies]
rand = "0.8"
