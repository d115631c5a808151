[package]
name = "consistent_hash"
version = "0.1.0"
edition = "2021"

[dependencies]
md5 = "0.7"

[dev-dependencies]
rand = "0.7"
