[package]
name = "regen_avl"
version = "0.1.0"
edition = "2021"
publish = false

[dependencies]
blake2 = "0.10"
im = "=15.1.0"

[dev-dependencies]
protobuf = "=2.28.0"
