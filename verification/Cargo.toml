[package]
name = "rspack_sources"
version = "0.1.0"
edition = "2021"
publish = false

[dependencies]
sourcemap = "=9.3.2"
serde_json = "=1.0.154"
memchr = "=2.8.3"
hashbrown = "*"
rustc-hash = "*"
parking_lot = "*"
