[package]
name = "sim"
version = "0.1.0"
edition = "2021"
publish = false

[dependencies]
dashmap = "*"
rustc-hash = "*"
smallvec = "*"
rayon = "*"
glam = "*"
flume = "*"
parking_lot = "*"
thiserror = "*"
log = "*"
