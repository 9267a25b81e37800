[package]
name = "rawposix"
version = "0.1.0"
edition = "2021"
publish = false

[dependencies]
dashmap = "=6.2.1"
nodit = "=0.9.2"
libc = "=0.2.191"
lazy_static = "=1.5.1"
parking_lot = "=0.13.0"
