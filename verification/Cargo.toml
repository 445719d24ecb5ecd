[package]
name = "sfu_core"
version = "0.1.0"
edition = "2021"
publish = false

[dependencies]
arc-swap = "1"
bytes = "1"
crossbeam-channel = "0.5"
parking_lot = "0.12"
smallvec = "1"
