[package]
name = "autosar_data"
version = "0.23.0"
edition = "2021"
publish = false

[dependencies]
memchr = "2"
parking_lot = "0.12"
smallvec = "1"
thiserror = "2"
