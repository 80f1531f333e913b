[package]
name = "flo_talk"
version = "0.1.0"
edition = "2021"
publish = false

[dependencies]
smallvec = "1"
once_cell = "1"
futures = "0.3"
