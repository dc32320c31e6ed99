[package]
name = "gitcomet_view"
version = "0.1.0"
edition = "2021"
publish = false

[dependencies]
memchr = "2"
regex = "1"
rustc-hash = "2"
smallvec = "1"
