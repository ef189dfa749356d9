[package]
name = "logos"
version = "0.1.0"
edition = "2021"
publish = false

[dependencies]
regex-syntax = "0.6"
utf8-ranges = "1"
fnv = "1"
rustc-hash = "1"
proc-macro2 = "1"
quote = "1"
syn = { version = "1", features = ["full"] }
