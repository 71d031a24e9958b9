[package]
name = "binstruct"
version = "0.1.0"
edition = "2021"
publish = false

[dependencies]
pretty-hex = "=0.4.2"
syn = { version = "=3.0.9", features = ["full", "extra-traits"] }
quote = "=1.0.47"
proc-macro2 = "=1.0.107"
darling = "=0.24.1"
