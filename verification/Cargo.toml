[package]
name = "fast_wfc"
version = "0.1.0"
edition = "2021"
publish = false

[dependencies]
rand = { version = "0.8", default-features = false, features = ["alloc"] }
rand_xorshift = "0.3"
