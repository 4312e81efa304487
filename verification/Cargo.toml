[package]
name = "wt_cache"
version = "0.1.0"
edition = "2021"

[dependencies]
ahash = "0.8"
