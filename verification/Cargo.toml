[package]
name = "rp_forest"
version = "0.1.0"
edition = "2021"
publish = false

[dependencies]
rand = "=0.8.5"
rand_xorshift = "=0.3.0"
ahash = "=0.8.12"

[dev-dependencies]
float-ord = "=0.3.2"
