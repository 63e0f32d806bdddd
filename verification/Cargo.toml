[package]
name = "glasik-core"
version = "0.1.0"
edition = "2021"
publish = false

[dependencies]
flate2 = "1"
aho-corasick = "1"
ahash = "0.8"
libdeflater = "1"
serde_json = "1"
rayon = "1"
arc-swap = "1"
sha2 = "0.10"
hex = "0.4"
