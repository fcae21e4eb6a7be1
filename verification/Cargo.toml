[package]
name = "txhashset"
version = "0.1.0"
edition = "2021"
publish = false

[dependencies]
croaring = "=0.9.0"
