[package]
name = "circuits"
version = "0.1.0"
edition = "2021"
publish = false

[dependencies]
franklin-crypto = ">=0.1, <0.3"
rescue_poseidon = "=0.5.2"
