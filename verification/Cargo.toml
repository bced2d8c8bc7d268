[package]
name = "ragnarok_stack"
version = "0.1.0"
edition = "2021"
publish = false

[dependencies]
encoding_rs = "0.8"
serde_json = "1"
