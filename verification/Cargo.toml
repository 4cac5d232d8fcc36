[package]
name = "engine_core"
version = "0.1.0"
edition = "2021"
publish = false

[dependencies]
sha3 = "*"
rjson = "*"
borsh = { version = "*", features = ["derive"] }
evm = "*"
primitive-types = "*"
