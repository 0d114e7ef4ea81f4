[package]
name = "cardcrusher"
version = "0.1.0"
edition = "2021"
publish = false

[dependencies]
slotmap = "1"
mlua = { version = "0.10", features = ["lua54", "vendored"] }
