[package]
name = "sw-scope"
version = "0.1.0"
edition = "2021"
publish = false

[dependencies]
typeid = "1"
bumpalo = { version = "3", features = ["boxed"] }
