[package]
name = "tunnel_relay"
version = "0.1.0"
edition = "2021"
publish = false

[dependencies]
worker = "*"
wasm-bindgen-futures = "*"
lazy_static = "*"
futures-util = "*"
tokio = { version = "*", default-features = false, features = ["io-util"] }
