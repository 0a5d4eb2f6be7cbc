[package]
name = "tunnel_core"
version = "0.1.0"
edition = "2021"
publish = false

[dependencies]
futures-util = { version = "0.3", default-features = false }
getrandom = "0.2"
once_cell = "1"
regex = "1"
serde = { version = "1", features = ["derive"] }
serde_json = "1"
tokio = { version = "1", default-features = false, features = ["io-util"] }
uuid = "1"
wasm-bindgen-futures = "0.4"
worker = "0.6"
