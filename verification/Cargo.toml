[package]
name = "float_read"
version = "0.1.0"
edition = "2021"
publish = false

[dependencies]
encoding_rs = "=0.8.44"
zip = { version = "=2.6.1", default-features = false, features = ["deflate"] }
serde = { version = "=1.0.229", features = ["derive"] }
serde_json = "=1.0.154"
pdf-extract = "=0.12.1"
tauri = { version = "2", default-features = false, features = ["tray-icon"] }
