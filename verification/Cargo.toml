[package]
name = "gpui_ohos"
version = "0.1.0"
edition = "2021"
publish = false

[dependencies]
etagere = "0.2"
uuid = "1"
anyhow = "1"
futures = "0.3"
raw-window-handle = "0.6"
rustls = { version = "0.23", default-features = false, features = ["ring", "std"] }
rustls-platform-verifier = "0.6"
webpki-roots = "1"
