[package]
name = "ferrox"
version = "0.1.0"
edition = "2021"
publish = false

[dependencies]
html-escape = "0.2"
mime_guess = "2"
urlencoding = "2"
serde = { version = "1", features = ["derive"] }
serde_yaml = "0.9"
time = "0.3"
tokio = { version = "1", features = ["full"] }
tokio-rustls = { version = "0.26", default-features = false, features = ["ring", "tls12", "logging"] }
rustls-pemfile = "2"
