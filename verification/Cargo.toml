[package]
name = "autosub"
version = "0.1.0"
edition = "2021"
publish = false

[dependencies]
dirs = "=5.0.1"
regex = "=1.13.1"
unicode-normalization = "=0.1.26"
serde_json = "=1.0.154"
zip = { version = "=2.6.1", default-features = false, features = ["deflate"] }
reqwest = { version = "=0.12.28", default-features = false, features = ["stream", "rustls-tls"] }
futures-util = "=0.3.34"
tokio = { version = "=1.54.1", features = ["rt"] }
