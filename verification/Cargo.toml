[package]
name = "ptt-core"
version = "0.1.0"
edition = "2021"
publish = false

[dependencies]
pcre2 = "=0.2.11"
serde = { version = "=1.0.229", features = ["derive"] }
serde_json = "=1.0.154"
