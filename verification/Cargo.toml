[package]
name = "nearest_airport"
version = "0.1.0"
edition = "2021"
publish = false

[dependencies]
serde_json = "*"
tokio = { version = "*", features = ["rt-multi-thread", "macros", "net", "time", "sync"] }
axum = "*"
reqwest = { version = "*", default-features = false, features = ["rustls-tls"] }
tracing = "*"
tracing-subscriber = "*"
