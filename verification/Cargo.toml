[package]
name = "reqcore"
version = "0.1.0"
edition = "2021"
publish = false

[dependencies]
woothee = "*"
uuid = { version = "*", features = ["v4"] }
axum = "*"
tokio = { version = "*", features = ["rt-multi-thread", "macros", "net", "signal"] }
serde = { version = "*", features = ["derive"] }
serde_json = "*"
reqwest = { version = "*", default-features = false, features = ["rustls-tls"] }
tower = "*"
tower-http = { version = "*", features = ["fs", "set-header", "trace"] }
tracing = "*"
tracing-subscriber = { version = "*", features = ["env-filter"] }
