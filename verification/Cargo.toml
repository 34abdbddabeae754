[package]
name = "presence"
version = "0.1.0"
edition = "2021"
publish = false

[dependencies]
serde_json = "*"
chrono = { version = "*", features = ["serde"] }
serde = { version = "*", features = ["derive"] }
axum = "*"
tokio = { version = "*", features = ["full"] }
tokio-util = { version = "*", features = ["rt"] }
tower-http = { version = "*", features = ["trace"] }
tracing = "*"
tracing-subscriber = { version = "*", features = ["env-filter", "json"] }
linemux = "*"
reqwest = { version = "*", default-features = false, features = ["json", "rustls-tls"] }
clap = { version = "*", features = ["derive", "env"] }
thiserror = "*"
