[package]
name = "roadnet"
version = "0.1.0"
edition = "2021"
publish = false

[dependencies]
rayon = "*"
axum = { version = "*", features = ["ws"] }
axum-extra = { version = "*", features = ["typed-header"] }
tokio = { version = "*", features = ["rt-multi-thread", "macros", "net", "sync"] }
tower-http = { version = "*", features = ["cors", "trace"] }
tracing = "*"
tracing-subscriber = "*"
serde = { version = "*", features = ["derive"] }
serde_json = "*"
anyhow = "*"
osmio = "*"
geo = "*"
geo-svg = "*"
geo-types = "*"
