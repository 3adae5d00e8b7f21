[package]
name = "geoprint3d_backend"
version = "0.1.0"
edition = "2021"
publish = false

[dependencies]
anyhow = "1"
axum = "*"
chrono = "0.4"
delaunator = "*"
dotenvy = "*"
earcutr = "*"
futures = "0.3"
geo = { version = "*", default-features = false }
image = { version = "0.25", default-features = false, features = ["png"] }
proj = "*"
reqwest = { version = "0.12", default-features = false, features = ["json", "rustls-tls"] }
serde = { version = "1", features = ["derive"] }
serde_json = "1"
stl_io = "*"
tokio = { version = "1", features = ["full"] }
tower-http = { version = "*", features = ["cors"] }
tracing = "0.1"
tracing-appender = "0.2"
tracing-subscriber = { version = "0.3", features = ["env-filter"] }
