[package]
name = "bandix_plus"
version = "0.1.0"
edition = "2021"
publish = false

[dependencies]
anyhow = "1"
aya = { version = "0.13", default-features = false }
aya-ebpf = "0.1"
axum = "0.8"
chrono = "0.4"
serde = { version = "1", features = ["derive"] }
serde_json = "1"
tokio = { version = "1", features = ["sync"] }
tower-http = { version = "0.6", features = ["cors"] }
