[package]
name = "filer"
version = "0.1.0"
edition = "2021"
publish = false

[dependencies]
blake3 = "*"
serde_json = "*"
anyhow = "*"
tokio = { version = "*", features = ["full"] }
axum = "*"
axum-server = "*"
reqwest = { version = "*", default-features = false }
clap = { version = "*", features = ["cargo"] }
byte-unit = "*"
num_cpus = "*"
chrono = "*"
time = "*"
tracing = "*"
tracing-subscriber = { version = "*", features = ["env-filter", "time"] }
tower = "*"
tower-http = { version = "*", features = ["fs", "set-header"] }
