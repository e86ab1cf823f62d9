[package]
name = "can_parser"
version = "0.1.0"
edition = "2021"
publish = false

[dependencies]
anyhow = "=1.0.104"
cached = { version = "=4.1.0", default-features = false, features = ["time_stores"] }
clap = { version = "=4.6.7", features = ["derive"] }
flate2 = "=1.1.10"
indicatif = "=0.18.6"
memmap2 = "=0.9.12"
metrics = "=0.24.6"
metrics-exporter-prometheus = "=0.18.3"
num_cpus = "=1.17.0"
rayon = "=1.12.0"
serde = { version = "=1.0.229", features = ["derive"] }
serde_json = "=1.0.154"
tokio = { version = "=1.54.1", features = ["full"] }
tracing = "=0.1.44"
tracing-subscriber = { version = "=0.3.23", features = ["env-filter"] }
