[package]
name = "fusion_store"
version = "0.2.0"
edition = "2021"
publish = false

[dependencies]
anyhow = "=1.0.104"
arrow = { version = "=53.4.1", default-features = false, features = ["ipc"] }
axum = "=0.7.9"
base64 = "=0.22.1"
bytemuck = "=1.25.2"
clap = { version = "=4.6.7", features = ["derive", "env"] }
fs2 = "=0.4.3"
heed = "=0.20.5"
libc = "=0.2.191"
memmap2 = "=0.9.12"
prometheus = { version = "=0.13.4", default-features = false }
pyo3 = { version = "0.23", features = ["abi3-py311", "extension-module"] }
serde = { version = "=1.0.229", features = ["derive"] }
serde_json = "=1.0.154"
thiserror = "=1.0.69"
tokio = { version = "=1.54.1", features = ["full"] }
tracing = "=0.1.44"
tracing-subscriber = { version = "=0.3.23", features = ["env-filter"] }
