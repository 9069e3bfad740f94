[package]
name = "floresta_wire"
version = "0.1.0"
edition = "2021"
publish = false

[dependencies]
tokio = { version = "1", features = ["sync", "rt", "net", "macros", "time"] }
rand = "0.8"
bitcoin = "0.32"
dns-lookup = "2"
tracing = "0.1"
thiserror = "1"
serde_json = "1"
prometheus-client = "0.22"
axum = "0.7"
sysinfo = "0.30"
rustreexo = "0.4"
