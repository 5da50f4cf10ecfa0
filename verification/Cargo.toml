[package]
name = "metrics"
version = "0.1.0"
edition = "2021"
publish = false

[dependencies]
anyhow = "1"
plotly = "*"
primitive = "*"
tokio = { version = "1", features = ["io-util", "rt", "macros", "time", "sync"] }
ureq = "2"
