[package]
name = "miniinfer"
version = "0.1.0"
edition = "2021"
publish = false

[dependencies]
fancy-regex = "*"
serde = { version = "*", features = ["derive"] }
serde_json = "*"
ndarray = "*"
rand = "*"
clap = { version = "*", features = ["derive"] }
axum = "*"
tokio = { version = "*", features = ["rt-multi-thread", "macros", "net", "sync"] }
tokio-stream = "*"
