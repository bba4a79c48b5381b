[package]
name = "boss"
version = "0.1.0"
edition = "2021"
publish = false

[dependencies]
shellwords = "1"
anyhow = "1"
futures = "0.3"
nix = { version = "*", features = ["signal", "process"] }
serde = { version = "1", features = ["derive"] }
serde_yaml = "0.9"
structopt = "0.3"
tokio = { version = "1", features = ["full"] }
hyper = "0.12"
tokio-process = "0.2"
