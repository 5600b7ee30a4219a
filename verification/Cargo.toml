[package]
name = "synthmerge"
version = "0.1.0"
edition = "2021"
publish = false

[dependencies]
imara-diff = "*"
anyhow = "*"
clap = { version = "*", features = ["derive"] }
env_logger = "*"
futures = "*"
log = "*"
reqwest = { version = "*", default-features = false, features = ["json", "rustls-tls"] }
serde = { version = "*", features = ["derive"] }
serde_json = "*"
serde_yaml = "*"
shellexpand = "*"
tokio = { version = "*", features = ["rt-multi-thread", "macros", "time"] }
