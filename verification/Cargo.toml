[package]
name = "someip_analyzer"
version = "0.1.0"
edition = "2021"
publish = false

[dependencies]
calamine = "*"
clap = "*"
crossbeam-channel = "*"
env_logger = "*"
log = "*"
pnet = "*"
rand = "*"
serde = { version = "*", features = ["derive"] }
serde_json = "*"
thiserror = "*"
