[package]
name = "cs110l"
version = "0.1.0"
edition = "2021"
publish = false

[dependencies]
rand = "0.8"
clap = { version = "4", features = ["derive"] }
http = "1"
tokio = { version = "1", features = ["full"] }
nix = { version = "0.29", features = ["ptrace", "process", "signal"] }
log = "0.4"
pretty_env_logger = "0.5"
