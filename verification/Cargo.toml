[package]
name = "email_check"
version = "0.1.0"
edition = "2021"
publish = false

[dependencies]
anyhow = "*"
clap = { version = "*", features = ["derive"] }
dirs = "*"
env_logger = "*"
log = "*"
rfc2047-decoder = "*"
serde = { version = "*", features = ["derive"] }
