[package]
name = "evremap"
version = "0.1.0"
edition = "2021"
publish = false

[dependencies]
anyhow = "1.0"
evdev-rs = "0.4"
libc = "0.2"
log = "0.4"
pretty_env_logger = "0.4"
serde = { version = "1.0", features = ["derive"] }
structopt = "0.3"
thiserror = "1.0"
toml = "0.5"
