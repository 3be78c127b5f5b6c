[package]
name = "waywallen"
version = "0.1.0"
edition = "2021"
publish = false

[dependencies]
anyhow = "1"
ash = "0.38"
env_logger = "0.11"
futures-util = "0.3"
libc = "0.2"
log = "0.4"
nix = { version = "0.29", features = ["ioctl"] }
serde = { version = "1", features = ["derive"] }
serde_json = "1"
tokio = { version = "1", features = ["macros", "rt", "rt-multi-thread", "sync", "time"] }
zbus = { version = "5", default-features = false, features = ["tokio"] }
