[package]
name = "branchfs"
version = "0.1.0"
edition = "2021"
publish = false

[dependencies]
serde_json = "=1.0.154"
serde = { version = "=1.0.229", features = ["derive"] }
thiserror = "=1.0.69"
parking_lot = "=0.12.5"
libc = "=0.2.191"
log = "=0.4.34"
env_logger = "=0.11.11"
clap = { version = "=4.6.7", features = ["derive"] }
nix = { version = "=0.29.0", features = ["process"] }
fuser = { version = "=0.15.1", default-features = false, features = ["abi-7-12"] }
