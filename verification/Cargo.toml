[package]
name = "apaseh"
version = "0.1.0"
edition = "2021"
publish = false

[dependencies]
clap = { version = "*", features = ["derive"] }
env_logger = "*"
log = "*"
lru = "*"
memmap2 = "*"
mime_guess = "*"
nix = { version = "*", features = ["signal", "process"] }
num_cpus = "*"
parking_lot = "*"
socket2 = { version = "*", features = ["all"] }
tokio = { version = "*", features = ["full"] }
url = "*"
