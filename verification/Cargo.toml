[package]
name = "docsis_monitor"
version = "0.1.0"
edition = "2021"
publish = false

[dependencies]
anyhow = "1"
clap = { version = "4", features = ["derive"] }
daemonize = "0.5"
jiff = "0.2"
nix = { version = "0.30", features = ["fs", "hostname", "process", "time", "user"] }
pnet_datalink = "0.35"
serde = { version = "1", features = ["derive"] }
serde_json = "1"
