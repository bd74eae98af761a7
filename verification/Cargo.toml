[package]
name = "netcalc"
version = "0.1.0"
edition = "2021"
publish = false

[dependencies]
regex = "1"
similar = "2"
strsim = "0.11"
serde = { version = "1", features = ["derive"] }
serde_json = "1"
serde_yaml = "0.9"
dirs = "5"
tempfile = "3"
ipnet = "2"
num-bigint = "0.4"
num-traits = "0.2"
num-format = "0.4"
