[package]
name = "lolb"
version = "0.1.0"
edition = "2021"
publish = false

[dependencies]
acme-lib = "=0.9.1"
bytes = "=1.12.1"
clap = "=2.34.0"
h2 = "=0.4.20"
http = "=1.5.0"
httparse = "=1.10.1"
log = "=0.4.34"
num_cpus = "=1.17.0"
regex = "=1.13.1"
serde = { version = "=1.0.229", features = ["derive"] }
serde_derive = "=1.0.229"
serde_json = "=1.0.154"
tokio = { version = "=1.54.1", features = ["rt"] }
toml = "=0.5.11"
